//! Character-level text handling: splitting, tokenising, decimal rendering
//! and padding, each stated over `Seq<char>`.
use vstd::prelude::*;

verus! {

/// Unicode `White_Space`, the set that `char::is_whitespace` tests.
pub open spec fn is_space(c: char) -> bool {
    let u = c as u32;
    (0x09 <= u <= 0x0d) || u == 0x20 || u == 0x85 || u == 0xa0 || u == 0x1680 || (0x2000 <= u
        <= 0x200a) || u == 0x2028 || u == 0x2029 || u == 0x202f || u == 0x205f || u == 0x3000
}

/// The pieces of `s` between occurrences of `sep`, in order; there is always
/// at least one piece, and `k` separators give `k + 1` pieces.
pub open spec fn split_on(s: Seq<char>, sep: char) -> Seq<Seq<char>>
    decreases s.len(),
{
    if s.len() == 0 {
        seq![Seq::empty()]
    } else {
        let p = split_on(s.drop_last(), sep);
        if s.last() == sep {
            p.push(Seq::empty())
        } else {
            p.update(p.len() - 1, p.last().push(s.last()))
        }
    }
}

/// The maximal runs of non-whitespace characters of `s`, in order.
pub open spec fn tokens_of(s: Seq<char>) -> Seq<Seq<char>>
    decreases s.len(),
{
    if s.len() == 0 {
        Seq::empty()
    } else {
        let p = tokens_of(s.drop_last());
        let c = s.last();
        if is_space(c) {
            p
        } else if s.len() >= 2 && !is_space(s[s.len() - 2]) {
            p.update(p.len() - 1, p.last().push(c))
        } else {
            p.push(seq![c])
        }
    }
}

/// The character of a decimal digit `d < 10`.
pub open spec fn digit_char(d: nat) -> char {
    ((d + 48) as u8) as char
}

/// Canonical decimal rendering of `n`: no sign, no leading zeros.
pub open spec fn dec(n: nat) -> Seq<char>
    decreases n,
{
    if n < 10 {
        seq![digit_char(n)]
    } else {
        dec(n / 10).push(digit_char(n % 10))
    }
}

/// `s` followed by spaces up to `w` characters; unchanged if already that long.
pub open spec fn pad_right(s: Seq<char>, w: nat) -> Seq<char> {
    if s.len() >= w {
        s
    } else {
        s + Seq::new((w - s.len()) as nat, |i: int| ' ')
    }
}

/// The texts that a list of character vectors holds.
pub open spec fn views(v: Seq<Vec<char>>) -> Seq<Seq<char>> {
    v.map_values(|p: Vec<char>| p@)
}

/// Splitting always gives at least one piece.
pub proof fn lemma_split_on_nonempty(s: Seq<char>, sep: char)
    ensures
        split_on(s, sep).len() >= 1,
    decreases s.len(),
{
    if s.len() > 0 {
        lemma_split_on_nonempty(s.drop_last(), sep);
    }
}

/// Tests membership in Unicode `White_Space`.
pub fn char_is_space(c: char) -> (r: bool)
    ensures
        r == is_space(c),
{
    let u = c as u32;
    (0x09 <= u && u <= 0x0d) || u == 0x20 || u == 0x85 || u == 0xa0 || u == 0x1680 || (0x2000
        <= u && u <= 0x200a) || u == 0x2028 || u == 0x2029 || u == 0x202f || u == 0x205f || u
        == 0x3000
}

/// The characters of `s`, in order.
pub fn chars_of(s: &str) -> (r: Vec<char>)
    ensures
        r@ == s@,
{
    let mut v: Vec<char> = Vec::new();
    for c in it: s.chars()
        invariant
            v@ == it.seq().take(it.index() as int),
    {
        v.push(c);
    }
    v
}

/// Relies on `String: FromIterator<char>`: the string holds exactly the given
/// characters, in order.
#[verifier::external_body]
pub(crate) fn string_of(chars: &Vec<char>) -> (r: String)
    ensures
        r@ == chars@,
{
    chars.iter().collect()
}

/// Splits `s` at every `sep`.
pub fn split_chars(s: &Vec<char>, sep: char) -> (parts: Vec<Vec<char>>)
    ensures
        views(parts@) == split_on(s@, sep),
{
    let mut parts: Vec<Vec<char>> = Vec::new();
    let mut cur: Vec<char> = Vec::new();
    let mut i: usize = 0;
    while i < s.len()
        invariant
            i <= s.len(),
            views(parts@).push(cur@) == split_on(s@.take(i as int), sep),
        decreases s.len() - i,
    {
        let c = s[i];
        proof {
            assert(s@.take(i + 1).drop_last() == s@.take(i as int));
            lemma_split_on_nonempty(s@.take(i as int), sep);
        }
        if c == sep {
            let done = cur;
            parts.push(done);
            cur = Vec::new();
            assert(views(parts@).push(cur@) == split_on(s@.take(i + 1), sep));
        } else {
            cur.push(c);
            assert(views(parts@).push(cur@) == split_on(s@.take(i + 1), sep));
        }
        i = i + 1;
    }
    assert(s@.take(i as int) == s@);
    parts.push(cur);
    assert(views(parts@) == split_on(s@, sep));
    parts
}

/// Splits `s` into its whitespace-separated tokens.
pub fn tokens(s: &Vec<char>) -> (toks: Vec<Vec<char>>)
    ensures
        views(toks@) == tokens_of(s@),
{
    let mut toks: Vec<Vec<char>> = Vec::new();
    let mut cur: Vec<char> = Vec::new();
    let mut i: usize = 0;
    while i < s.len()
        invariant
            i <= s.len(),
            i > 0 && !is_space(s@[i - 1]) ==> views(toks@).push(cur@) == tokens_of(
                s@.take(i as int),
            ),
            !(i > 0 && !is_space(s@[i - 1])) ==> views(toks@) == tokens_of(s@.take(i as int))
                && cur@.len() == 0,
        decreases s.len() - i,
    {
        let c = s[i];
        proof {
            assert(s@.take(i + 1).drop_last() == s@.take(i as int));
        }
        let in_token = i > 0 && !char_is_space(s[i - 1]);
        if char_is_space(c) {
            if in_token {
                let done = cur;
                toks.push(done);
                cur = Vec::new();
            }
            assert(views(toks@) == tokens_of(s@.take(i + 1)));
        } else {
            let ghost prev = cur@;
            if in_token {
                assert(s@.take(i + 1)[i - 1] == s@[i - 1]);
            }
            cur.push(c);
            if in_token {
                assert(views(toks@).push(cur@) =~= views(toks@).push(prev).update(
                    views(toks@).len() as int,
                    prev.push(c),
                ));
            } else {
                assert(cur@ =~= seq![c]);
            }
            assert(views(toks@).push(cur@) =~= tokens_of(s@.take(i + 1)));
        }
        i = i + 1;
    }
    assert(s@.take(i as int) == s@);
    if i > 0 && !char_is_space(s[i - 1]) {
        toks.push(cur);
    }
    assert(views(toks@) == tokens_of(s@));
    toks
}

/// The character of the digit `d`.
pub fn digit(d: u32) -> (c: char)
    requires
        d < 10,
    ensures
        c == digit_char(d as nat),
{
    ((d as u8) + 48u8) as char
}

/// Appends the decimal rendering of `n`.
pub fn push_decimal(out: &mut Vec<char>, n: u32)
    ensures
        final(out)@ == old(out)@ + dec(n as nat),
    decreases n,
{
    if n >= 10 {
        push_decimal(out, n / 10);
    }
    let c = digit(n % 10);
    out.push(c);
    assert(final(out)@ == old(out)@ + dec(n as nat));
}

/// Appends `s`, then spaces until the appended text is `w` characters long.
pub fn push_padded(out: &mut Vec<char>, s: &Vec<char>, w: usize)
    ensures
        final(out)@ == old(out)@ + pad_right(s@, w as nat),
{
    let mut i: usize = 0;
    while i < s.len()
        invariant
            i <= s.len(),
            out@ == old(out)@ + s@.take(i as int),
        decreases s.len() - i,
    {
        out.push(s[i]);
        assert(s@.take(i + 1) == s@.take(i as int).push(s@[i as int]));
        i = i + 1;
    }
    assert(s@.take(i as int) == s@);
    let mut k: usize = s.len();
    while k < w
        invariant
            s@.len() <= k <= w || (k == s@.len() && k > w),
            out@ == old(out)@ + s@ + Seq::new((k - s@.len()) as nat, |j: int| ' '),
        decreases w - k,
    {
        out.push(' ');
        assert(Seq::new((k + 1 - s@.len()) as nat, |j: int| ' ') == Seq::new(
            (k - s@.len()) as nat,
            |j: int| ' ',
        ).push(' '));
        k = k + 1;
    }
    assert(Seq::new(0nat, |j: int| ' ') == Seq::<char>::empty());
    assert(final(out)@ == old(out)@ + pad_right(s@, w as nat));
}

} // verus!
