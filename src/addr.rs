//! IPv4 addresses as `u32` values (first octet most significant), their
//! dotted-quad text form, and CIDR networks.
use crate::text::{chars_of, dec, digit_char, push_decimal, split_chars, split_on, string_of, views};
use vstd::prelude::*;

verus! {

/// An ASCII decimal digit.
pub open spec fn is_digit(c: char) -> bool {
    48 <= (c as u32) <= 57
}

/// The number that a string of decimal digits denotes.
pub open spec fn digits_value(p: Seq<char>) -> nat
    decreases p.len(),
{
    if p.len() == 0 {
        0
    } else {
        digits_value(p.drop_last()) * 10 + ((p.last() as u32) - 48) as nat
    }
}

/// An octet of a dotted quad: one to three digits, no leading zero, at most 255.
pub open spec fn octet_value(p: Seq<char>) -> Option<nat> {
    if 1 <= p.len() <= 3 && (forall|i: int| 0 <= i < p.len() ==> is_digit(#[trigger] p[i])) && (
    p.len() == 1 || p[0] != '0') && digits_value(p) <= 255 {
        Some(digits_value(p))
    } else {
        None
    }
}

/// The address with octets `a.b.c.d`.
pub open spec fn quad(a: nat, b: nat, c: nat, d: nat) -> nat {
    a * 0x1000000 + b * 0x10000 + c * 0x100 + d
}

/// The address that `s` spells in dotted-quad form (`a.b.c.d`, each part an
/// octet), if it spells one.
pub open spec fn ipv4_value(s: Seq<char>) -> Option<nat> {
    let parts = split_on(s, '.');
    if parts.len() == 4 && octet_value(parts[0]) is Some && octet_value(parts[1]) is Some
        && octet_value(parts[2]) is Some && octet_value(parts[3]) is Some {
        Some(
            quad(
                octet_value(parts[0])->0,
                octet_value(parts[1])->0,
                octet_value(parts[2])->0,
                octet_value(parts[3])->0,
            ),
        )
    } else {
        None
    }
}

/// Dotted-quad text of an address.
pub open spec fn ipv4_text(a: u32) -> Seq<char> {
    dec((a / 0x1000000) as nat) + seq!['.'] + dec(((a / 0x10000) % 0x100) as nat) + seq!['.']
        + dec(((a / 0x100) % 0x100) as nat) + seq!['.'] + dec((a % 0x100) as nat)
}

/// An optional address as a mathematical integer.
pub open spec fn opt_nat(r: Option<u32>) -> Option<nat> {
    match r {
        Some(a) => Some(a as nat),
        None => None,
    }
}

/// Reads one octet of a dotted quad.
pub fn parse_octet(p: &Vec<char>) -> (r: Option<u32>)
    ensures
        opt_nat(r) == octet_value(p@),
{
    let n = p.len();
    if n == 0 || n > 3 {
        return None;
    }
    if n > 1 && p[0] == '0' {
        return None;
    }
    let mut v: u32 = 0;
    let mut i: usize = 0;
    while i < n
        invariant
            n == p@.len() <= 3,
            i <= n,
            v == digits_value(p@.take(i as int)),
            v < 1000,
            forall|j: int| 0 <= j < i ==> is_digit(#[trigger] p@[j]),
        decreases n - i,
    {
        let c = p[i];
        let u = c as u32;
        if u < 48 || u > 57 {
            return None;
        }
        assert(p@.take(i + 1).drop_last() == p@.take(i as int));
        proof {
            if i >= 1 {
                assert(v < 100) by {
                    lemma_digits_bound(p@.take(i as int));
                }
            }
        }
        v = v * 10 + (u - 48);
        i = i + 1;
    }
    assert(p@.take(i as int) == p@);
    if v > 255 {
        return None;
    }
    Some(v)
}

/// One or two digits stay below 100; one digit below 10.
proof fn lemma_digits_bound(p: Seq<char>)
    requires
        p.len() <= 2,
        forall|j: int| 0 <= j < p.len() ==> is_digit(#[trigger] p[j]),
    ensures
        digits_value(p) < 100,
        p.len() <= 1 ==> digits_value(p) < 10,
        p.len() == 0 ==> digits_value(p) == 0,
    decreases p.len(),
{
    if p.len() > 0 {
        lemma_digits_bound(p.drop_last());
    }
}

/// Reads a dotted-quad address.
pub fn parse_ipv4_chars(s: &Vec<char>) -> (r: Option<u32>)
    ensures
        opt_nat(r) == ipv4_value(s@),
{
    let parts = split_chars(s, '.');
    if parts.len() != 4 {
        return None;
    }
    assert(views(parts@)[0] == parts@[0]@);
    assert(views(parts@)[1] == parts@[1]@);
    assert(views(parts@)[2] == parts@[2]@);
    assert(views(parts@)[3] == parts@[3]@);
    let a = match parse_octet(&parts[0]) {
        Some(x) => x,
        None => return None,
    };
    let b = match parse_octet(&parts[1]) {
        Some(x) => x,
        None => return None,
    };
    let c = match parse_octet(&parts[2]) {
        Some(x) => x,
        None => return None,
    };
    let d = match parse_octet(&parts[3]) {
        Some(x) => x,
        None => return None,
    };
    Some(a * 0x1000000 + b * 0x10000 + c * 0x100 + d)
}

/// Reads a dotted-quad address from text.
pub fn parse_ipv4(s: &str) -> (r: Option<u32>)
    ensures
        opt_nat(r) == ipv4_value(s@),
{
    let v = chars_of(s);
    parse_ipv4_chars(&v)
}

/// Appends the dotted-quad text of `a`.
pub fn push_ipv4(out: &mut Vec<char>, a: u32)
    ensures
        final(out)@ == old(out)@ + ipv4_text(a),
{
    push_decimal(out, a / 0x1000000);
    out.push('.');
    push_decimal(out, (a / 0x10000) % 0x100);
    out.push('.');
    push_decimal(out, (a / 0x100) % 0x100);
    out.push('.');
    push_decimal(out, a % 0x100);
    assert(final(out)@ =~= old(out)@ + ipv4_text(a));
}

/// Dotted-quad text of `a`.
pub fn ipv4_to_string(a: u32) -> (r: String)
    ensures
        r@ == ipv4_text(a),
{
    let mut v: Vec<char> = Vec::new();
    push_ipv4(&mut v, a);
    assert(v@ =~= ipv4_text(a));
    string_of(&v)
}

/// A text without `sep` is a single piece.
proof fn lemma_split_single(y: Seq<char>, sep: char)
    requires
        !y.contains(sep),
    ensures
        split_on(y, sep) == seq![y],
    decreases y.len(),
{
    if y.len() > 0 {
        let z = y.drop_last();
        assert(!z.contains(sep)) by {
            if z.contains(sep) {
                let i = choose|i: int| 0 <= i < z.len() && z[i] == sep;
                assert(y[i] == sep);
            }
        }
        lemma_split_single(z, sep);
        assert(y[y.len() - 1] != sep);
        assert(z.push(y.last()) == y);
        assert(split_on(y, sep) =~= seq![y]);
    } else {
        assert(y =~= Seq::<char>::empty());
    }
}

/// Appending a separator and a piece without separators adds that piece.
proof fn lemma_split_append(x: Seq<char>, y: Seq<char>, sep: char)
    requires
        !y.contains(sep),
    ensures
        split_on(x + seq![sep] + y, sep) == split_on(x, sep).push(y),
    decreases y.len(),
{
    let s = x + seq![sep] + y;
    if y.len() == 0 {
        assert(s.drop_last() == x);
        assert(y =~= Seq::<char>::empty());
    } else {
        let z = y.drop_last();
        assert(!z.contains(sep)) by {
            if z.contains(sep) {
                let i = choose|i: int| 0 <= i < z.len() && z[i] == sep;
                assert(y[i] == sep);
            }
        }
        lemma_split_append(x, z, sep);
        assert(s.drop_last() == x + seq![sep] + z);
        assert(s.last() == y[y.len() - 1]);
        assert(z.push(y.last()) == y);
        assert(split_on(s, sep) =~= split_on(x, sep).push(y));
    }
}

/// What a digit character is, as a code point.
proof fn lemma_digit_char(d: nat)
    requires
        d < 10,
    ensures
        digit_char(d) as u32 == d + 48,
        is_digit(digit_char(d)),
        digit_char(d) != '.',
        d != 0 ==> digit_char(d) != '0',
{
}

/// The decimal text of an octet reads back as that octet.
proof fn lemma_octet_round_trip(x: nat)
    requires
        x < 256,
    ensures
        octet_value(dec(x)) == Some(x),
        !dec(x).contains('.'),
{
    let d = dec(x);
    if x < 10 {
        lemma_digit_char(x);
        assert(d == seq![digit_char(x)]);
        assert(d.drop_last() =~= Seq::<char>::empty());
        assert(digits_value(d.drop_last()) == 0);
        assert(d.last() as u32 == x + 48);
        assert(digits_value(d) == x);
        assert(forall|i: int| 0 <= i < d.len() ==> is_digit(#[trigger] d[i]));
    } else if x < 100 {
        let (a, b) = (x / 10, x % 10);
        lemma_digit_char(a);
        lemma_digit_char(b);
        assert(dec(a) == seq![digit_char(a)]);
        assert(d =~= seq![digit_char(a), digit_char(b)]);
        assert(d.drop_last() =~= seq![digit_char(a)]);
        assert(d.drop_last().drop_last() =~= Seq::<char>::empty());
        assert(digits_value(d.drop_last().drop_last()) == 0);
        assert(d.drop_last().last() as u32 == a + 48);
        assert(digits_value(d.drop_last()) == a);
        assert(digits_value(d) == a * 10 + b);
        assert(forall|i: int| 0 <= i < d.len() ==> is_digit(#[trigger] d[i]));
    } else {
        let (a, b, c) = (x / 100, (x / 10) % 10, x % 10);
        lemma_digit_char(a);
        lemma_digit_char(b);
        lemma_digit_char(c);
        assert(x / 10 / 10 == a);
        assert(dec(a) == seq![digit_char(a)]);
        assert(dec(x / 10) =~= seq![digit_char(a), digit_char(b)]);
        assert(d =~= seq![digit_char(a), digit_char(b), digit_char(c)]);
        assert(d.drop_last() =~= seq![digit_char(a), digit_char(b)]);
        assert(d.drop_last().drop_last() =~= seq![digit_char(a)]);
        assert(d.drop_last().drop_last().drop_last() =~= Seq::<char>::empty());
        assert(digits_value(d.drop_last().drop_last().drop_last()) == 0);
        assert(d.drop_last().drop_last().last() as u32 == a + 48);
        assert(digits_value(d.drop_last().drop_last()) == a);
        assert(digits_value(d.drop_last()) == a * 10 + b);
        assert(digits_value(d) == (a * 10 + b) * 10 + c);
        assert(a * 100 + b * 10 + c == x);
        assert(forall|i: int| 0 <= i < d.len() ==> is_digit(#[trigger] d[i]));
    }
    assert(!d.contains('.'));
}

/// The dotted-quad text of an address reads back as that address.
pub proof fn law_ipv4_round_trip(a: u32)
    ensures
        ipv4_value(ipv4_text(a)) == Some(a as nat),
{
    let o0 = (a / 0x1000000) as nat;
    let o1 = ((a / 0x10000) % 0x100) as nat;
    let o2 = ((a / 0x100) % 0x100) as nat;
    let o3 = (a % 0x100) as nat;
    lemma_octet_round_trip(o0);
    lemma_octet_round_trip(o1);
    lemma_octet_round_trip(o2);
    lemma_octet_round_trip(o3);
    let t1 = dec(o0) + seq!['.'] + dec(o1);
    let t2 = t1 + seq!['.'] + dec(o2);
    let t3 = t2 + seq!['.'] + dec(o3);
    assert(t3 == ipv4_text(a));
    lemma_split_single(dec(o0), '.');
    lemma_split_append(dec(o0), dec(o1), '.');
    lemma_split_append(t1, dec(o2), '.');
    lemma_split_append(t2, dec(o3), '.');
    let parts = split_on(t3, '.');
    assert(parts =~= seq![dec(o0), dec(o1), dec(o2), dec(o3)]);
    assert(quad(o0, o1, o2, o3) == a) by (nonlinear_arith)
        requires
            o0 == a / 0x1000000,
            o1 == (a / 0x10000) % 0x100,
            o2 == (a / 0x100) % 0x100,
            o3 == a % 0x100,
            a < 0x100000000,
    ;
}

/// A network: its address and prefix length. Orders by address, then mask.
#[derive(Clone, Copy, Debug, PartialEq, Eq, PartialOrd, Ord, Hash, Structural)]
pub struct CidrAddr {
    pub netaddr: u32,
    pub netmask: u8,
}

/// `a.b.c.d/m`.
pub open spec fn cidr_text(c: CidrAddr) -> Seq<char> {
    ipv4_text(c.netaddr) + seq!['/'] + dec(c.netmask as nat)
}

impl CidrAddr {
    /// Appends `a.b.c.d/m`.
    pub fn push_text(&self, out: &mut Vec<char>)
        ensures
            final(out)@ == old(out)@ + cidr_text(*self),
    {
        push_ipv4(out, self.netaddr);
        out.push('/');
        push_decimal(out, self.netmask as u32);
        assert(final(out)@ =~= old(out)@ + cidr_text(*self));
    }

    /// The text `a.b.c.d/m`.
    pub fn to_string(&self) -> (r: String)
        ensures
            r@ == cidr_text(*self),
    {
        let mut v: Vec<char> = Vec::new();
        self.push_text(&mut v);
        assert(v@ =~= cidr_text(*self));
        string_of(&v)
    }
}

} // verus!
