//! The hostname table: one `<address> <hostname> [ignored...]` mapping per line.
use crate::addr::{ipv4_value, opt_nat, parse_ipv4_chars};
use crate::text::{chars_of, is_space, split_chars, split_on, string_of, tokens, tokens_of, views};
use std::collections::BTreeMap;
use vstd::prelude::*;

verus! {

/// A line that holds a mapping: at least two tokens, the first not a comment.
/// Other lines (empty, blank, `#...`, a single token) are skipped.
pub open spec fn is_mapping_line(line: Seq<char>) -> bool {
    let t = tokens_of(line);
    t.len() >= 2 && t[0][0] != '#'
}

/// The table that the lines give, or the (1-based) number of the first mapping
/// line whose address is not a dotted quad. Later lines overwrite earlier ones.
pub open spec fn hosts_of_lines(lines: Seq<Seq<char>>) -> Result<Map<u32, Seq<char>>, nat>
    decreases lines.len(),
{
    if lines.len() == 0 {
        Ok(Map::empty())
    } else {
        match hosts_of_lines(lines.drop_last()) {
            Err(n) => Err(n),
            Ok(m) => {
                let line = lines.last();
                if !is_mapping_line(line) {
                    Ok(m)
                } else {
                    let t = tokens_of(line);
                    match ipv4_value(t[0]) {
                        Some(a) => Ok(m.insert(a as u32, t[1])),
                        None => Err(lines.len()),
                    }
                }
            },
        }
    }
}

/// The table that a hostname file's text gives.
pub open spec fn hosts_of_text(text: Seq<char>) -> Result<Map<u32, Seq<char>>, nat> {
    hosts_of_lines(split_on(text, '\n'))
}

/// What a table of names holds, as text.
pub open spec fn names_view(t: BTreeMap<u32, String>) -> Map<u32, Seq<char>> {
    t@.map_values(|s: String| s@)
}

/// A mapping line whose address is not a dotted quad.
#[derive(Clone, Copy, Debug, PartialEq, Eq, Structural)]
pub enum HostsError {
    InvalidAddress { line: usize },
}

/// Parses a hostname file.
pub fn parse_hosts(raw: &str) -> (r: Result<BTreeMap<u32, String>, HostsError>)
    ensures
        match (r, hosts_of_text(raw@)) {
            (Ok(t), Ok(m)) => names_view(t) == m,
            (Err(HostsError::InvalidAddress { line }), Err(n)) => line as nat == n,
            _ => false,
        },
{
    let text = chars_of(raw);
    let lines = split_chars(&text, '\n');
    let ghost ls = split_on(raw@, '\n');
    let mut tree: BTreeMap<u32, String> = BTreeMap::new();
    let mut i: usize = 0;
    assert(ls.take(0) == Seq::<Seq<char>>::empty());
    assert(names_view(tree) =~= Map::<u32, Seq<char>>::empty());
    while i < lines.len()
        invariant
            i <= lines@.len(),
            views(lines@) == ls,
            ls == split_on(raw@, '\n'),
            hosts_of_lines(ls.take(i as int)) == Ok::<Map<u32, Seq<char>>, nat>(
                names_view(tree),
            ),
        decreases lines.len() - i,
    {
        let ghost prev = tree;
        assert(ls.take(i + 1).drop_last() == ls.take(i as int));
        assert(ls.take(i + 1).last() == lines@[i as int]@);
        let toks = tokens(&lines[i]);
        let ghost t = tokens_of(lines@[i as int]@);
        if toks.len() >= 2 && toks[0].len() > 0 && toks[0][0] != '#' {
            assert(views(toks@)[0] == toks@[0]@);
            assert(views(toks@)[1] == toks@[1]@);
            match parse_ipv4_chars(&toks[0]) {
                Some(a) => {
                    let name = string_of(&toks[1]);
                    tree.insert(a, name);
                    assert(names_view(tree) =~= names_view(prev).insert(a, t[1]));
                },
                None => {
                    proof {
                        lemma_error_stays(ls, i + 1);
                    }
                    return Err(HostsError::InvalidAddress { line: i + 1 });
                },
            }
        } else {
            proof {
                if toks@.len() >= 2 {
                    assert(views(toks@)[0] == toks@[0]@);
                    lemma_token_nonempty(lines@[i as int]@, 0);
                }
            }
        }
        i = i + 1;
    }
    assert(ls.take(i as int) == ls);
    Ok(tree)
}

/// Once a prefix of the lines fails, the whole file fails the same way.
proof fn lemma_error_stays(lines: Seq<Seq<char>>, j: int)
    requires
        0 <= j <= lines.len(),
        hosts_of_lines(lines.take(j)) is Err,
    ensures
        hosts_of_lines(lines) == hosts_of_lines(lines.take(j)),
    decreases lines.len(),
{
    if j == lines.len() {
        assert(lines.take(j) == lines);
    } else {
        assert(lines.drop_last().take(j) == lines.take(j));
        lemma_error_stays(lines.drop_last(), j);
    }
}

/// A text that ends in a non-space character has a token.
proof fn lemma_tokens_exist(s: Seq<char>)
    requires
        s.len() > 0,
        !is_space(s.last()),
    ensures
        tokens_of(s).len() > 0,
    decreases s.len(),
{
    if s.len() >= 2 && !is_space(s[s.len() - 2]) {
        lemma_tokens_exist(s.drop_last());
    }
}

/// Every token holds at least one character.
proof fn lemma_token_nonempty(s: Seq<char>, k: int)
    requires
        0 <= k < tokens_of(s).len(),
    ensures
        tokens_of(s)[k].len() > 0,
    decreases s.len(),
{
    if s.len() > 0 {
        let p = tokens_of(s.drop_last());
        let c = s.last();
        if s.len() >= 2 && !is_space(s[s.len() - 2]) {
            lemma_tokens_exist(s.drop_last());
        }
        if k < p.len() {
            lemma_token_nonempty(s.drop_last(), k);
        }
        if is_space(c) {
        } else if s.len() >= 2 && !is_space(s[s.len() - 2]) {
            if k == p.len() - 1 {
                assert(tokens_of(s)[k] == p.last().push(c));
            }
        } else {
            if k == p.len() {
                assert(tokens_of(s)[k] == seq![c]);
            }
        }
    }
}

} // verus!
