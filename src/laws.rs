//! Properties of the report that relate several inputs or calls.
use crate::addr::ipv4_value;
use crate::hna::{HnaError, is_join, joined, route_of, routes_of, HnaAnnouncement, RouteView};
use crate::hosts::{hosts_of_lines, is_mapping_line};
use crate::report::report_text;
use crate::text::{is_space, tokens_of};
use vstd::prelude::*;

verus! {

/// Both addresses of every announcement are dotted quads.
pub open spec fn all_valid(es: Seq<HnaAnnouncement>) -> bool {
    forall|i: int|
        0 <= i < es.len() ==> ipv4_value((#[trigger] es[i]).gateway@) is Some && ipv4_value(
            es[i].destination@,
        ) is Some
}

/// The destination address of an announcement whose destination is a dotted quad.
pub open spec fn dest_of(e: HnaAnnouncement) -> u32 {
    (ipv4_value(e.destination@)->0) as u32
}

/// The route of an announcement whose addresses are dotted quads.
pub open spec fn route_of_valid(e: HnaAnnouncement) -> RouteView {
    route_of(e, ipv4_value(e.gateway@)->0, ipv4_value(e.destination@)->0)
}

/// No two announcements name the same destination.
pub open spec fn distinct_dests(es: Seq<HnaAnnouncement>) -> bool {
    forall|i: int, j: int|
        0 <= i < es.len() && 0 <= j < es.len() && i != j ==> dest_of(#[trigger] es[i]) != dest_of(
            #[trigger] es[j],
        )
}

/// Announcements with valid, distinct destinations give one route each, filed
/// under its destination.
pub proof fn lemma_routes_distinct(es: Seq<HnaAnnouncement>)
    requires
        all_valid(es),
        distinct_dests(es),
    ensures
        routes_of(es) is Ok,
        routes_of(es)->Ok_0.dom().finite(),
        routes_of(es)->Ok_0.dom().len() == es.len(),
        forall|k: u32|
            #[trigger] routes_of(es)->Ok_0.contains_key(k) <==> exists|i: int|
                0 <= i < es.len() && dest_of(#[trigger] es[i]) == k,
        forall|i: int|
            0 <= i < es.len() ==> routes_of(es)->Ok_0[dest_of(#[trigger] es[i])] == route_of_valid(
                es[i],
            ),
    decreases es.len(),
{
    if es.len() > 0 {
        let p = es.drop_last();
        assert forall|i: int| 0 <= i < p.len() implies ipv4_value((#[trigger] p[i]).gateway@) is Some
            && ipv4_value(p[i].destination@) is Some by {
            assert(p[i] == es[i]);
        }
        assert forall|i: int, j: int|
            0 <= i < p.len() && 0 <= j < p.len() && i != j implies dest_of(#[trigger] p[i])
            != dest_of(#[trigger] p[j]) by {
            assert(p[i] == es[i] && p[j] == es[j]);
        }
        lemma_routes_distinct(p);
        let m = routes_of(p)->Ok_0;
        let e = es.last();
        let n = es.len() - 1;
        assert(es[n] == e);
        assert(!m.contains_key(dest_of(e))) by {
            if m.contains_key(dest_of(e)) {
                let i = choose|i: int| 0 <= i < p.len() && dest_of(#[trigger] p[i]) == dest_of(e);
                assert(p[i] == es[i]);
            }
        }
        assert(routes_of(es) == Ok::<Map<u32, RouteView>, HnaError>(
            m.insert(dest_of(e), route_of_valid(e)),
        ));
        let m2 = m.insert(dest_of(e), route_of_valid(e));
        assert forall|k: u32| #[trigger] m2.contains_key(k) <==> exists|i: int|
            0 <= i < es.len() && dest_of(#[trigger] es[i]) == k by {
            if m.contains_key(k) {
                let i = choose|i: int| 0 <= i < p.len() && dest_of(#[trigger] p[i]) == k;
                assert(es[i] == p[i]);
            }
            if exists|i: int| 0 <= i < es.len() && dest_of(#[trigger] es[i]) == k {
                let i = choose|i: int| 0 <= i < es.len() && dest_of(#[trigger] es[i]) == k;
                if i < n {
                    assert(es[i] == p[i]);
                }
            }
        }
        assert forall|i: int| 0 <= i < es.len() implies m2[dest_of(#[trigger] es[i])]
            == route_of_valid(es[i]) by {
            if i < n {
                assert(es[i] == p[i]);
            }
        }
    }
}

/// With valid, distinct destinations the report has one line per
/// announcement below the two header lines.
pub proof fn law_row_count(
    es: Seq<HnaAnnouncement>,
    names: Map<u32, Seq<char>>,
    rows: Seq<RouteView>,
)
    requires
        all_valid(es),
        distinct_dests(es),
        routes_of(es) is Ok ==> is_join(rows, routes_of(es)->Ok_0, names),
    ensures
        routes_of(es) is Ok,
        report_text(rows).len() == es.len() + 2,
{
    lemma_routes_distinct(es);
}

/// The route table of valid announcements with distinct destinations does not
/// depend on their order: lists that hold the same announcements give the
/// same table.
pub proof fn law_order_independent(es1: Seq<HnaAnnouncement>, es2: Seq<HnaAnnouncement>)
    requires
        all_valid(es1),
        distinct_dests(es1),
        all_valid(es2),
        distinct_dests(es2),
        forall|e: HnaAnnouncement| es1.contains(e) <==> es2.contains(e),
    ensures
        routes_of(es1) == routes_of(es2),
{
    lemma_routes_distinct(es1);
    lemma_routes_distinct(es2);
    let m1 = routes_of(es1)->Ok_0;
    let m2 = routes_of(es2)->Ok_0;
    assert forall|k: u32| m1.contains_key(k) implies m2.contains_key(k) && m1[k] == m2[k] by {
        let i = choose|i: int| 0 <= i < es1.len() && dest_of(#[trigger] es1[i]) == k;
        assert(es1.contains(es1[i]));
        let j = choose|j: int| 0 <= j < es2.len() && es2[j] == es1[i];
        assert(dest_of(es2[j]) == k);
    }
    assert forall|k: u32| m2.contains_key(k) implies m1.contains_key(k) by {
        let j = choose|j: int| 0 <= j < es2.len() && dest_of(#[trigger] es2[j]) == k;
        assert(es2.contains(es2[j]));
        let i = choose|i: int| 0 <= i < es1.len() && es1[i] == es2[j];
        assert(dest_of(es1[i]) == k);
    }
    assert(m1 =~= m2);
}

/// The rows of a join are determined by the routes and the names: their
/// order is that of the destination addresses, whatever order the routes
/// came in.
pub proof fn law_join_unique(
    r1: Seq<RouteView>,
    r2: Seq<RouteView>,
    m: Map<u32, RouteView>,
    names: Map<u32, Seq<char>>,
)
    requires
        m.dom().finite(),
        is_join(r1, m, names),
        is_join(r2, m, names),
    ensures
        r1 == r2,
    decreases r1.len(),
{
    if r1.len() == 0 {
        assert(r1 =~= r2);
    } else {
        let n = r1.len() - 1;
        let k1 = r1[n].hna.netaddr;
        let k2 = r2[n].hna.netaddr;
        let i2 = choose|i: int| 0 <= i < r2.len() && (#[trigger] r2[i]).hna.netaddr == k1;
        let i1 = choose|i: int| 0 <= i < r1.len() && (#[trigger] r1[i]).hna.netaddr == k2;
        assert(k1 <= k2) by {
            if i2 < n {
                assert(r2[i2].hna.netaddr < r2[n].hna.netaddr);
            }
        }
        assert(k2 <= k1) by {
            if i1 < n {
                assert(r1[i1].hna.netaddr < r1[n].hna.netaddr);
            }
        }
        let k = k1;
        let m2 = m.remove(k);
        let s1 = r1.drop_last();
        let s2 = r2.drop_last();
        assert(m.dom().len() == m2.dom().len() + 1) by {
            assert(m2.dom() == m.dom().remove(k));
        }
        assert(is_join(s1, m2, names)) by {
            assert forall|i: int| 0 <= i < s1.len() implies m2.contains_key(
                (#[trigger] s1[i]).hna.netaddr,
            ) && s1[i] == joined(m2[s1[i].hna.netaddr], names) by {
                assert(s1[i] == r1[i]);
                assert(r1[i].hna.netaddr < r1[n].hna.netaddr);
            }
            assert forall|kk: u32| #[trigger] m2.contains_key(kk) implies exists|i: int|
                0 <= i < s1.len() && (#[trigger] s1[i]).hna.netaddr == kk by {
                let i = choose|i: int| 0 <= i < r1.len() && (#[trigger] r1[i]).hna.netaddr == kk;
                assert(s1[i] == r1[i]);
            }
        }
        assert(is_join(s2, m2, names)) by {
            assert forall|i: int| 0 <= i < s2.len() implies m2.contains_key(
                (#[trigger] s2[i]).hna.netaddr,
            ) && s2[i] == joined(m2[s2[i].hna.netaddr], names) by {
                assert(s2[i] == r2[i]);
                assert(r2[i].hna.netaddr < r2[n].hna.netaddr);
            }
            assert forall|kk: u32| #[trigger] m2.contains_key(kk) implies exists|i: int|
                0 <= i < s2.len() && (#[trigger] s2[i]).hna.netaddr == kk by {
                let i = choose|i: int| 0 <= i < r2.len() && (#[trigger] r2[i]).hna.netaddr == kk;
                assert(s2[i] == r2[i]);
            }
        }
        law_join_unique(s1, s2, m2, names);
        assert(r1 =~= r2) by {
            assert forall|i: int| 0 <= i < r1.len() implies r1[i] == r2[i] by {
                if i < n {
                    assert(s1[i] == r1[i] && s2[i] == r2[i]);
                }
            }
        }
    }
}

/// Each row's hostname is its gateway's entry in the names, or empty.
pub proof fn law_hostname_column(
    rows: Seq<RouteView>,
    m: Map<u32, RouteView>,
    names: Map<u32, Seq<char>>,
    i: int,
)
    requires
        is_join(rows, m, names),
        0 <= i < rows.len(),
    ensures
        rows[i].host_name == (if names.contains_key(rows[i].gateway) {
            names[rows[i].gateway]
        } else {
            Seq::empty()
        }),
{
}

/// A line of whitespace alone has no tokens.
pub proof fn lemma_blank_no_tokens(line: Seq<char>)
    requires
        forall|i: int| 0 <= i < line.len() ==> is_space(#[trigger] line[i]),
    ensures
        tokens_of(line).len() == 0,
    decreases line.len(),
{
    if line.len() > 0 {
        lemma_blank_no_tokens(line.drop_last());
    }
}

/// Empty or blank lines, comment lines and lines of a single token add no
/// mapping and cause no error.
pub proof fn law_skipped_lines(lines: Seq<Seq<char>>, line: Seq<char>)
    requires
        (forall|i: int| 0 <= i < line.len() ==> is_space(#[trigger] line[i])) || tokens_of(
            line,
        ).len() < 2 || (tokens_of(line).len() > 0 && tokens_of(line)[0].len() > 0 && tokens_of(
            line,
        )[0][0] == '#'),
    ensures
        !is_mapping_line(line),
        hosts_of_lines(lines.push(line)) == hosts_of_lines(lines),
{
    if forall|i: int| 0 <= i < line.len() ==> is_space(#[trigger] line[i]) {
        lemma_blank_no_tokens(line);
    }
    assert(lines.push(line).drop_last() == lines);
}

/// Of two announcements for the same destination, the later one stays.
pub proof fn law_last_write_wins(es: Seq<HnaAnnouncement>, e1: HnaAnnouncement, e2: HnaAnnouncement)
    requires
        ipv4_value(e1.gateway@) is Some,
        ipv4_value(e1.destination@) is Some,
        ipv4_value(e2.gateway@) is Some,
        ipv4_value(e1.destination@) == ipv4_value(e2.destination@),
    ensures
        routes_of(es.push(e1).push(e2)) == routes_of(es.push(e2)),
{
    let a = es.push(e1);
    let b = a.push(e2);
    let c = es.push(e2);
    assert(b.drop_last() == a && b.last() == e2);
    assert(a.drop_last() == es && a.last() == e1);
    assert(c.drop_last() == es && c.last() == e2);
    match routes_of(es) {
        Err(err) => {
            assert(routes_of(a) == routes_of(es));
            assert(routes_of(b) == routes_of(es));
            assert(routes_of(c) == routes_of(es));
        },
        Ok(m) => {
            let d = dest_of(e2);
            let r1 = route_of_valid(e1);
            let r2 = route_of_valid(e2);
            assert(routes_of(a) == Ok::<Map<u32, RouteView>, HnaError>(m.insert(d, r1)));
            assert(routes_of(b) == Ok::<Map<u32, RouteView>, HnaError>(
                m.insert(d, r1).insert(d, r2),
            ));
            assert(routes_of(c) == Ok::<Map<u32, RouteView>, HnaError>(m.insert(d, r2)));
            assert(m.insert(d, r1).insert(d, r2) =~= m.insert(d, r2));
        },
    }
}

} // verus!
