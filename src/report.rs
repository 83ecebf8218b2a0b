//! The fixed-width route report: a two-line header, then one line per route.
use crate::addr::{cidr_text, ipv4_text, push_ipv4};
use crate::hna::{
    build_hna_tree, is_join, join_hostnames, row_views, routes_of, HnaAnnouncement, HnaData, HnaError,
    RouteView,
};
use crate::hosts::{hosts_of_text, parse_hosts, HostsError};
use crate::text::{dec, pad_right, push_decimal, push_padded, string_of};
use vstd::prelude::*;

verus! {

/// The label row of the report.
pub open spec fn header_text() -> Seq<char> {
    "Announced network      OLSR gateway      Validity Time      OLSR Hostname"@
}

/// The rule under the label row.
pub open spec fn rule_text() -> Seq<char> {
    "=================      ============      =============      ============="@
}

/// One report line: network (width 22), gateway (20), validity in whole
/// seconds (15) and hostname (25), each left-aligned, separated by a space.
pub open spec fn row_text(r: RouteView) -> Seq<char> {
    pad_right(cidr_text(r.hna), 22) + seq![' '] + pad_right(ipv4_text(r.gateway), 20) + seq![' ']
        + pad_right(dec((r.ttl / 1000) as nat), 15) + seq![' '] + pad_right(r.host_name, 25)
}

/// The lines of the report on the given rows.
pub open spec fn report_text(rows: Seq<RouteView>) -> Seq<Seq<char>> {
    seq![header_text(), rule_text()] + rows.map_values(|r: RouteView| row_text(r))
}

/// The texts of a list of strings.
pub open spec fn string_views(v: Seq<String>) -> Seq<Seq<char>> {
    v.map_values(|s: String| s@)
}

/// Whole seconds of a validity given in milliseconds, rounded down.
pub fn validity_seconds(ms: u32) -> (r: u32)
    ensures
        r == ms / 1000,
{
    ms / 1000
}

/// The report line of one route.
pub fn render_row(d: &HnaData) -> (r: String)
    ensures
        r@ == row_text(d@),
{
    let mut out: Vec<char> = Vec::new();
    let mut net: Vec<char> = Vec::new();
    d.hna.push_text(&mut net);
    push_padded(&mut out, &net, 22);
    out.push(' ');
    let mut gw: Vec<char> = Vec::new();
    push_ipv4(&mut gw, d.gateway);
    push_padded(&mut out, &gw, 20);
    out.push(' ');
    let mut secs: Vec<char> = Vec::new();
    push_decimal(&mut secs, validity_seconds(d.ttl));
    push_padded(&mut out, &secs, 15);
    out.push(' ');
    let mut host: Vec<char> = Vec::new();
    for c in it: d.host_name.as_str().chars()
        invariant
            host@ == it.seq().take(it.index() as int),
    {
        host.push(c);
    }
    push_padded(&mut out, &host, 25);
    assert(out@ =~= row_text(d@));
    string_of(&out)
}

/// The report on the given rows: the header, then one line per row, in order.
pub fn render_report(rows: &Vec<HnaData>) -> (lines: Vec<String>)
    ensures
        string_views(lines@) == report_text(row_views(rows@)),
{
    let mut lines: Vec<String> = Vec::new();
    lines.push(String::from_str("Announced network      OLSR gateway      Validity Time      OLSR Hostname"));
    lines.push(String::from_str("=================      ============      =============      ============="));
    let ghost rv = row_views(rows@);
    let mut i: usize = 0;
    while i < rows.len()
        invariant
            i <= rows@.len(),
            rv == row_views(rows@),
            string_views(lines@) == report_text(rv.take(i as int)),
        decreases rows.len() - i,
    {
        let line = render_row(&rows[i]);
        let ghost before = lines@;
        lines.push(line);
        assert(string_views(before).len() == before.len());
        let ghost pre = rv.take(i as int);
        let ghost cur = rv.take(i + 1);
        assert(cur =~= pre.push(rows@[i as int]@));
        assert forall|j: int| 0 <= j < report_text(cur).len() implies report_text(cur)[j]
            == string_views(lines@)[j] by {
            if j < report_text(cur).len() - 1 {
                assert(report_text(cur)[j] == report_text(pre)[j]);
            }
        }
        assert(string_views(lines@) =~= report_text(cur));
        i = i + 1;
    }
    assert(rv.take(i as int) == rv);
    lines
}

/// Why no report could be made.
#[derive(Clone, Copy, Debug, PartialEq, Eq, Structural)]
pub enum ReportError {
    Hna(HnaError),
    Hosts(HostsError),
}

/// The report on the announcements joined with the hostname file's text; the
/// announcements are checked first.
pub fn hna_report(entries: &Vec<HnaAnnouncement>, hosts: &str) -> (r: Result<Vec<String>, ReportError>)
    ensures
        match (routes_of(entries@), hosts_of_text(hosts@)) {
            (Err(e), _) => r == Err::<Vec<String>, ReportError>(ReportError::Hna(e)),
            (Ok(_), Err(n)) => r == Err::<Vec<String>, ReportError>(
                ReportError::Hosts(HostsError::InvalidAddress { line: n as usize }),
            ),
            (Ok(m), Ok(names)) => r matches Ok(lines) && exists|rows: Seq<RouteView>|
                is_join(rows, m, names) && string_views(lines@) == report_text(rows),
        },
{
    let tree = match build_hna_tree(entries) {
        Ok(t) => t,
        Err(e) => return Err(ReportError::Hna(e)),
    };
    let names = match parse_hosts(hosts) {
        Ok(n) => n,
        Err(e) => return Err(ReportError::Hosts(e)),
    };
    let rows = join_hostnames(&tree, &names);
    let lines = render_report(&rows);
    Ok(lines)
}

} // verus!
