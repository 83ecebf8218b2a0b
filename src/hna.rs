//! HNA announcements, the table of routes keyed by destination address, and
//! the join of that table with the hostname table.
use crate::addr::{ipv4_value, parse_ipv4, CidrAddr};
use crate::hosts::names_view;
use std::collections::BTreeMap;
use vstd::prelude::*;
use vstd::std_specs::btree::increasing_seq;
use vstd::std_specs::cmp::OrdSpec;
use vstd::std_specs::iter::IteratorSpec;

verus! {

/// One announcement as the daemon reports it: addresses as text, the
/// prefix length, and the remaining validity in milliseconds.
#[derive(Clone, Debug)]
pub struct HnaAnnouncement {
    pub gateway: String,
    pub destination: String,
    pub genmask: u8,
    pub validity_time: u32,
}

/// A route: the announcing gateway, the announced network, the validity in
/// milliseconds and the gateway's hostname (empty when unknown).
#[derive(Clone, Debug)]
pub struct HnaData {
    pub gateway: u32,
    pub hna: CidrAddr,
    pub ttl: u32,
    pub host_name: String,
}

/// What an `HnaData` holds, with the hostname as text.
pub ghost struct RouteView {
    pub gateway: u32,
    pub hna: CidrAddr,
    pub ttl: u32,
    pub host_name: Seq<char>,
}

impl View for HnaData {
    type V = RouteView;

    open spec fn view(&self) -> RouteView {
        RouteView { gateway: self.gateway, hna: self.hna, ttl: self.ttl, host_name: self.host_name@ }
    }
}

/// An announcement whose address text is not a dotted quad; `index` is its
/// position in the announcement list.
#[derive(Clone, Copy, Debug, PartialEq, Eq, Structural)]
pub enum HnaError {
    InvalidGateway { index: usize },
    InvalidDestination { index: usize },
}

/// The route that an announcement with the given addresses stands for.
pub open spec fn route_of(e: HnaAnnouncement, gateway: nat, destination: nat) -> RouteView {
    RouteView {
        gateway: gateway as u32,
        hna: CidrAddr { netaddr: destination as u32, netmask: e.genmask },
        ttl: e.validity_time,
        host_name: Seq::empty(),
    }
}

/// The routes of a list of announcements, keyed by destination address; a
/// later announcement for the same destination replaces an earlier one. The
/// first announcement with a bad address is an error.
pub open spec fn routes_of(es: Seq<HnaAnnouncement>) -> Result<Map<u32, RouteView>, HnaError>
    decreases es.len(),
{
    if es.len() == 0 {
        Ok(Map::empty())
    } else {
        match routes_of(es.drop_last()) {
            Err(e) => Err(e),
            Ok(m) => {
                let e = es.last();
                let index = (es.len() - 1) as usize;
                match (ipv4_value(e.gateway@), ipv4_value(e.destination@)) {
                    (None, _) => Err(HnaError::InvalidGateway { index }),
                    (Some(_), None) => Err(HnaError::InvalidDestination { index }),
                    (Some(g), Some(d)) => Ok(m.insert(d as u32, route_of(e, g, d))),
                }
            },
        }
    }
}

/// What a route table holds.
pub open spec fn routes_view(t: BTreeMap<u32, HnaData>) -> Map<u32, RouteView> {
    t@.map_values(|d: HnaData| d@)
}

/// Builds the route table of a list of announcements.
pub fn build_hna_tree(entries: &Vec<HnaAnnouncement>) -> (r: Result<
    BTreeMap<u32, HnaData>,
    HnaError,
>)
    ensures
        match (r, routes_of(entries@)) {
            (Ok(t), Ok(m)) => routes_view(t) == m && routes_wf(m),
            (Err(e), Err(f)) => e == f,
            _ => false,
        },
{
    let mut tree: BTreeMap<u32, HnaData> = BTreeMap::new();
    let mut i: usize = 0;
    assert(entries@.take(0) == Seq::<HnaAnnouncement>::empty());
    assert(routes_view(tree) =~= Map::<u32, RouteView>::empty());
    while i < entries.len()
        invariant
            i <= entries@.len(),
            routes_of(entries@.take(i as int)) == Ok::<Map<u32, RouteView>, HnaError>(
                routes_view(tree),
            ),
        decreases entries.len() - i,
    {
        let ghost prev = tree;
        assert(entries@.take(i + 1).drop_last() == entries@.take(i as int));
        let e = &entries[i];
        let g = match parse_ipv4(e.gateway.as_str()) {
            Some(a) => a,
            None => {
                proof {
                    lemma_error_stays(entries@, i + 1);
                }
                return Err(HnaError::InvalidGateway { index: i });
            },
        };
        let d = match parse_ipv4(e.destination.as_str()) {
            Some(a) => a,
            None => {
                proof {
                    lemma_error_stays(entries@, i + 1);
                }
                return Err(HnaError::InvalidDestination { index: i });
            },
        };
        let data = HnaData {
            gateway: g,
            hna: CidrAddr { netaddr: d, netmask: e.genmask },
            ttl: e.validity_time,
            host_name: String::new(),
        };
        tree.insert(d, data);
        assert(routes_view(tree) =~= routes_view(prev).insert(
            d,
            route_of(*e, g as nat, d as nat),
        ));
        i = i + 1;
    }
    assert(entries@.take(i as int) == entries@);
    proof {
        lemma_routes_wf(entries@);
    }
    Ok(tree)
}

/// Each route of a list of announcements is filed under its destination.
pub proof fn lemma_routes_wf(es: Seq<HnaAnnouncement>)
    requires
        routes_of(es) is Ok,
    ensures
        routes_wf(routes_of(es)->Ok_0),
        routes_of(es)->Ok_0.dom().finite(),
    decreases es.len(),
{
    if es.len() > 0 {
        lemma_routes_wf(es.drop_last());
    }
}

/// Once a prefix of the announcements fails, the whole list fails the same way.
proof fn lemma_error_stays(es: Seq<HnaAnnouncement>, j: int)
    requires
        0 <= j <= es.len(),
        routes_of(es.take(j)) is Err,
    ensures
        routes_of(es) == routes_of(es.take(j)),
    decreases es.len(),
{
    if j == es.len() {
        assert(es.take(j) == es);
    } else {
        assert(es.drop_last().take(j) == es.take(j));
        lemma_error_stays(es.drop_last(), j);
    }
}

/// Each route is filed under its own destination address.
pub open spec fn routes_wf(m: Map<u32, RouteView>) -> bool {
    forall|k: u32| #[trigger] m.contains_key(k) ==> m[k].hna.netaddr == k
}

/// A route with the hostname of its gateway filled in (empty when the
/// gateway has none).
pub open spec fn joined(r: RouteView, names: Map<u32, Seq<char>>) -> RouteView {
    RouteView {
        gateway: r.gateway,
        hna: r.hna,
        ttl: r.ttl,
        host_name: if names.contains_key(r.gateway) {
            names[r.gateway]
        } else {
            Seq::empty()
        },
    }
}

/// `rows` lists every route of `routes`, each once, joined with `names`, in
/// strictly ascending order of destination address.
pub open spec fn is_join(
    rows: Seq<RouteView>,
    routes: Map<u32, RouteView>,
    names: Map<u32, Seq<char>>,
) -> bool {
    &&& rows.len() == routes.dom().len()
    &&& forall|i: int, j: int|
        0 <= i < j < rows.len() ==> (#[trigger] rows[i]).hna.netaddr < (#[trigger] rows[j]).hna.netaddr
    &&& forall|i: int|
        0 <= i < rows.len() ==> routes.contains_key((#[trigger] rows[i]).hna.netaddr) && rows[i]
            == joined(routes[rows[i].hna.netaddr], names)
    &&& forall|k: u32|
        #[trigger] routes.contains_key(k) ==> exists|i: int|
            0 <= i < rows.len() && (#[trigger] rows[i]).hna.netaddr == k
}

/// What a list of routes holds.
pub open spec fn row_views(rows: Seq<HnaData>) -> Seq<RouteView> {
    rows.map_values(|d: HnaData| d@)
}

/// The routes of the table with their gateways' hostnames, in ascending order
/// of destination address.
pub fn join_hostnames(hna: &BTreeMap<u32, HnaData>, names: &BTreeMap<u32, String>) -> (rows: Vec<
    HnaData,
>)
    requires
        routes_wf(routes_view(*hna)),
    ensures
        is_join(row_views(rows@), routes_view(*hna), names_view(*names)),
{
    let mut rows: Vec<HnaData> = Vec::new();
    let ghost s = hna.iter().remaining();
    let ghost m = routes_view(*hna);
    let ghost nm = names_view(*names);
    for kv in it: hna.iter()
        invariant
            it.seq() == s,
            nm == names_view(*names),
            rows@.len() == it.index(),
            forall|j: int|
                0 <= j < it.index() ==> (#[trigger] rows@[j])@ == joined((*it.seq()[j].1)@, nm),
    {
        let (_, v) = kv;
        let host_name = match names.get(&v.gateway) {
            Some(n) => n.clone(),
            None => String::new(),
        };
        let row = HnaData { gateway: v.gateway, hna: v.hna, ttl: v.ttl, host_name };
        rows.push(row);
    }
    proof {
        let rv = row_views(rows@);
        let keys = s.map_values(|kv: (&u32, &HnaData)| *kv.0);
        assert(increasing_seq(keys));
        assert forall|i: int| 0 <= i < rv.len() implies m.contains_key(#[trigger] rv[i].hna.netaddr)
            && rv[i] == joined(m[rv[i].hna.netaddr], nm) && rv[i].hna.netaddr == keys[i] by {
            assert(hna@.contains_key(*s[i].0));
            assert(m.contains_key(*s[i].0));
        }
        assert forall|i: int, j: int| 0 <= i < j < rv.len() implies (#[trigger] rv[i]).hna.netaddr
            < (#[trigger] rv[j]).hna.netaddr by {
            assert(keys[i].cmp_spec(&keys[j]) is Less);
        }
        assert forall|k: u32| #[trigger] m.contains_key(k) implies exists|i: int|
            0 <= i < rv.len() && (#[trigger] rv[i]).hna.netaddr == k by {
            assert(hna@.contains_key(k));
            assert(s.contains((&k, &hna@[k])));
            let i = choose|i: int| 0 <= i < s.len() && s[i] == (&k, &hna@[k]);
            assert(rv[i].hna.netaddr == keys[i]);
        }
        assert(m.dom() =~= hna@.dom());
    }
    rows
}

} // verus!
