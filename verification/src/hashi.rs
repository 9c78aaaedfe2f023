//! The islands-and-bridges puzzle graph: nodes (numbered cells), the bridges that may
//! join neighbouring nodes, and the counting rules that follow from a node's quota.
use vstd::prelude::*;
use vstd::string::*;
use crate::domain::{Domain, HashiDomain};

verus! {

/// Index of a node, a bridge or an island slot in its graph.
pub type ID = usize;

/// A numbered cell: its position, how many links it must end with, and the
/// bridges that leave it upwards, downwards, to the left and to the right.
#[derive(Clone, Copy, Debug)]
pub struct Node {
    pub coords: (u32, u32),
    pub quota: u32,
    pub id: ID,
    pub up: Option<ID>,
    pub dn: Option<ID>,
    pub lf: Option<ID>,
    pub rt: Option<ID>,
}

/// A possible bridge between two nodes of a row or a column, the link counts it may
/// still take, and the bridges it would cross.
#[derive(Debug)]
pub struct Bridge {
    pub domain: Domain,
    pub nodes: (ID, ID),
    pub crosses: Vec<ID>,
    pub id: ID,
}

/// The direction words that name a node's bridge slots.
pub open spec fn is_dir(dir: Seq<char>) -> bool {
    dir == seq!['u', 'p'] || dir == seq!['d', 'n'] || dir == seq!['l', 'f'] || dir == seq!['r', 't']
}

/// The (linked, closed) counts of a bridge domain.
pub open spec fn dom_counts(d: Domain) -> (int, int) {
    (d.linked() as int, d.closed() as int)
}

/// The open slots of a bridge with the given (linked, closed) counts.
pub open spec fn open_of(c: (int, int)) -> int {
    2 - c.0 - c.1
}

/// The contribution of one slot of a node to a sum over its bridges.
pub open spec fn slot_term(st: Seq<(int, int)>, s: Option<ID>, f: spec_fn((int, int)) -> int) -> int {
    match s {
        Some(b) => f(st[b as int]),
        None => 0,
    }
}

/// A sum over the bridges of a node, given the (linked, closed) counts of all bridges.
pub open spec fn node_sum(st: Seq<(int, int)>, n: Node, f: spec_fn((int, int)) -> int) -> int {
    slot_term(st, n.up, f) + slot_term(st, n.lf, f) + slot_term(st, n.rt, f) + slot_term(st, n.dn, f)
}

/// Total slots of the bridges of a node (two per bridge).
pub open spec fn node_total(st: Seq<(int, int)>, n: Node) -> int {
    node_sum(st, n, |c: (int, int)| 2int)
}

/// Linked slots over the bridges of a node.
pub open spec fn node_linked(st: Seq<(int, int)>, n: Node) -> int {
    node_sum(st, n, |c: (int, int)| c.0)
}

/// Closed slots over the bridges of a node.
pub open spec fn node_closed(st: Seq<(int, int)>, n: Node) -> int {
    node_sum(st, n, |c: (int, int)| c.1)
}

/// Open slots over the bridges of a node.
pub open spec fn node_open(st: Seq<(int, int)>, n: Node) -> int {
    node_sum(st, n, |c: (int, int)| open_of(c))
}

/// How many more links the node needs.
pub open spec fn rem_quota_of(st: Seq<(int, int)>, n: Node) -> int {
    n.quota - node_linked(st, n)
}

/// How many of the node's slots must stay unlinked.
pub open spec fn close_quota_of(st: Seq<(int, int)>, n: Node) -> int {
    node_total(st, n) - n.quota
}

/// How many more of the node's slots must be closed.
pub open spec fn rem_close_quota_of(st: Seq<(int, int)>, n: Node) -> int {
    close_quota_of(st, n) - node_closed(st, n)
}

/// `a - b`, or zero when `b` is not smaller.
pub open spec fn sat_sub(a: int, b: int) -> int {
    if a > b {
        a - b
    } else {
        0
    }
}

/// The node has at least one bridge.
pub open spec fn has_bridge(n: Node) -> bool {
    n.up is Some || n.lf is Some || n.rt is Some || n.dn is Some
}

/// The counts of a node allow its quota rules to run: it is not over its quota
/// and its quota does not exceed what its open and linked slots can hold.
pub open spec fn rules_ok(st: Seq<(int, int)>, n: Node) -> bool {
    !has_bridge(n) || (node_linked(st, n) <= n.quota && n.quota + node_closed(st, n) <= node_total(st, n))
}

/// One quota rule step on bridge `b` of node `n`: link as many slots as the
/// remaining close quota cannot absorb, then close as many as the remaining
/// quota cannot absorb.
pub open spec fn rule_on(st: Seq<(int, int)>, n: Node, b: ID) -> Seq<(int, int)> {
    let d1 = sat_sub(open_of(st[b as int]), rem_close_quota_of(st, n));
    let st1 = st.update(b as int, (st[b as int].0 + d1, st[b as int].1));
    let d2 = sat_sub(open_of(st1[b as int]), rem_quota_of(st1, n));
    st1.update(b as int, (st1[b as int].0, st1[b as int].1 + d2))
}

/// A quota rule step on a slot that may be empty.
pub open spec fn rule_on_slot(st: Seq<(int, int)>, n: Node, s: Option<ID>) -> Seq<(int, int)> {
    match s {
        Some(b) => rule_on(st, n, b),
        None => st,
    }
}

/// The quota rules of a node applied to its bridges in slot order.
pub open spec fn quota_rules(st: Seq<(int, int)>, n: Node) -> Seq<(int, int)> {
    rule_on_slot(rule_on_slot(rule_on_slot(rule_on_slot(st, n, n.up), n, n.lf), n, n.rt), n, n.dn)
}

/// The nodes queued when `n` slots of the bridge with ends `e` are linked or closed:
/// both ends, when anything changed.
pub open spec fn touched(e: (ID, ID), n: int) -> Seq<ID> {
    if n > 0 {
        seq![e.0, e.1]
    } else {
        Seq::empty()
    }
}

/// The nodes queued by one quota rule step on bridge `b` of node `n`, whose ends are `e`.
#[verifier::opaque]
pub open spec fn rule_pushes(st: Seq<(int, int)>, n: Node, b: ID, e: (ID, ID)) -> Seq<ID> {
    let d1 = sat_sub(open_of(st[b as int]), rem_close_quota_of(st, n));
    let st1 = st.update(b as int, (st[b as int].0 + d1, st[b as int].1));
    let d2 = sat_sub(open_of(st1[b as int]), rem_quota_of(st1, n));
    touched(e, d1) + touched(e, d2)
}

/// The nodes queued by a quota rule step on a slot that may be empty.
pub open spec fn slot_pushes(st: Seq<(int, int)>, n: Node, s: Option<ID>, ends: Seq<(ID, ID)>) -> Seq<ID> {
    match s {
        Some(b) => rule_pushes(st, n, b, ends[b as int]),
        None => Seq::empty(),
    }
}

/// The nodes queued by the quota rules of a node, in the order they are queued.
pub open spec fn quota_pushes(st: Seq<(int, int)>, n: Node, ends: Seq<(ID, ID)>) -> Seq<ID> {
    let s1 = rule_on_slot(st, n, n.up);
    let s2 = rule_on_slot(s1, n, n.lf);
    let s3 = rule_on_slot(s2, n, n.rt);
    slot_pushes(st, n, n.up, ends) + slot_pushes(s1, n, n.lf, ends) + slot_pushes(s2, n, n.rt, ends) + slot_pushes(
        s3,
        n,
        n.dn,
        ends,
    )
}

/// The slot is empty or refers to one of `nbridges` bridges.
pub open spec fn slot_in(s: Option<ID>, nbridges: nat) -> bool {
    s matches Some(b) ==> b < nbridges
}

/// Two slots do not hold the same bridge.
pub open spec fn slots_differ(a: Option<ID>, b: Option<ID>) -> bool {
    a is Some ==> a != b
}

/// The node's slots refer to existing bridges, each at most once.
pub open spec fn node_ok(n: Node, nbridges: nat) -> bool {
    &&& slot_in(n.up, nbridges)
    &&& slot_in(n.lf, nbridges)
    &&& slot_in(n.rt, nbridges)
    &&& slot_in(n.dn, nbridges)
    &&& slots_differ(n.up, n.lf)
    &&& slots_differ(n.up, n.rt)
    &&& slots_differ(n.up, n.dn)
    &&& slots_differ(n.lf, n.rt)
    &&& slots_differ(n.lf, n.dn)
    &&& slots_differ(n.rt, n.dn)
}

impl Node {
    /// A node with no bridges yet.
    pub fn new(coords: (u32, u32), quota: u32, node_id: usize) -> (n: Self)
        ensures
            n.coords == coords,
            n.quota == quota,
            n.id == node_id,
            n.up is None && n.dn is None && n.lf is None && n.rt is None,
    {
        Node { coords: coords, quota: quota, id: node_id, up: None, dn: None, lf: None, rt: None }
    }

    /// Puts `bridge` in the slot named by `dir` ("up", "dn", "lf" or "rt").
    pub fn set_bridge(&mut self, bridge: ID, dir: &str)
        requires
            is_dir(dir@),
        ensures
            final(self).coords == old(self).coords,
            final(self).quota == old(self).quota,
            final(self).id == old(self).id,
            final(self).up == (if dir@ == seq!['u', 'p'] { Some(bridge) } else { old(self).up }),
            final(self).dn == (if dir@ == seq!['d', 'n'] { Some(bridge) } else { old(self).dn }),
            final(self).lf == (if dir@ == seq!['l', 'f'] { Some(bridge) } else { old(self).lf }),
            final(self).rt == (if dir@ == seq!['r', 't'] { Some(bridge) } else { old(self).rt }),
    {
        if is_word(dir, 'u', 'p') {
            self.up = Some(bridge);
        } else if is_word(dir, 'd', 'n') {
            self.dn = Some(bridge);
        } else if is_word(dir, 'l', 'f') {
            self.lf = Some(bridge);
        } else {
            self.rt = Some(bridge);
        }
    }
}

/// Whether `s` is the two-character word `a` `b`.
fn is_word(s: &str, a: char, b: char) -> (r: bool)
    ensures
        r == (s@ == seq![a, b]),
{
    if s.unicode_len() != 2 {
        return false;
    }
    let r = s.get_char(0) == a && s.get_char(1) == b;
    proof {
        if r {
            assert(s@ =~= seq![a, b]);
        }
    }
    r
}

impl Bridge {
    /// A bridge between two nodes with every count still possible and no crossings yet.
    pub fn new(nodes: (ID, ID), id: ID) -> (b: Self)
        ensures
            b.domain.wf(),
            dom_counts(b.domain) == (0int, 0int),
            b.nodes == nodes,
            b.crosses@ == Seq::<ID>::empty(),
            b.id == id,
    {
        Bridge { nodes: nodes, domain: <Domain as HashiDomain>::new(), crosses: Vec::new(), id: id }
    }

    /// The number of slots: two.
    pub fn num_slots(&self) -> (r: u32)
        ensures
            r == 2,
    {
        self.domain.num_slots()
    }

    /// The number of open slots.
    pub fn num_open_slots(&self) -> (r: u32)
        requires
            self.domain.wf(),
        ensures
            r == open_of(dom_counts(self.domain)),
    {
        self.domain.num_open_slots()
    }

    /// The number of closed slots.
    pub fn num_closed_slots(&self) -> (r: u32)
        requires
            self.domain.wf(),
        ensures
            r == dom_counts(self.domain).1,
    {
        self.domain.num_closed_slots()
    }

    /// The number of linked slots.
    pub fn num_linked_slots(&self) -> (r: u32)
        requires
            self.domain.wf(),
        ensures
            r == dom_counts(self.domain).0,
    {
        self.domain.num_linked_slots()
    }

    /// Links `n` more slots of the bridge, which must have that many open.
    pub fn link_slots(&mut self, n: u32) -> (r: Result<(), String>)
        requires
            old(self).domain.wf(),
            n <= open_of(dom_counts(old(self).domain)),
        ensures
            r is Ok,
            final(self).domain.wf(),
            dom_counts(final(self).domain) == (dom_counts(old(self).domain).0 + n, dom_counts(old(self).domain).1),
            final(self).nodes == old(self).nodes,
            final(self).crosses@ == old(self).crosses@,
            final(self).id == old(self).id,
    {
        let _ = self.domain.link_slots(n);
        Ok(())
    }

    /// Closes `n` more slots of the bridge, which must have that many open.
    pub fn close_slots(&mut self, n: u32) -> (r: Result<(), String>)
        requires
            old(self).domain.wf(),
            n <= open_of(dom_counts(old(self).domain)),
        ensures
            r is Ok,
            final(self).domain.wf(),
            dom_counts(final(self).domain) == (dom_counts(old(self).domain).0, dom_counts(old(self).domain).1 + n),
            final(self).nodes == old(self).nodes,
            final(self).crosses@ == old(self).crosses@,
            final(self).id == old(self).id,
    {
        let _ = self.domain.close_slots(n);
        Ok(())
    }
}

} // verus!
