//! The puzzle graph as a whole: its nodes, bridges and islands, and the node
//! operations that read or change the bridges of the graph.
use vstd::prelude::*;
use crate::domain::{Domain, HashiDomain};
use crate::hashi::{
    ID, Node, Bridge, dom_counts, open_of, node_ok, slot_in, node_total, node_linked, node_closed,
    node_open, rem_quota_of, close_quota_of, rem_close_quota_of, rules_ok, rule_on, quota_rules,
    sat_sub, has_bridge, touched, rule_pushes, quota_pushes, rule_on_slot,
};

verus! {

/// A group of nodes joined by links, and the bridges leaving it.
#[derive(Debug)]
pub struct Island {
    pub nodes: Vec<ID>,
    pub ext_bridges: Vec<ID>,
    pub id: ID,
}

/// An island slot holds an island, or points to the slot of the island it was merged into.
#[derive(Debug)]
pub enum IslandSlot {
    Isl(Island),
    IslPtr(usize),
}

/// The puzzle: nodes, bridges, islands, and the nodes whose quota rules are still to run
/// (the last one runs first).
#[derive(Debug)]
pub struct HashiGraph {
    pub nodes: Vec<Node>,
    pub bridges: Vec<Bridge>,
    pub islands: Vec<IslandSlot>,
    pub node_queue: Vec<ID>,
}

/// A bridge of a graph with `nn` nodes and `nb` bridges, stored at index `i`.
pub open spec fn bridge_ok(b: Bridge, i: int, nn: nat, nb: nat) -> bool {
    &&& b.id == i
    &&& b.domain.wf()
    &&& b.nodes.0 < nn
    &&& b.nodes.1 < nn
    &&& forall|k: int| 0 <= k < b.crosses@.len() ==> #[trigger] b.crosses@[k] < nb
}

/// Two graphs with the same nodes and islands, and bridges that differ at most in
/// their domains.
pub open spec fn same_shape(g1: HashiGraph, g2: HashiGraph) -> bool {
    &&& g1.nodes@ == g2.nodes@
    &&& g1.islands@ == g2.islands@
    &&& g1.bridges@.len() == g2.bridges@.len()
    &&& forall|i: int| 0 <= i < g1.bridges@.len() ==> {
        &&& (#[trigger] g1.bridges@[i]).nodes == g2.bridges@[i].nodes
        &&& g1.bridges@[i].crosses@ == g2.bridges@[i].crosses@
        &&& g1.bridges@[i].id == g2.bridges@[i].id
    }
}

/// Every bridge has in `b` at least the linked and the closed slots it has in `a`.
pub open spec fn counts_grow(a: Seq<(int, int)>, b: Seq<(int, int)>) -> bool {
    &&& a.len() == b.len()
    &&& forall|i: int| #![trigger b[i]] 0 <= i < a.len() ==> a[i].0 <= b[i].0 && a[i].1 <= b[i].1
}

/// Growing counts grow along a chain.
pub proof fn lemma_grow_trans(a: Seq<(int, int)>, b: Seq<(int, int)>, c: Seq<(int, int)>)
    requires
        counts_grow(a, b),
        counts_grow(b, c),
    ensures
        counts_grow(a, c),
{
    assert forall|i: int| #![trigger c[i]] 0 <= i < a.len() implies a[i].0 <= c[i].0 && a[i].1 <= c[i].1 by {
        assert(a[i].0 <= b[i].0 && a[i].1 <= b[i].1);
        assert(b[i].0 <= c[i].0 && b[i].1 <= c[i].1);
    }
}

/// A quota rule step on a slot only raises counts.
pub proof fn lemma_rule_slot_grows(st: Seq<(int, int)>, n: Node, s: Option<ID>)
    requires
        slot_in(s, st.len()),
    ensures
        counts_grow(st, rule_on_slot(st, n, s)),
{
    if let Some(b) = s {
        let st2 = rule_on(st, n, b);
        assert forall|i: int| #![trigger st2[i]] 0 <= i < st.len() implies st[i].0 <= st2[i].0 && st[i].1 <= st2[i].1 by {}
    }
}

/// Having the same shape is transitive.
pub proof fn lemma_same_shape_trans(g1: HashiGraph, g2: HashiGraph, g3: HashiGraph)
    requires
        same_shape(g1, g2),
        same_shape(g2, g3),
    ensures
        same_shape(g1, g3),
{
    assert forall|i: int| 0 <= i < g1.bridges@.len() implies {
        &&& (#[trigger] g1.bridges@[i]).nodes == g3.bridges@[i].nodes
        &&& g1.bridges@[i].crosses@ == g3.bridges@[i].crosses@
        &&& g1.bridges@[i].id == g3.bridges@[i].id
    } by {
        assert(g2.bridges@[i].nodes == g3.bridges@[i].nodes);
    }
}

/// Each slot of the node is empty or refers to one of `nbridges` bridges.
pub open spec fn slots_in(n: Node, nbridges: nat) -> bool {
    &&& slot_in(n.up, nbridges)
    &&& slot_in(n.lf, nbridges)
    &&& slot_in(n.rt, nbridges)
    &&& slot_in(n.dn, nbridges)
}

/// The ends of every bridge.
pub open spec fn bridge_ends(g: HashiGraph) -> Seq<(ID, ID)> {
    Seq::new(g.bridges@.len(), |b: int| g.bridges@[b].nodes)
}

impl HashiGraph {
    /// The (linked, closed) counts of every bridge.
    pub open spec fn counts(&self) -> Seq<(int, int)> {
        Seq::new(self.bridges@.len(), |i: int| dom_counts(self.bridges@[i].domain))
    }

    /// Nodes and bridges refer to each other by valid indices, each stored at its own
    /// index; every bridge domain is valid; the queue holds node indices.
    pub open spec fn wf(&self) -> bool {
        &&& forall|i: int|
            0 <= i < self.nodes@.len() ==> (#[trigger] self.nodes@[i]).id == i && node_ok(
                self.nodes@[i],
                self.bridges@.len(),
            )
        &&& forall|i: int|
            0 <= i < self.bridges@.len() ==> bridge_ok(
                #[trigger] self.bridges@[i],
                i,
                self.nodes@.len(),
                self.bridges@.len(),
            )
        &&& forall|k: int| 0 <= k < self.node_queue@.len() ==> #[trigger] self.node_queue@[k] < self.nodes@.len()
    }

    /// The bridge with index `id`.
    pub fn get_bridge_from_id(&self, id: ID) -> (b: &Bridge)
        requires
            id < self.bridges@.len(),
        ensures
            *b == self.bridges@[id as int],
    {
        &self.bridges[id]
    }

    /// The node with index `id`.
    pub fn get_node_from_id(&self, id: ID) -> (n: &Node)
        requires
            id < self.nodes@.len(),
        ensures
            *n == self.nodes@[id as int],
    {
        &self.nodes[id]
    }

    /// Links `n` slots of bridge `b`, which must have that many open; when any are
    /// linked, both ends of the bridge are queued.
    pub(crate) fn link_bridge(&mut self, b: ID, n: u32)
        requires
            old(self).wf(),
            b < old(self).bridges@.len(),
            n <= open_of(old(self).counts()[b as int]),
        ensures
            final(self).wf(),
            same_shape(*old(self), *final(self)),
            final(self).counts() == old(self).counts().update(
                b as int,
                (old(self).counts()[b as int].0 + n, old(self).counts()[b as int].1),
            ),
            final(self).node_queue@ == old(self).node_queue@ + touched(old(self).bridges@[b as int].nodes, n as int),
    {
        let ghost old_g = *self;
        let _ = self.bridges[b].link_slots(n);
        if n > 0 {
            let e = self.bridges[b].nodes;
            self.node_queue.push(e.0);
            self.node_queue.push(e.1);
        }
        proof {
            assert(self.node_queue@ =~= old_g.node_queue@ + touched(old_g.bridges@[b as int].nodes, n as int));
            assert(bridge_ok(old_g.bridges@[b as int], b as int, old_g.nodes@.len(), old_g.bridges@.len()));
            assert forall|k: int| 0 <= k < self.node_queue@.len() implies #[trigger] self.node_queue@[k] < self.nodes@.len() by {
                if k < old_g.node_queue@.len() {
                    assert(old_g.node_queue@[k] < old_g.nodes@.len());
                }
            }
            assert(self.counts() =~= old_g.counts().update(
                b as int,
                (old_g.counts()[b as int].0 + n, old_g.counts()[b as int].1),
            ));
            assert forall|i: int| 0 <= i < self.bridges@.len() implies bridge_ok(
                #[trigger] self.bridges@[i],
                i,
                self.nodes@.len(),
                self.bridges@.len(),
            ) by {
                assert(bridge_ok(old_g.bridges@[i], i, old_g.nodes@.len(), old_g.bridges@.len()));
            }
        }
    }

    /// Closes `n` slots of bridge `b`, which must have that many open; when any are
    /// closed, both ends of the bridge are queued.
    pub(crate) fn close_bridge(&mut self, b: ID, n: u32)
        requires
            old(self).wf(),
            b < old(self).bridges@.len(),
            n <= open_of(old(self).counts()[b as int]),
        ensures
            final(self).wf(),
            same_shape(*old(self), *final(self)),
            final(self).counts() == old(self).counts().update(
                b as int,
                (old(self).counts()[b as int].0, old(self).counts()[b as int].1 + n),
            ),
            final(self).node_queue@ == old(self).node_queue@ + touched(old(self).bridges@[b as int].nodes, n as int),
    {
        let ghost old_g = *self;
        let _ = self.bridges[b].close_slots(n);
        if n > 0 {
            let e = self.bridges[b].nodes;
            self.node_queue.push(e.0);
            self.node_queue.push(e.1);
        }
        proof {
            assert(self.node_queue@ =~= old_g.node_queue@ + touched(old_g.bridges@[b as int].nodes, n as int));
            assert(bridge_ok(old_g.bridges@[b as int], b as int, old_g.nodes@.len(), old_g.bridges@.len()));
            assert forall|k: int| 0 <= k < self.node_queue@.len() implies #[trigger] self.node_queue@[k] < self.nodes@.len() by {
                if k < old_g.node_queue@.len() {
                    assert(old_g.node_queue@[k] < old_g.nodes@.len());
                }
            }
            assert(self.counts() =~= old_g.counts().update(
                b as int,
                (old_g.counts()[b as int].0, old_g.counts()[b as int].1 + n),
            ));
            assert forall|i: int| 0 <= i < self.bridges@.len() implies bridge_ok(
                #[trigger] self.bridges@[i],
                i,
                self.nodes@.len(),
                self.bridges@.len(),
            ) by {
                assert(bridge_ok(old_g.bridges@[i], i, old_g.nodes@.len(), old_g.bridges@.len()));
            }
        }
    }
}

/// The four counts (open, linked, closed, slots) of one slot of a node.
fn slot_counts(graph: &HashiGraph, s: Option<ID>) -> (r: (u32, u32, u32, u32))
    requires
        graph.wf(),
        slot_in(s, graph.bridges@.len()),
    ensures
        s matches Some(b) ==> r == (
            open_of(graph.counts()[b as int]) as u32,
            graph.counts()[b as int].0 as u32,
            graph.counts()[b as int].1 as u32,
            2u32,
        ),
        s is None ==> r == (0u32, 0u32, 0u32, 0u32),
        r.0 <= 2 && r.1 <= 2 && r.2 <= 2 && r.3 <= 2,
{
    match s {
        Some(b) => {
            let br = graph.get_bridge_from_id(b);
            proof {
                assert(bridge_ok(graph.bridges@[b as int], b as int, graph.nodes@.len(), graph.bridges@.len()));
                br.domain.lemma_counts();
            }
            (br.num_open_slots(), br.num_linked_slots(), br.num_closed_slots(), br.num_slots())
        },
        None => (0, 0, 0, 0),
    }
}

/// Every bridge's counts lie within its two slots.
pub open spec fn counts_ok(st: Seq<(int, int)>) -> bool {
    forall|i: int| 0 <= i < st.len() ==> 0 <= (#[trigger] st[i]).0 && 0 <= st[i].1 && st[i].0 + st[i].1 <= 2
}

/// Changing the counts of one of a node's bridges changes the node's sums by the
/// difference, and nothing else.
proof fn lemma_sums_update(st: Seq<(int, int)>, n: Node, b: ID, v: (int, int))
    requires
        node_ok(n, st.len()),
        n.up == Some(b) || n.lf == Some(b) || n.rt == Some(b) || n.dn == Some(b),
    ensures
        node_linked(st.update(b as int, v), n) == node_linked(st, n) - st[b as int].0 + v.0,
        node_closed(st.update(b as int, v), n) == node_closed(st, n) - st[b as int].1 + v.1,
        node_total(st.update(b as int, v), n) == node_total(st, n),
        node_open(st.update(b as int, v), n) == node_open(st, n) - open_of(st[b as int]) + open_of(v),
{
    let st2 = st.update(b as int, v);
    assert(st2[b as int] == v);
}

/// The open slots of one of a node's bridges are among the node's open slots.
proof fn lemma_open_part(st: Seq<(int, int)>, n: Node, b: ID)
    requires
        node_ok(n, st.len()),
        counts_ok(st),
        n.up == Some(b) || n.lf == Some(b) || n.rt == Some(b) || n.dn == Some(b),
    ensures
        open_of(st[b as int]) <= node_open(st, n),
        node_open(st, n) == node_total(st, n) - node_linked(st, n) - node_closed(st, n),
{
    if let Some(x) = n.up {
        assert(0 <= open_of(st[x as int]));
    }
    if let Some(x) = n.lf {
        assert(0 <= open_of(st[x as int]));
    }
    if let Some(x) = n.rt {
        assert(0 <= open_of(st[x as int]));
    }
    if let Some(x) = n.dn {
        assert(0 <= open_of(st[x as int]));
    }
}

/// Before the link half of a rule step: the remaining close quota is not negative
/// and the bridge's open slots are among the node's.
proof fn lemma_rule_first_half(st0: Seq<(int, int)>, n: Node, b: ID)
    requires
        node_ok(n, st0.len()),
        counts_ok(st0),
        n.up == Some(b) || n.lf == Some(b) || n.rt == Some(b) || n.dn == Some(b),
        rules_ok(st0, n),
    ensures
        n.quota + node_closed(st0, n) <= node_total(st0, n),
        open_of(st0[b as int]) <= node_open(st0, n),
        sat_sub(open_of(st0[b as int]), rem_close_quota_of(st0, n)) <= open_of(st0[b as int]),
{
    lemma_open_part(st0, n, b);
}

/// After the link half of a rule step the node is not over its quota.
proof fn lemma_rule_second_half(st0: Seq<(int, int)>, st1: Seq<(int, int)>, n: Node, b: ID, d1: int)
    requires
        node_ok(n, st0.len()),
        counts_ok(st0),
        counts_ok(st1),
        n.up == Some(b) || n.lf == Some(b) || n.rt == Some(b) || n.dn == Some(b),
        rules_ok(st0, n),
        d1 == sat_sub(open_of(st0[b as int]), rem_close_quota_of(st0, n)),
        st1 == st0.update(b as int, (st0[b as int].0 + d1, st0[b as int].1)),
    ensures
        node_linked(st1, n) <= n.quota,
        n.quota + node_closed(st1, n) <= node_total(st1, n),
        open_of(st1[b as int]) <= node_open(st1, n),
        sat_sub(open_of(st1[b as int]), rem_quota_of(st1, n)) <= open_of(st1[b as int]),
{
    lemma_open_part(st0, n, b);
    lemma_sums_update(st0, n, b, (st0[b as int].0 + d1, st0[b as int].1));
    lemma_open_part(st1, n, b);
}

/// A whole rule step gives the counts `rule_on` states and keeps the rules runnable.
proof fn lemma_rule_end(
    st0: Seq<(int, int)>,
    st1: Seq<(int, int)>,
    st2: Seq<(int, int)>,
    n: Node,
    b: ID,
    d1: int,
    d2: int,
)
    requires
        node_ok(n, st0.len()),
        counts_ok(st0),
        counts_ok(st1),
        n.up == Some(b) || n.lf == Some(b) || n.rt == Some(b) || n.dn == Some(b),
        rules_ok(st0, n),
        d1 == sat_sub(open_of(st0[b as int]), rem_close_quota_of(st0, n)),
        st1 == st0.update(b as int, (st0[b as int].0 + d1, st0[b as int].1)),
        d2 == sat_sub(open_of(st1[b as int]), rem_quota_of(st1, n)),
        st2 == st1.update(b as int, (st1[b as int].0, st1[b as int].1 + d2)),
    ensures
        st2 == rule_on(st0, n, b),
        rules_ok(st2, n),
{
    lemma_sums_update(st0, n, b, (st0[b as int].0 + d1, st0[b as int].1));
    lemma_open_part(st1, n, b);
    lemma_sums_update(st1, n, b, (st1[b as int].0, st1[b as int].1 + d2));
}

/// Two different bridges of a node, and the closed slots of one, are within the node's
/// sums.
proof fn lemma_two_parts(st: Seq<(int, int)>, n: Node, b: ID, c: ID)
    requires
        node_ok(n, st.len()),
        counts_ok(st),
        n.up == Some(b) || n.lf == Some(b) || n.rt == Some(b) || n.dn == Some(b),
        n.up == Some(c) || n.lf == Some(c) || n.rt == Some(c) || n.dn == Some(c),
    ensures
        b != c ==> open_of(st[b as int]) + open_of(st[c as int]) <= node_open(st, n),
        st[b as int].1 <= node_closed(st, n),
{
    if let Some(x) = n.up {
        assert(0 <= open_of(st[x as int]) && 0 <= st[x as int].1);
    }
    if let Some(x) = n.lf {
        assert(0 <= open_of(st[x as int]) && 0 <= st[x as int].1);
    }
    if let Some(x) = n.rt {
        assert(0 <= open_of(st[x as int]) && 0 <= st[x as int].1);
    }
    if let Some(x) = n.dn {
        assert(0 <= open_of(st[x as int]) && 0 <= st[x as int].1);
    }
}

/// The bridge in slot `s` of node `n` has no more open slots than either the node's
/// remaining close quota or its remaining quota can take.
pub open spec fn slot_settled(st: Seq<(int, int)>, n: Node, s: Option<ID>) -> bool {
    s matches Some(b) ==> open_of(st[b as int]) + node_closed(st, n) + n.quota <= node_total(st, n) && open_of(
        st[b as int],
    ) + node_linked(st, n) <= n.quota
}

/// The slot is empty or one of the node's four.
pub open spec fn is_slot_of(n: Node, s: Option<ID>) -> bool {
    s is None || s == n.up || s == n.lf || s == n.rt || s == n.dn
}

/// A quota rule step on one bridge settles it and keeps the node's other settled
/// bridges settled.
proof fn lemma_rule_settles(st0: Seq<(int, int)>, n: Node, b: ID, t: Option<ID>)
    requires
        node_ok(n, st0.len()),
        counts_ok(st0),
        rules_ok(st0, n),
        n.up == Some(b) || n.lf == Some(b) || n.rt == Some(b) || n.dn == Some(b),
        is_slot_of(n, t),
        slot_settled(st0, n, t),
    ensures
        counts_ok(rule_on(st0, n, b)),
        rules_ok(rule_on(st0, n, b), n),
        slot_settled(rule_on(st0, n, b), n, Some(b)),
        slot_settled(rule_on(st0, n, b), n, t),
{
    let d1 = sat_sub(open_of(st0[b as int]), rem_close_quota_of(st0, n));
    let st1 = st0.update(b as int, (st0[b as int].0 + d1, st0[b as int].1));
    let d2 = sat_sub(open_of(st1[b as int]), rem_quota_of(st1, n));
    let st2 = st1.update(b as int, (st1[b as int].0, st1[b as int].1 + d2));
    lemma_rule_first_half(st0, n, b);
    lemma_sums_update(st0, n, b, (st0[b as int].0 + d1, st0[b as int].1));
    assert(counts_ok(st1)) by {
        assert forall|i: int| 0 <= i < st1.len() implies 0 <= (#[trigger] st1[i]).0 && 0 <= st1[i].1 && st1[i].0
            + st1[i].1 <= 2 by {
            assert(0 <= st0[i].0 && 0 <= st0[i].1 && st0[i].0 + st0[i].1 <= 2);
        }
    }
    lemma_rule_second_half(st0, st1, n, b, d1);
    lemma_sums_update(st1, n, b, (st1[b as int].0, st1[b as int].1 + d2));
    assert(counts_ok(st2)) by {
        assert forall|i: int| 0 <= i < st2.len() implies 0 <= (#[trigger] st2[i]).0 && 0 <= st2[i].1 && st2[i].0
            + st2[i].1 <= 2 by {
            assert(0 <= st1[i].0 && 0 <= st1[i].1 && st1[i].0 + st1[i].1 <= 2);
        }
    }
    lemma_rule_end(st0, st1, st2, n, b, d1, d2);
    lemma_open_part(st2, n, b);
    if let Some(c) = t {
        if c != b {
            assert(st2[c as int] == st0[c as int]);
            lemma_two_parts(st2, n, b, c);
        }
    }
}

/// A quota rule step on one slot settles it and keeps up to three other settled slots
/// settled.
proof fn lemma_slot_settles(
    st: Seq<(int, int)>,
    n: Node,
    s: Option<ID>,
    t1: Option<ID>,
    t2: Option<ID>,
    t3: Option<ID>,
)
    requires
        node_ok(n, st.len()),
        counts_ok(st),
        rules_ok(st, n),
        is_slot_of(n, s),
        is_slot_of(n, t1) && slot_settled(st, n, t1),
        is_slot_of(n, t2) && slot_settled(st, n, t2),
        is_slot_of(n, t3) && slot_settled(st, n, t3),
    ensures
        counts_ok(rule_on_slot(st, n, s)),
        rules_ok(rule_on_slot(st, n, s), n),
        rule_on_slot(st, n, s).len() == st.len(),
        slot_settled(rule_on_slot(st, n, s), n, s),
        slot_settled(rule_on_slot(st, n, s), n, t1),
        slot_settled(rule_on_slot(st, n, s), n, t2),
        slot_settled(rule_on_slot(st, n, s), n, t3),
{
    if let Some(b) = s {
        lemma_rule_settles(st, n, b, t1);
        lemma_rule_settles(st, n, b, t2);
        lemma_rule_settles(st, n, b, t3);
    }
}

/// After a node's quota rules, no bridge in any of its four slots has more open slots
/// than the node's remaining close quota or its remaining quota can take.
pub proof fn lemma_quota_rules_settle(st: Seq<(int, int)>, n: Node)
    requires
        node_ok(n, st.len()),
        counts_ok(st),
        rules_ok(st, n),
    ensures
        counts_ok(quota_rules(st, n)),
        quota_rules(st, n).len() == st.len(),
        slot_settled(quota_rules(st, n), n, n.up),
        slot_settled(quota_rules(st, n), n, n.lf),
        slot_settled(quota_rules(st, n), n, n.rt),
        slot_settled(quota_rules(st, n), n, n.dn),
{
    let s1 = rule_on_slot(st, n, n.up);
    lemma_slot_settles(st, n, n.up, None, None, None);
    let s2 = rule_on_slot(s1, n, n.lf);
    lemma_slot_settles(s1, n, n.lf, n.up, None, None);
    let s3 = rule_on_slot(s2, n, n.rt);
    lemma_slot_settles(s2, n, n.rt, n.up, n.lf, None);
    lemma_slot_settles(s3, n, n.dn, n.up, n.lf, n.rt);
}

/// A node whose quota is all of its slots ends its quota rules with every bridge in
/// its slots fully linked.
pub proof fn lemma_quota_rules_fill(st: Seq<(int, int)>, n: Node, b: ID)
    requires
        node_ok(n, st.len()),
        counts_ok(st),
        rules_ok(st, n),
        n.quota == node_total(st, n),
        n.up == Some(b) || n.lf == Some(b) || n.rt == Some(b) || n.dn == Some(b),
    ensures
        quota_rules(st, n)[b as int] == (2int, 0int),
{
    lemma_quota_rules_settle(st, n);
    let q = quota_rules(st, n);
    lemma_open_part(q, n, b);
    lemma_two_parts(q, n, b, b);
    assert(slot_settled(q, n, Some(b)));
    assert(node_total(q, n) == node_total(st, n));
}

impl HashiGraph {
    /// The counts of a well-formed graph lie within the bridges' slots.
    pub proof fn lemma_counts_ok(&self)
        requires
            self.wf(),
        ensures
            counts_ok(self.counts()),
    {
        assert forall|i: int| 0 <= i < self.counts().len() implies 0 <= (#[trigger] self.counts()[i]).0
            && 0 <= self.counts()[i].1 && self.counts()[i].0 + self.counts()[i].1 <= 2 by {
            assert(bridge_ok(self.bridges@[i], i, self.nodes@.len(), self.bridges@.len()));
            self.bridges@[i].domain.lemma_counts();
        }
    }
}

impl Node {
    /// The open slots over the node's bridges.
    pub fn num_open_slots(&self, graph: &HashiGraph) -> (r: u32)
        requires
            graph.wf(),
            slots_in(*self, graph.bridges@.len()),
        ensures
            r == node_open(graph.counts(), *self),
    {
        let a = slot_counts(graph, self.up);
        let b = slot_counts(graph, self.lf);
        let c = slot_counts(graph, self.rt);
        let d = slot_counts(graph, self.dn);
        a.0 + b.0 + c.0 + d.0
    }

    /// The linked slots over the node's bridges.
    pub fn num_linked_slots(&self, graph: &HashiGraph) -> (r: u32)
        requires
            graph.wf(),
            slots_in(*self, graph.bridges@.len()),
        ensures
            r == node_linked(graph.counts(), *self),
    {
        let a = slot_counts(graph, self.up);
        let b = slot_counts(graph, self.lf);
        let c = slot_counts(graph, self.rt);
        let d = slot_counts(graph, self.dn);
        a.1 + b.1 + c.1 + d.1
    }

    /// The closed slots over the node's bridges.
    pub fn num_closed_slots(&self, graph: &HashiGraph) -> (r: u32)
        requires
            graph.wf(),
            slots_in(*self, graph.bridges@.len()),
        ensures
            r == node_closed(graph.counts(), *self),
    {
        let a = slot_counts(graph, self.up);
        let b = slot_counts(graph, self.lf);
        let c = slot_counts(graph, self.rt);
        let d = slot_counts(graph, self.dn);
        a.2 + b.2 + c.2 + d.2
    }

    /// The total slots of the node's bridges.
    pub(crate) fn num_total_slots(&self, graph: &HashiGraph) -> (r: u32)
        requires
            graph.wf(),
            slots_in(*self, graph.bridges@.len()),
        ensures
            r == node_total(graph.counts(), *self),
    {
        let a = slot_counts(graph, self.up);
        let b = slot_counts(graph, self.lf);
        let c = slot_counts(graph, self.rt);
        let d = slot_counts(graph, self.dn);
        a.3 + b.3 + c.3 + d.3
    }

    /// How many more links the node needs; it must not be over its quota.
    pub fn rem_quota(&self, graph: &HashiGraph) -> (r: u32)
        requires
            graph.wf(),
            slots_in(*self, graph.bridges@.len()),
            node_linked(graph.counts(), *self) <= self.quota,
        ensures
            r == rem_quota_of(graph.counts(), *self),
    {
        self.quota - self.num_linked_slots(graph)
    }

    /// How many of the node's slots must end unlinked; the quota must fit its slots.
    pub fn close_quota(&self, graph: &HashiGraph) -> (r: u32)
        requires
            graph.wf(),
            slots_in(*self, graph.bridges@.len()),
            self.quota <= node_total(graph.counts(), *self),
        ensures
            r == close_quota_of(graph.counts(), *self),
    {
        self.num_total_slots(graph) - self.quota
    }

    /// How many more of the node's slots must be closed; it must not have closed
    /// more than its close quota.
    pub fn rem_close_quota(&self, graph: &HashiGraph) -> (r: u32)
        requires
            graph.wf(),
            slots_in(*self, graph.bridges@.len()),
            self.quota + node_closed(graph.counts(), *self) <= node_total(graph.counts(), *self),
        ensures
            r == rem_close_quota_of(graph.counts(), *self),
    {
        self.close_quota(graph) - self.num_closed_slots(graph)
    }

    /// One quota rule step on bridge `b`, one of the node's bridges.
    fn apply_rule(&self, graph: &mut HashiGraph, b: ID)
        requires
            old(graph).wf(),
            node_ok(*self, old(graph).bridges@.len()),
            self.up == Some(b) || self.lf == Some(b) || self.rt == Some(b) || self.dn == Some(b),
            rules_ok(old(graph).counts(), *self),
        ensures
            final(graph).wf(),
            same_shape(*old(graph), *final(graph)),
            final(graph).counts() == rule_on(old(graph).counts(), *self, b),
            final(graph).node_queue@ == old(graph).node_queue@ + rule_pushes(
                old(graph).counts(),
                *self,
                b,
                old(graph).bridges@[b as int].nodes,
            ),
            rules_ok(final(graph).counts(), *self),
    {
        let ghost st0 = graph.counts();
        proof {
            graph.lemma_counts_ok();
            lemma_rule_first_half(st0, *self, b);
        }
        let rcq = self.rem_close_quota(graph);
        let open = graph.get_bridge_from_id(b).num_open_slots();
        let d1 = open.saturating_sub(rcq);
        graph.link_bridge(b, d1);
        let ghost st1 = graph.counts();
        proof {
            assert(st1 == st0.update(b as int, (st0[b as int].0 + d1, st0[b as int].1)));
            graph.lemma_counts_ok();
            lemma_rule_second_half(st0, st1, *self, b, d1 as int);
        }
        let rq = self.rem_quota(graph);
        let open = graph.get_bridge_from_id(b).num_open_slots();
        let d2 = open.saturating_sub(rq);
        graph.close_bridge(b, d2);
        proof {
            let st2 = graph.counts();
            lemma_rule_end(st0, st1, st2, *self, b, d1 as int, d2 as int);
            reveal(rule_pushes);
            assert(graph.node_queue@ =~= old(graph).node_queue@ + rule_pushes(
                st0,
                *self,
                b,
                old(graph).bridges@[b as int].nodes,
            ));
        }
    }

    /// Applies the node's quota rules to each of its bridges in slot order (up, left,
    /// right, down): first link the slots its remaining close quota cannot leave
    /// unlinked, then close the slots its remaining quota cannot fill. Each bridge
    /// that changes queues both its ends.
    #[verifier::spinoff_prover]
    #[verifier::rlimit(80)]
    pub fn apply_quota_rules(&self, graph: &mut HashiGraph)
        requires
            old(graph).wf(),
            node_ok(*self, old(graph).bridges@.len()),
            rules_ok(old(graph).counts(), *self),
        ensures
            final(graph).wf(),
            same_shape(*old(graph), *final(graph)),
            final(graph).counts() == quota_rules(old(graph).counts(), *self),
            counts_grow(old(graph).counts(), final(graph).counts()),
            rules_ok(final(graph).counts(), *self),
            final(graph).node_queue@ == old(graph).node_queue@ + quota_pushes(
                old(graph).counts(),
                *self,
                bridge_ends(*old(graph)),
            ),
    {
        let ghost g0 = *graph;
        let ghost ends = bridge_ends(g0);
        let ghost st = g0.counts();
        self.apply_slot(graph, self.up);
        let ghost g1 = *graph;
        self.apply_slot(graph, self.lf);
        let ghost g2 = *graph;
        self.apply_slot(graph, self.rt);
        let ghost g3 = *graph;
        self.apply_slot(graph, self.dn);
        proof {
            lemma_same_shape_trans(g0, g1, g2);
            lemma_same_shape_trans(g0, g2, g3);
            lemma_same_shape_trans(g0, g3, *graph);
            lemma_grow_trans(g0.counts(), g1.counts(), g2.counts());
            lemma_grow_trans(g0.counts(), g2.counts(), g3.counts());
            lemma_grow_trans(g0.counts(), g3.counts(), graph.counts());
            assert(graph.node_queue@ =~= g0.node_queue@ + quota_pushes(st, *self, ends));
        }
    }

    /// The quota rule step on a slot of the node, if it holds a bridge.
    fn apply_slot(&self, graph: &mut HashiGraph, s: Option<ID>)
        requires
            old(graph).wf(),
            node_ok(*self, old(graph).bridges@.len()),
            s == self.up || s == self.lf || s == self.rt || s == self.dn,
            rules_ok(old(graph).counts(), *self),
        ensures
            final(graph).wf(),
            same_shape(*old(graph), *final(graph)),
            bridge_ends(*final(graph)) == bridge_ends(*old(graph)),
            final(graph).counts() == crate::hashi::rule_on_slot(old(graph).counts(), *self, s),
            counts_grow(old(graph).counts(), final(graph).counts()),
            final(graph).node_queue@ == old(graph).node_queue@ + crate::hashi::slot_pushes(
                old(graph).counts(),
                *self,
                s,
                bridge_ends(*old(graph)),
            ),
            rules_ok(final(graph).counts(), *self),
    {
        let ghost g0 = *graph;
        proof {
            lemma_rule_slot_grows(g0.counts(), *self, s);
        }
        if let Some(b) = s {
            self.apply_rule(graph, b);
            proof {
                assert(bridge_ends(*graph) =~= bridge_ends(g0));
            }
        } else {
            proof {
                assert(graph.node_queue@ =~= g0.node_queue@ + Seq::<ID>::empty());
            }
        }
    }
}

/// The bridges in a node's slots, in slot order, each once.
pub open spec fn slot_ids(n: Node) -> Seq<ID> {
    let s1 = if let Some(b) = n.up { seq![b] } else { Seq::<ID>::empty() };
    let s2 = if let Some(b) = n.lf { if s1.contains(b) { s1 } else { s1.push(b) } } else { s1 };
    let s3 = if let Some(b) = n.rt { if s2.contains(b) { s2 } else { s2.push(b) } } else { s2 };
    if let Some(b) = n.dn { if s3.contains(b) { s3 } else { s3.push(b) } } else { s3 }
}

/// The elements of `s` that `t` does not hold, in the order of `s`.
pub open spec fn seq_minus(s: Seq<ID>, t: Seq<ID>) -> Seq<ID>
    decreases s.len(),
{
    if s.len() == 0 {
        Seq::empty()
    } else {
        let r = seq_minus(s.drop_last(), t);
        if t.contains(s.last()) {
            r
        } else {
            r.push(s.last())
        }
    }
}

/// The elements of `s` that `t` also holds, in the order of `s`.
pub open spec fn seq_common(s: Seq<ID>, t: Seq<ID>) -> Seq<ID>
    decreases s.len(),
{
    if s.len() == 0 {
        Seq::empty()
    } else {
        let r = seq_common(s.drop_last(), t);
        if t.contains(s.last()) {
            r.push(s.last())
        } else {
            r
        }
    }
}

/// The slot reached from slot `idx` by following merge pointers for at most `fuel`
/// steps, if that reaches an island.
pub open spec fn island_root(islands: Seq<IslandSlot>, idx: int, fuel: nat) -> Option<int>
    decreases fuel,
{
    if 0 <= idx < islands.len() {
        match islands[idx] {
            IslandSlot::Isl(_) => Some(idx),
            IslandSlot::IslPtr(j) => if fuel == 0 {
                None
            } else {
                island_root(islands, j as int, (fuel - 1) as nat)
            },
        }
    } else {
        None
    }
}

/// The number of slots among the first `k` that hold an island.
pub open spec fn count_islands(islands: Seq<IslandSlot>, k: int) -> nat
    decreases k,
{
    if k <= 0 {
        0
    } else {
        count_islands(islands, k - 1) + (if islands[k - 1] is Isl { 1nat } else { 0nat })
    }
}

/// Replacing one slot changes the count of islands by what left and what came.
proof fn lemma_count_islands_update(s: Seq<IslandSlot>, k: int, x: IslandSlot, n: int)
    requires
        0 <= k < s.len(),
        n <= s.len(),
    ensures
        count_islands(s.update(k, x), n) + (if k < n && s[k] is Isl { 1int } else { 0int }) == count_islands(s, n) + (
        if k < n && x is Isl {
            1int
        } else {
            0int
        }),
    decreases n,
{
    if n > 0 {
        lemma_count_islands_update(s, k, x, n - 1);
    }
}

/// Whether `x` occurs in `v`.
fn vec_contains(v: &Vec<ID>, x: ID) -> (r: bool)
    ensures
        r == v@.contains(x),
{
    let mut i: usize = 0;
    while i < v.len()
        invariant
            i <= v@.len(),
            forall|k: int| 0 <= k < i ==> v@[k] != x,
        decreases v@.len() - i,
    {
        if v[i] == x {
            return true;
        }
        i = i + 1;
    }
    false
}

/// Appends `x` to `v` unless `v` holds it already.
fn push_new(v: &mut Vec<ID>, x: ID)
    ensures
        final(v)@ == (if old(v)@.contains(x) { old(v)@ } else { old(v)@.push(x) }),
{
    if !vec_contains(v, x) {
        v.push(x);
    }
}

impl Island {
    /// The island of a single node: the node itself and the bridges in its slots.
    pub fn from_node(init_node: &Node) -> (isl: Self)
        ensures
            isl.nodes@ == seq![init_node.id],
            isl.ext_bridges@ == slot_ids(*init_node),
            isl.id == init_node.id,
    {
        let mut nodes: Vec<ID> = Vec::new();
        nodes.push(init_node.id);
        let mut ext_bridges: Vec<ID> = Vec::new();
        if let Some(b) = init_node.up {
            push_new(&mut ext_bridges, b);
        }
        if let Some(b) = init_node.lf {
            push_new(&mut ext_bridges, b);
        }
        if let Some(b) = init_node.rt {
            push_new(&mut ext_bridges, b);
        }
        if let Some(b) = init_node.dn {
            push_new(&mut ext_bridges, b);
        }
        proof {
            assert(nodes@ =~= seq![init_node.id]);
        }
        Island { nodes: nodes, ext_bridges: ext_bridges, id: init_node.id }
    }
}

/// The elements of `s` that `t` does not hold.
fn vec_minus(s: &Vec<ID>, t: &Vec<ID>) -> (r: Vec<ID>)
    ensures
        r@ == seq_minus(s@, t@),
{
    let mut r: Vec<ID> = Vec::new();
    let mut i: usize = 0;
    while i < s.len()
        invariant
            i <= s@.len(),
            r@ == seq_minus(s@.take(i as int), t@),
        decreases s@.len() - i,
    {
        proof {
            assert(s@.take(i + 1).drop_last() =~= s@.take(i as int));
        }
        if !vec_contains(t, s[i]) {
            r.push(s[i]);
        }
        i = i + 1;
    }
    proof {
        assert(s@.take(s@.len() as int) =~= s@);
    }
    r
}

/// The elements of `s` that `t` also holds.
fn vec_common(s: &Vec<ID>, t: &Vec<ID>) -> (r: Vec<ID>)
    ensures
        r@ == seq_common(s@, t@),
{
    let mut r: Vec<ID> = Vec::new();
    let mut i: usize = 0;
    while i < s.len()
        invariant
            i <= s@.len(),
            r@ == seq_common(s@.take(i as int), t@),
        decreases s@.len() - i,
    {
        proof {
            assert(s@.take(i + 1).drop_last() =~= s@.take(i as int));
        }
        if vec_contains(t, s[i]) {
            r.push(s[i]);
        }
        i = i + 1;
    }
    proof {
        assert(s@.take(s@.len() as int) =~= s@);
    }
    r
}

/// A copy of a list of indices.
fn copy_ids(s: &Vec<ID>) -> (r: Vec<ID>)
    ensures
        r@ == s@,
{
    let mut r: Vec<ID> = Vec::new();
    let mut i: usize = 0;
    while i < s.len()
        invariant
            i <= s@.len(),
            r@ == s@.take(i as int),
        decreases s@.len() - i,
    {
        proof {
            assert(s@.take(i + 1) =~= s@.take(i as int).push(s@[i as int]));
        }
        r.push(s[i]);
        i = i + 1;
    }
    proof {
        assert(s@.take(s@.len() as int) =~= s@);
    }
    r
}

impl HashiGraph {
    /// Adds a node with the given position and quota, and an island holding it alone;
    /// returns the new node's index.
    pub fn _add_node(&mut self, coords: (u32, u32), quota: u32) -> (r: ID)
        requires
            old(self).wf(),
        ensures
            final(self).wf(),
            r == old(self).nodes@.len(),
            final(self).nodes@ == old(self).nodes@.push(
                Node { coords: coords, quota: quota, id: r, up: None, dn: None, lf: None, rt: None },
            ),
            final(self).bridges@ == old(self).bridges@,
            final(self).node_queue@ == old(self).node_queue@,
            final(self).islands@.len() == old(self).islands@.len() + 1,
            forall|k: int| 0 <= k < old(self).islands@.len() ==> #[trigger] final(self).islands@[k] == old(self).islands@[k],
            final(self).islands@.last() matches IslandSlot::Isl(isl) && isl.nodes@ == seq![r]
                && isl.ext_bridges@ == Seq::<ID>::empty() && isl.id == r,
    {
        let node_id = self.nodes.len();
        let new_node = Node::new(coords, quota, node_id);
        self._add_island_for(&new_node);
        self.nodes.push(new_node);
        proof {
            assert(slot_ids(new_node) =~= Seq::<ID>::empty());
            let g = *self;
            assert forall|i: int| 0 <= i < g.bridges@.len() implies bridge_ok(
                #[trigger] g.bridges@[i], i, g.nodes@.len(), g.bridges@.len()) by {
                assert(bridge_ok(old(self).bridges@[i], i, old(self).nodes@.len(), old(self).bridges@.len()));
            }
            assert forall|k: int| 0 <= k < g.node_queue@.len() implies #[trigger] g.node_queue@[k] < g.nodes@.len() by {
                assert(old(self).node_queue@[k] < old(self).nodes@.len());
            }
        }
        node_id
    }

    /// Adds a bridge with every count possible between two nodes of the graph;
    /// returns the new bridge's index.
    pub fn _add_bridge(&mut self, nodes: (ID, ID)) -> (r: ID)
        requires
            old(self).wf(),
            nodes.0 < old(self).nodes@.len(),
            nodes.1 < old(self).nodes@.len(),
        ensures
            final(self).wf(),
            r == old(self).bridges@.len(),
            final(self).nodes@ == old(self).nodes@,
            final(self).islands@ == old(self).islands@,
            final(self).node_queue@ == old(self).node_queue@,
            final(self).bridges@.len() == old(self).bridges@.len() + 1,
            forall|k: int| 0 <= k < old(self).bridges@.len() ==> #[trigger] final(self).bridges@[k] == old(self).bridges@[k],
            final(self).bridges@[r as int].nodes == nodes,
            final(self).bridges@[r as int].crosses@ == Seq::<ID>::empty(),
            dom_counts(final(self).bridges@[r as int].domain) == (0int, 0int),
    {
        let bridge_id = self.bridges.len();
        let new_bridge = Bridge::new(nodes, bridge_id);
        self.bridges.push(new_bridge);
        proof {
            let g = *self;
            assert forall|i: int| 0 <= i < g.nodes@.len() implies (#[trigger] g.nodes@[i]).id == i && node_ok(
                g.nodes@[i], g.bridges@.len()) by {
                assert(node_ok(old(self).nodes@[i], old(self).bridges@.len()));
            }
            assert forall|i: int| 0 <= i < g.bridges@.len() implies bridge_ok(
                #[trigger] g.bridges@[i], i, g.nodes@.len(), g.bridges@.len()) by {
                if i < bridge_id {
                    assert(bridge_ok(old(self).bridges@[i], i, old(self).nodes@.len(), old(self).bridges@.len()));
                }
            }
        }
        bridge_id
    }

    /// Adds an island slot holding the island of `node` alone.
    pub fn _add_island_for(&mut self, node: &Node)
        ensures
            final(self).nodes@ == old(self).nodes@,
            final(self).bridges@ == old(self).bridges@,
            final(self).node_queue@ == old(self).node_queue@,
            final(self).islands@.len() == old(self).islands@.len() + 1,
            forall|k: int| 0 <= k < old(self).islands@.len() ==> #[trigger] final(self).islands@[k] == old(self).islands@[k],
            final(self).islands@.last() matches IslandSlot::Isl(isl) && isl.nodes@ == seq![node.id]
                && isl.ext_bridges@ == slot_ids(*node) && isl.id == node.id,
    {
        self.islands.push(IslandSlot::Isl(Island::from_node(node)));
    }

    /// The island that node `node_id`'s slot leads to through merge pointers.
    pub fn _get_island(&self, node_id: usize) -> (isl: &Island)
        requires
            island_root(self.islands@, node_id as int, self.islands@.len()) is Some,
        ensures
            self.islands@[island_root(self.islands@, node_id as int, self.islands@.len())->0] == IslandSlot::Isl(*isl),
    {
        let ghost root = island_root(self.islands@, node_id as int, self.islands@.len())->0;
        let mut index = node_id;
        let ghost mut fuel: nat = self.islands@.len();
        loop
            invariant
                island_root(self.islands@, index as int, fuel) == Some(root),
                root == island_root(self.islands@, node_id as int, self.islands@.len())->0,
            decreases fuel,
        {
            match &self.islands[index] {
                IslandSlot::IslPtr(new_index) => {
                    proof {
                        fuel = (fuel - 1) as nat;
                    }
                    index = *new_index;
                },
                IslandSlot::Isl(isl) => {
                    assert(root == index as int);
                    assert(self.islands@[index as int] == IslandSlot::Isl(*isl));
                    return isl;
                },
            }
        }
    }

    /// Merges two islands into the slot of the one with the smaller id: the merged
    /// island holds the nodes of both and the bridges leaving both; the other slot
    /// points to it.
    pub fn _merge_islands(&mut self, i1: &Island, i2: &Island)
        requires
            i1.id < old(self).islands@.len(),
            i2.id < old(self).islands@.len(),
        ensures
            ({
                let minid = if i1.id < i2.id { i1.id } else { i2.id };
                let maxid = if i1.id < i2.id { i2.id } else { i1.id };
                &&& final(self).nodes@ == old(self).nodes@
                &&& final(self).bridges@ == old(self).bridges@
                &&& final(self).node_queue@ == old(self).node_queue@
                &&& final(self).islands@.len() == old(self).islands@.len()
                &&& forall|k: int| 0 <= k < old(self).islands@.len() && k != minid && k != maxid
                    ==> #[trigger] final(self).islands@[k] == old(self).islands@[k]
                &&& final(self).islands@[maxid as int] == IslandSlot::IslPtr(minid)
                &&& minid != maxid ==> (final(self).islands@[minid as int] matches IslandSlot::Isl(isl)
                    && isl.nodes@ == i1.nodes@ + seq_minus(i2.nodes@, i1.nodes@)
                    && isl.ext_bridges@ == seq_common(i1.ext_bridges@, i2.ext_bridges@)
                    && isl.id == minid)
                &&& (old(self).islands@[i1.id as int] == IslandSlot::Isl(*i1) && old(self).islands@[i2.id as int]
                    == IslandSlot::Isl(*i2) && i1.id != i2.id) ==> {
                    &&& count_islands(final(self).islands@, final(self).islands@.len() as int) + 1 == count_islands(
                        old(self).islands@,
                        old(self).islands@.len() as int,
                    )
                    &&& island_root(final(self).islands@, i1.id as int, final(self).islands@.len()) == Some(minid as int)
                    &&& island_root(final(self).islands@, i2.id as int, final(self).islands@.len()) == Some(minid as int)
                }
            }),
    {
        let ghost s0 = self.islands@;
        let (minid, maxid) = if i1.id < i2.id { (i1.id, i2.id) } else { (i2.id, i1.id) };
        let mut nodes = copy_ids(&i1.nodes);
        let extra = vec_minus(&i2.nodes, &i1.nodes);
        let mut k: usize = 0;
        let ghost base = nodes@;
        while k < extra.len()
            invariant
                k <= extra@.len(),
                nodes@ == base + extra@.take(k as int),
            decreases extra@.len() - k,
        {
            proof {
                assert(extra@.take(k + 1) =~= extra@.take(k as int).push(extra@[k as int]));
            }
            nodes.push(extra[k]);
            k = k + 1;
        }
        proof {
            assert(extra@.take(extra@.len() as int) =~= extra@);
        }
        let new_island = Island { nodes: nodes, ext_bridges: vec_common(&i1.ext_bridges, &i2.ext_bridges), id: minid };
        self.islands.set(minid, IslandSlot::Isl(new_island));
        let ghost s1 = self.islands@;
        self.islands.set(maxid, IslandSlot::IslPtr(minid));
        proof {
            if s0[i1.id as int] == IslandSlot::Isl(*i1) && s0[i2.id as int] == IslandSlot::Isl(*i2) && i1.id != i2.id {
                let n = s0.len() as int;
                lemma_count_islands_update(s0, minid as int, IslandSlot::Isl(new_island), n);
                lemma_count_islands_update(s1, maxid as int, IslandSlot::IslPtr(minid), n);
                let s2 = self.islands@;
                assert(s1 == s0.update(minid as int, IslandSlot::Isl(new_island)));
                assert(s2 == s1.update(maxid as int, IslandSlot::IslPtr(minid)));
                assert(s1[maxid as int] == s0[maxid as int]);
                assert(island_root(s2, minid as int, s2.len()) == Some(minid as int));
                assert(island_root(s2, minid as int, (s2.len() - 1) as nat) == Some(minid as int));
                assert(island_root(s2, maxid as int, s2.len()) == Some(minid as int));
            }
        }
    }

    /// The number of island slots that hold an island.
    pub fn _num_islands(&self) -> (r: usize)
        ensures
            r == count_islands(self.islands@, self.islands@.len() as int),
    {
        let mut count: usize = 0;
        let mut i: usize = 0;
        while i < self.islands.len()
            invariant
                i <= self.islands@.len(),
                count == count_islands(self.islands@, i as int),
                count <= i,
            decreases self.islands@.len() - i,
        {
            if let IslandSlot::Isl(_) = &self.islands[i] {
                count = count + 1;
            }
            i = i + 1;
        }
        count
    }
}

} // verus!
