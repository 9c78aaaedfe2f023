//! The solver: quota rules for every queued node, then island heuristics, then guesses,
//! until every bridge is decided.
use vstd::prelude::*;
use crate::text::{five_numbers, five_numbers_text};
use crate::hashi::{
    ID, Node, open_of, node_ok, node_linked, rem_quota_of, rules_ok, quota_rules, rule_on, rule_on_slot,
    slot_in, touched, quota_pushes, slot_pushes, rule_pushes,
};
use crate::graph::{
    HashiGraph, Island, IslandSlot, same_shape, count_islands, counts_ok, bridge_ends, lemma_same_shape_trans,
    counts_grow, lemma_grow_trans, lemma_rule_slot_grows,
};

verus! {

/// What an island heuristic asks for.
pub enum Choice {
    /// The heuristic does not apply.
    Pass,
    /// Link that many slots of the bridge.
    Link(ID, int),
    /// Close that many slots of the bridge.
    Close(ID, int),
    /// The heuristic cannot be carried out (its arithmetic or its bridge update fails).
    Stuck,
}

/// One step of the solver on the queue and the bridge counts.
pub enum StepResult {
    Next(Seq<ID>, Seq<(int, int)>),
    Done,
    Stuck,
}

/// What the solver reads of a graph besides the bridge counts: its nodes, its island
/// slots and the ends of its bridges.
pub struct Layout {
    pub nodes: Seq<Node>,
    pub islands: Seq<IslandSlot>,
    pub ends: Seq<(ID, ID)>,
}

/// The layout of a graph.
pub open spec fn layout(g: HashiGraph) -> Layout {
    Layout {
        nodes: g.nodes@,
        islands: g.islands@,
        ends: bridge_ends(g),
    }
}

/// Slot `i` holds an island.
pub open spec fn live(lay: Layout, i: int) -> bool {
    0 <= i < lay.islands.len() && lay.islands[i] is Isl
}

/// The island held in slot `i`.
pub open spec fn isl(lay: Layout, i: int) -> Island {
    lay.islands[i]->Isl_0
}

/// Bridge `b` leaves one of the islands held in the first `k` slots.
pub open spec fn ext_bridge_upto(lay: Layout, b: ID, k: int) -> bool {
    exists|j: int| 0 <= j < k && live(lay, j) && #[trigger] isl(lay, j).ext_bridges@.contains(b)
}

/// Bridge `b` leaves some island.
pub open spec fn is_ext_bridge(lay: Layout, b: ID) -> bool {
    ext_bridge_upto(lay, b, lay.islands.len() as int)
}

/// Node `n` is an end of one of the first `k` bridges that leave an island.
pub open spec fn ext_node_upto(lay: Layout, n: ID, k: int) -> bool {
    exists|b: ID|
        b < k && #[trigger] is_ext_bridge(lay, b) && (lay.ends[b as int].0 == n
            || lay.ends[b as int].1 == n)
}

/// Node `n` is an end of a bridge that leaves an island.
pub open spec fn is_ext_node(lay: Layout, n: ID) -> bool {
    ext_node_upto(lay, n, lay.ends.len() as int)
}

/// The nodes of `s` that are ends of bridges leaving islands, in the order of `s`.
pub open spec fn ext_nodes_of(lay: Layout, s: Seq<ID>) -> Seq<ID>
    decreases s.len(),
{
    if s.len() == 0 {
        Seq::empty()
    } else {
        let r = ext_nodes_of(lay, s.drop_last());
        if s.last() < lay.nodes.len() && is_ext_node(lay, s.last()) {
            r.push(s.last())
        } else {
            r
        }
    }
}

/// Node `n` is the only node of one of the first `k` island slots' islands that is an
/// end of a bridge leaving an island.
pub open spec fn lonely_upto(lay: Layout, n: ID, k: int) -> bool {
    exists|j: int| 0 <= j < k && live(lay, j) && #[trigger] ext_nodes_of(lay, isl(lay, j).nodes@) == seq![n]
}

/// Node `n` is the only node of its island at which bridges leave the island.
pub open spec fn is_lonely(lay: Layout, n: ID) -> bool {
    lonely_upto(lay, n, lay.islands.len() as int)
}

/// The islands list their nodes and their bridges once each, and their bridges exist.
pub open spec fn islands_ok(lay: Layout) -> bool {
    forall|j: int| live(lay, j) ==> {
        &&& (#[trigger] isl(lay, j)).nodes@.no_duplicates()
        &&& isl(lay, j).ext_bridges@.no_duplicates()
        &&& forall|k: int| 0 <= k < isl(lay, j).ext_bridges@.len() ==> #[trigger] isl(lay, j).ext_bridges@[k] < lay.ends.len()
    }
}

/// The number of island slots that hold an island.
pub open spec fn num_islands(lay: Layout) -> nat {
    count_islands(lay.islands, lay.islands.len() as int)
}

/// The bridge of the first island, from slot `i` on, with exactly one bridge leaving it.
pub open spec fn sole_from(lay: Layout, i: int) -> Option<ID>
    decreases lay.islands.len() - i,
{
    if i < 0 || i >= lay.islands.len() {
        None
    } else if live(lay, i) && isl(lay, i).ext_bridges@.len() == 1 {
        Some(isl(lay, i).ext_bridges@[0])
    } else {
        sole_from(lay, i + 1)
    }
}

/// The node is not over its quota.
pub open spec fn within_quota(st: Seq<(int, int)>, n: Node) -> bool {
    node_linked(st, n) <= n.quota
}

/// Between islands: the first bridge from `b` on that leaves an island and joins two
/// nodes that are each their island's only exit node, with equal remaining quotas;
/// it gets all its open slots but one less than that quota, plus one, linked.
pub open spec fn between_from(lay: Layout, st: Seq<(int, int)>, b: int) -> Choice
    decreases lay.ends.len() - b,
{
    if b < 0 || b >= lay.ends.len() {
        Choice::Pass
    } else {
        let e = lay.ends[b];
        if is_ext_bridge(lay, b as ID) && is_lonely(lay, e.0) && is_lonely(lay, e.1) {
            let n1 = lay.nodes[e.0 as int];
            let n2 = lay.nodes[e.1 as int];
            if !within_quota(st, n1) || !within_quota(st, n2) {
                Choice::Stuck
            } else if rem_quota_of(st, n1) == rem_quota_of(st, n2) {
                let r = rem_quota_of(st, n1);
                let o = open_of(st[b]);
                if r > o || r == 0 {
                    Choice::Stuck
                } else {
                    Choice::Link(b as ID, o - r + 1)
                }
            } else {
                between_from(lay, st, b + 1)
            }
        } else {
            between_from(lay, st, b + 1)
        }
    }
}

/// The bridge that joins two nodes, found by pairing the first node's slots
/// (up, left, right, down) with the second's in reverse (down, right, left, up).
pub open spec fn shared_bridge(n1: Node, n2: Node) -> Option<ID> {
    if n1.up is Some && n1.up == n2.dn {
        n1.up
    } else if n1.lf is Some && n1.lf == n2.rt {
        n1.lf
    } else if n1.rt is Some && n1.rt == n2.lf {
        n1.rt
    } else if n1.dn is Some && n1.dn == n2.up {
        n1.dn
    } else {
        None
    }
}

/// The larger of two numbers.
pub open spec fn max_int(a: int, b: int) -> int {
    if a >= b {
        a
    } else {
        b
    }
}

/// Within islands: the first island, from slot `i` on, with exactly two exit nodes
/// joined by a bridge; that bridge gets all its open slots but one less than the larger
/// remaining quota, plus one, closed.
pub open spec fn within_from(lay: Layout, st: Seq<(int, int)>, i: int) -> Choice
    decreases lay.islands.len() - i,
{
    if i < 0 || i >= lay.islands.len() {
        Choice::Pass
    } else if live(lay, i) && ext_nodes_of(lay, isl(lay, i).nodes@).len() == 2 {
        let xs = ext_nodes_of(lay, isl(lay, i).nodes@);
        let a = if xs[0] < xs[1] { xs[0] } else { xs[1] };
        let c = if xs[0] < xs[1] { xs[1] } else { xs[0] };
        let n1 = lay.nodes[a as int];
        let n2 = lay.nodes[c as int];
        match shared_bridge(n1, n2) {
            Some(sh) => if !within_quota(st, n1) || !within_quota(st, n2) {
                Choice::Stuck
            } else {
                let r = max_int(rem_quota_of(st, n1), rem_quota_of(st, n2));
                let o = open_of(st[sh as int]);
                if r > o || r == 0 {
                    Choice::Stuck
                } else {
                    Choice::Close(sh, o - r + 1)
                }
            },
            None => within_from(lay, st, i + 1),
        }
    } else {
        within_from(lay, st, i + 1)
    }
}

/// The first bridge from `b` on with an open slot.
pub open spec fn first_open(st: Seq<(int, int)>, b: int) -> Option<ID>
    decreases st.len() - b,
{
    if b < 0 || b >= st.len() {
        None
    } else if open_of(st[b]) > 0 {
        Some(b as ID)
    } else {
        first_open(st, b + 1)
    }
}

/// The counts after linking `n` slots of bridge `b`.
pub open spec fn link_in(st: Seq<(int, int)>, b: ID, n: int) -> Seq<(int, int)> {
    st.update(b as int, (st[b as int].0 + n, st[b as int].1))
}

/// The counts after closing `n` slots of bridge `b`.
pub open spec fn close_in(st: Seq<(int, int)>, b: ID, n: int) -> Seq<(int, int)> {
    st.update(b as int, (st[b as int].0, st[b as int].1 + n))
}

/// One step of the solver. Queued nodes come first, the last one first, with their
/// quota rules. Then, with more than one island, an island with a single exit bridge
/// gets one slot of it linked; with more than two islands, the between-islands rule;
/// with more than one, the within-islands rule; and last the first bridge with an
/// open slot gets one slot linked. Each bridge whose slots change queues both its
/// ends. When no bridge is open, the solver is done.
pub open spec fn solve_step(lay: Layout, q: Seq<ID>, st: Seq<(int, int)>) -> StepResult {
    if q.len() > 0 {
        let n = lay.nodes[q.last() as int];
        if rules_ok(st, n) {
            StepResult::Next(q.drop_last() + quota_pushes(st, n, lay.ends), quota_rules(st, n))
        } else {
            StepResult::Stuck
        }
    } else if num_islands(lay) > 1 && sole_from(lay, 0) is Some {
        let b = sole_from(lay, 0)->0;
        if open_of(st[b as int]) >= 1 {
            StepResult::Next(q + touched(lay.ends[b as int], 1), link_in(st, b, 1))
        } else {
            StepResult::Stuck
        }
    } else if num_islands(lay) > 2 && !(between_from(lay, st, 0) is Pass) {
        match between_from(lay, st, 0) {
            Choice::Link(b, n) => StepResult::Next(q + touched(lay.ends[b as int], n), link_in(st, b, n)),
            _ => StepResult::Stuck,
        }
    } else if num_islands(lay) > 1 && !(within_from(lay, st, 0) is Pass) {
        match within_from(lay, st, 0) {
            Choice::Close(b, n) => StepResult::Next(q + touched(lay.ends[b as int], n), close_in(st, b, n)),
            _ => StepResult::Stuck,
        }
    } else if first_open(st, 0) is Some {
        let b = first_open(st, 0)->0;
        StepResult::Next(q + touched(lay.ends[b as int], 1), link_in(st, b, 1))
    } else {
        StepResult::Done
    }
}

/// The counts the solver ends with, if it gets there within `fuel` steps without
/// getting stuck.
pub open spec fn solve_run(lay: Layout, q: Seq<ID>, st: Seq<(int, int)>, fuel: nat) -> Option<Seq<(int, int)>>
    decreases fuel,
{
    match solve_step(lay, q, st) {
        StepResult::Done => Some(st),
        StepResult::Stuck => None,
        StepResult::Next(q2, st2) => if fuel == 0 {
            None
        } else {
            solve_run(lay, q2, st2, (fuel - 1) as nat)
        },
    }
}

/// The solver ends without getting stuck.
pub open spec fn solve_finishes(g: HashiGraph) -> bool {
    exists|fuel: nat| #[trigger] solve_run(layout(g), g.node_queue@, g.counts(), fuel) is Some
}

/// The counts the solver ends with.
pub open spec fn solve_result(g: HashiGraph) -> Seq<(int, int)> {
    solve_run(layout(g), g.node_queue@, g.counts(), choose|fuel: nat| #[trigger] solve_run(layout(g), g.node_queue@, g.counts(), fuel) is Some)->0
}

/// What an island heuristic asks for, as the solver carries it out.
pub enum Move {
    Pass,
    Link(ID, u32),
    Close(ID, u32),
    Stuck,
}

/// What one step of the solver came to.
pub enum Progress {
    Moved,
    Finished,
    Stuck,
}

/// The move carries out the choice.
pub open spec fn move_is(m: Move, c: Choice) -> bool {
    match m {
        Move::Pass => c is Pass,
        Move::Link(b, n) => c == Choice::Link(b, n as int),
        Move::Close(b, n) => c == Choice::Close(b, n as int),
        Move::Stuck => c is Stuck,
    }
}

proof fn lemma_ext_bridge_step(lay: Layout, b: ID, i: int)
    requires
        0 <= i,
    ensures
        ext_bridge_upto(lay, b, i + 1) == (ext_bridge_upto(lay, b, i) || (live(lay, i)
            && isl(lay, i).ext_bridges@.contains(b))),
{
    if ext_bridge_upto(lay, b, i + 1) {
        let j = choose|j: int| 0 <= j < i + 1 && live(lay, j) && #[trigger] isl(lay, j).ext_bridges@.contains(b);
        if j < i {
            assert(ext_bridge_upto(lay, b, i));
        }
    }
    if ext_bridge_upto(lay, b, i) {
        let j = choose|j: int| 0 <= j < i && live(lay, j) && #[trigger] isl(lay, j).ext_bridges@.contains(b);
        assert(isl(lay, j).ext_bridges@.contains(b));
    }
    if live(lay, i) && isl(lay, i).ext_bridges@.contains(b) {
        assert(isl(lay, i).ext_bridges@.contains(b));
    }
}

proof fn lemma_ext_node_step(lay: Layout, n: ID, b: ID)
    ensures
        ext_node_upto(lay, n, b + 1) == (ext_node_upto(lay, n, b as int) || (is_ext_bridge(lay, b) && (
        lay.ends[b as int].0 == n || lay.ends[b as int].1 == n))),
{
    if ext_node_upto(lay, n, b + 1) {
        let c = choose|c: ID|
            c < b + 1 && #[trigger] is_ext_bridge(lay, c) && (lay.ends[c as int].0 == n || lay.ends[c as int].1 == n);
        if c < b {
            assert(ext_node_upto(lay, n, b as int));
        }
    }
    if ext_node_upto(lay, n, b as int) {
        let c = choose|c: ID|
            c < b && #[trigger] is_ext_bridge(lay, c) && (lay.ends[c as int].0 == n || lay.ends[c as int].1 == n);
        assert(is_ext_bridge(lay, c));
    }
    if is_ext_bridge(lay, b) {
        assert(is_ext_bridge(lay, b));
    }
}

proof fn lemma_lonely_step(lay: Layout, n: ID, i: int)
    requires
        0 <= i,
    ensures
        lonely_upto(lay, n, i + 1) == (lonely_upto(lay, n, i) || (live(lay, i) && ext_nodes_of(
            lay,
            isl(lay, i).nodes@,
        ) == seq![n])),
{
    if lonely_upto(lay, n, i + 1) {
        let j = choose|j: int| 0 <= j < i + 1 && live(lay, j) && #[trigger] ext_nodes_of(lay, isl(lay, j).nodes@) == seq![n];
        if j < i {
            assert(lonely_upto(lay, n, i));
        }
    }
    if lonely_upto(lay, n, i) {
        let j = choose|j: int| 0 <= j < i && live(lay, j) && #[trigger] ext_nodes_of(lay, isl(lay, j).nodes@) == seq![n];
        assert(ext_nodes_of(lay, isl(lay, j).nodes@) == seq![n]);
    }
    if live(lay, i) && ext_nodes_of(lay, isl(lay, i).nodes@) == seq![n] {
        assert(ext_nodes_of(lay, isl(lay, i).nodes@) == seq![n]);
    }
}

/// The exit nodes of a list are nodes of the layout.
proof fn lemma_ext_nodes_bound(lay: Layout, s: Seq<ID>)
    ensures
        forall|k: int| 0 <= k < ext_nodes_of(lay, s).len() ==> #[trigger] ext_nodes_of(lay, s)[k] < lay.nodes.len(),
    decreases s.len(),
{
    if s.len() > 0 {
        lemma_ext_nodes_bound(lay, s.drop_last());
        let r = ext_nodes_of(lay, s.drop_last());
        assert forall|k: int| 0 <= k < ext_nodes_of(lay, s).len() implies #[trigger] ext_nodes_of(lay, s)[k]
            < lay.nodes.len() by {
            if k < r.len() {
                assert(ext_nodes_of(lay, s)[k] == r[k]);
            }
        }
    }
}

/// A list of `n` times `false`.
fn falses(n: usize) -> (v: Vec<bool>)
    ensures
        v@.len() == n,
        forall|i: int| 0 <= i < n ==> !#[trigger] v@[i],
{
    let mut v: Vec<bool> = Vec::new();
    let mut i: usize = 0;
    while i < n
        invariant
            i <= n,
            v@.len() == i,
            forall|k: int| 0 <= k < i ==> !#[trigger] v@[k],
        decreases n - i,
    {
        v.push(false);
        i = i + 1;
    }
    v
}

impl HashiGraph {
    /// For each bridge, whether it leaves an island.
    fn ext_bridge_flags(&self) -> (r: Vec<bool>)
        requires
            self.wf(),
            islands_ok(layout(*self)),
        ensures
            r@.len() == self.bridges@.len(),
            forall|b: int| 0 <= b < r@.len() ==> r@[b] == is_ext_bridge(layout(*self), b as ID),
    {
        let ghost lay = layout(*self);
        let nb = self.bridges.len();
        let mut flags = falses(nb);
        let mut i: usize = 0;
        while i < self.islands.len()
            invariant
                lay == layout(*self),
                islands_ok(lay),
                nb == self.bridges@.len(),
                i <= self.islands@.len(),
                flags@.len() == nb,
                forall|b: int| 0 <= b < nb ==> flags@[b] == ext_bridge_upto(lay, b as ID, i as int),
            decreases self.islands@.len() - i,
        {
            proof {
                assert forall|b: int| 0 <= b < nb implies #[trigger] ext_bridge_upto(lay, b as ID, i + 1) == (
                ext_bridge_upto(lay, b as ID, i as int) || (live(lay, i as int) && isl(
                    lay,
                    i as int,
                ).ext_bridges@.contains(b as ID))) by {
                    lemma_ext_bridge_step(lay, b as ID, i as int);
                }
            }
            match &self.islands[i] {
                IslandSlot::Isl(isl_ref) => {
                    assert(live(lay, i as int) && isl(lay, i as int) == *isl_ref);
                    let mut k: usize = 0;
                    while k < isl_ref.ext_bridges.len()
                        invariant
                            lay == layout(*self),
                            islands_ok(lay),
                            live(lay, i as int),
                            isl(lay, i as int) == *isl_ref,
                            nb == self.bridges@.len(),
                            k <= isl_ref.ext_bridges@.len(),
                            flags@.len() == nb,
                            forall|b: int|
                                0 <= b < nb ==> flags@[b] == (ext_bridge_upto(lay, b as ID, i as int)
                                    || isl_ref.ext_bridges@.take(k as int).contains(b as ID)),
                        decreases isl_ref.ext_bridges@.len() - k,
                    {
                        let b = isl_ref.ext_bridges[k];
                        assert(b < nb);
                        flags.set(b, true);
                        proof {
                            broadcast use vstd::seq_lib::lemma_seq_contains_after_push;
                            assert(isl_ref.ext_bridges@.take(k + 1) =~= isl_ref.ext_bridges@.take(k as int).push(b));
                        }
                        k = k + 1;
                    }
                    proof {
                        assert(isl_ref.ext_bridges@.take(k as int) =~= isl_ref.ext_bridges@);
                    }
                },
                IslandSlot::IslPtr(_) => {
                },
            }
            i = i + 1;
        }
        flags
    }

    /// For each node, whether it is an end of a bridge leaving an island.
    fn ext_node_flags(&self, ext: &Vec<bool>) -> (r: Vec<bool>)
        requires
            self.wf(),
            ext@.len() == self.bridges@.len(),
            forall|b: int| 0 <= b < ext@.len() ==> ext@[b] == is_ext_bridge(layout(*self), b as ID),
        ensures
            r@.len() == self.nodes@.len(),
            forall|n: int| 0 <= n < r@.len() ==> r@[n] == is_ext_node(layout(*self), n as ID),
    {
        let ghost lay = layout(*self);
        let nn = self.nodes.len();
        let mut flags = falses(nn);
        let mut b: usize = 0;
        while b < self.bridges.len()
            invariant
                lay == layout(*self),
                self.wf(),
                ext@.len() == self.bridges@.len(),
                forall|c: int| 0 <= c < ext@.len() ==> ext@[c] == is_ext_bridge(lay, c as ID),
                nn == self.nodes@.len(),
                b <= self.bridges@.len(),
                flags@.len() == nn,
                forall|n: int| 0 <= n < nn ==> flags@[n] == ext_node_upto(lay, n as ID, b as int),
            decreases self.bridges@.len() - b,
        {
            proof {
                assert forall|n: int| 0 <= n < nn implies #[trigger] ext_node_upto(lay, n as ID, b + 1) == (
                ext_node_upto(lay, n as ID, b as int) || (is_ext_bridge(lay, b) && (lay.ends[b as int].0 == n
                    || lay.ends[b as int].1 == n))) by {
                    lemma_ext_node_step(lay, n as ID, b);
                }
                assert(crate::graph::bridge_ok(self.bridges@[b as int], b as int, self.nodes@.len(), self.bridges@.len()));
            }
            if ext[b] {
                let e = self.bridges[b].nodes;
                flags.set(e.0, true);
                flags.set(e.1, true);
            }
            b = b + 1;
        }
        flags
    }

    /// The nodes of `s` that are ends of bridges leaving islands.
    fn ext_nodes_in(&self, s: &Vec<ID>, extn: &Vec<bool>) -> (r: Vec<ID>)
        requires
            extn@.len() == self.nodes@.len(),
            forall|n: int| 0 <= n < extn@.len() ==> extn@[n] == is_ext_node(layout(*self), n as ID),
        ensures
            r@ == ext_nodes_of(layout(*self), s@),
    {
        let mut r: Vec<ID> = Vec::new();
        let mut i: usize = 0;
        while i < s.len()
            invariant
                extn@.len() == self.nodes@.len(),
                forall|n: int| 0 <= n < extn@.len() ==> extn@[n] == is_ext_node(layout(*self), n as ID),
                i <= s@.len(),
                r@ == ext_nodes_of(layout(*self), s@.take(i as int)),
            decreases s@.len() - i,
        {
            proof {
                assert(s@.take(i + 1).drop_last() =~= s@.take(i as int));
            }
            let n = s[i];
            if n < extn.len() && extn[n] {
                r.push(n);
            }
            i = i + 1;
        }
        proof {
            assert(s@.take(s@.len() as int) =~= s@);
        }
        r
    }

    /// For each node, whether it is the only exit node of some island.
    fn lonely_flags(&self, extn: &Vec<bool>) -> (r: Vec<bool>)
        requires
            extn@.len() == self.nodes@.len(),
            forall|n: int| 0 <= n < extn@.len() ==> extn@[n] == is_ext_node(layout(*self), n as ID),
        ensures
            r@.len() == self.nodes@.len(),
            forall|n: int| 0 <= n < r@.len() ==> r@[n] == is_lonely(layout(*self), n as ID),
    {
        let ghost lay = layout(*self);
        let nn = self.nodes.len();
        let mut flags = falses(nn);
        let mut i: usize = 0;
        while i < self.islands.len()
            invariant
                lay == layout(*self),
                extn@.len() == self.nodes@.len(),
                forall|n: int| 0 <= n < extn@.len() ==> extn@[n] == is_ext_node(lay, n as ID),
                nn == self.nodes@.len(),
                i <= self.islands@.len(),
                flags@.len() == nn,
                forall|n: int| 0 <= n < nn ==> flags@[n] == lonely_upto(lay, n as ID, i as int),
            decreases self.islands@.len() - i,
        {
            proof {
                assert forall|n: int| 0 <= n < nn implies #[trigger] lonely_upto(lay, n as ID, i + 1) == (lonely_upto(
                    lay,
                    n as ID,
                    i as int,
                ) || (live(lay, i as int) && ext_nodes_of(lay, isl(lay, i as int).nodes@) == seq![n as ID])) by {
                    lemma_lonely_step(lay, n as ID, i as int);
                }
            }
            match &self.islands[i] {
                IslandSlot::Isl(isl_ref) => {
                    assert(live(lay, i as int) && isl(lay, i as int) == *isl_ref);
                    let xs = self.ext_nodes_in(&isl_ref.nodes, extn);
                    proof {
                        lemma_ext_nodes_bound(lay, isl_ref.nodes@);
                    }
                    if xs.len() == 1 {
                        let n = xs[0];
                        flags.set(n, true);
                        proof {
                            assert(xs@ =~= seq![n]);
                        }
                    }
                },
                IslandSlot::IslPtr(_) => {
                },
            }
            i = i + 1;
        }
        flags
    }
}

/// The bridge two nodes share, found as `shared_bridge` states.
fn shared_bridge_of(n1: &Node, n2: &Node) -> (r: Option<ID>)
    ensures
        r == shared_bridge(*n1, *n2),
{
    if let Some(b) = n1.up {
        if n2.dn == Some(b) {
            return Some(b);
        }
    }
    if let Some(b) = n1.lf {
        if n2.rt == Some(b) {
            return Some(b);
        }
    }
    if let Some(b) = n1.rt {
        if n2.lf == Some(b) {
            return Some(b);
        }
    }
    if let Some(b) = n1.dn {
        if n2.up == Some(b) {
            return Some(b);
        }
    }
    None
}

/// Graphs of the same shape have the same layout.
proof fn lemma_same_shape_layout(g1: HashiGraph, g2: HashiGraph)
    requires
        same_shape(g1, g2),
    ensures
        layout(g1) == layout(g2),
{
    assert(layout(g1).ends =~= layout(g2).ends);
}

/// When no bridge from `b` on is open, none of them has open slots.
proof fn lemma_first_open_none(st: Seq<(int, int)>, b: int)
    requires
        0 <= b,
        first_open(st, b) is None,
    ensures
        forall|k: int| b <= k < st.len() ==> open_of(#[trigger] st[k]) <= 0,
    decreases st.len() - b,
{
    if b < st.len() {
        lemma_first_open_none(st, b + 1);
    }
}

/// The first open bridge from `b` on is open.
proof fn lemma_first_open_some(st: Seq<(int, int)>, b: int)
    requires
        0 <= b,
        st.len() <= usize::MAX,
        first_open(st, b) is Some,
    ensures
        b <= first_open(st, b)->0 < st.len(),
        open_of(st[first_open(st, b)->0 as int]) > 0,
    decreases st.len() - b,
{
    if b < st.len() && open_of(st[b]) <= 0 {
        lemma_first_open_some(st, b + 1);
    }
}

/// The bridge `sole_from` gives belongs to an island.
proof fn lemma_sole_from(lay: Layout, i: int)
    requires
        0 <= i,
        sole_from(lay, i) is Some,
    ensures
        exists|j: int| live(lay, j) && #[trigger] isl(lay, j).ext_bridges@.len() == 1
            && sole_from(lay, i)->0 == isl(lay, j).ext_bridges@[0],
    decreases lay.islands.len() - i,
{
    if !(live(lay, i) && isl(lay, i).ext_bridges@.len() == 1) {
        lemma_sole_from(lay, i + 1);
    }
}

impl HashiGraph {
    /// The bridge of the first island with a single bridge leaving it.
    fn sole_external_bridge(&self) -> (r: Option<ID>)
        requires
            islands_ok(layout(*self)),
        ensures
            r == sole_from(layout(*self), 0),
            r matches Some(b) ==> b < self.bridges@.len(),
    {
        let ghost lay = layout(*self);
        let mut i: usize = 0;
        while i < self.islands.len()
            invariant
                lay == layout(*self),
                islands_ok(lay),
                i <= self.islands@.len(),
                sole_from(lay, 0) == sole_from(lay, i as int),
            decreases self.islands@.len() - i,
        {
            match &self.islands[i] {
                IslandSlot::Isl(isl_ref) => {
                    assert(live(lay, i as int) && isl(lay, i as int) == *isl_ref);
                    if isl_ref.ext_bridges.len() == 1 {
                        return Some(isl_ref.ext_bridges[0]);
                    }
                },
                IslandSlot::IslPtr(_) => {
                },
            }
            i = i + 1;
        }
        None
    }

    /// The between-islands rule, as `between_from` states it.
    fn between_islands(&self) -> (m: Move)
        requires
            self.wf(),
            islands_ok(layout(*self)),
        ensures
            move_is(m, between_from(layout(*self), self.counts(), 0)),
            m matches Move::Link(b, n) ==> b < self.bridges@.len() && n <= open_of(self.counts()[b as int]),
            !(m is Close),
    {
        let ghost lay = layout(*self);
        let ghost st = self.counts();
        let ext = self.ext_bridge_flags();
        let extn = self.ext_node_flags(&ext);
        let lonely = self.lonely_flags(&extn);
        let mut b: usize = 0;
        while b < self.bridges.len()
            invariant
                lay == layout(*self),
                st == self.counts(),
                self.wf(),
                b <= self.bridges@.len(),
                ext@.len() == self.bridges@.len(),
                forall|c: int| 0 <= c < ext@.len() ==> ext@[c] == is_ext_bridge(lay, c as ID),
                lonely@.len() == self.nodes@.len(),
                forall|n: int| 0 <= n < lonely@.len() ==> lonely@[n] == is_lonely(lay, n as ID),
                between_from(lay, st, 0) == between_from(lay, st, b as int),
            decreases self.bridges@.len() - b,
        {
            proof {
                assert(crate::graph::bridge_ok(self.bridges@[b as int], b as int, self.nodes@.len(), self.bridges@.len()));
                assert(lay.ends[b as int] == self.bridges@[b as int].nodes);
            }
            let e = self.bridges[b].nodes;
            if ext[b] && lonely[e.0] && lonely[e.1] {
                let n1 = self.get_node_from_id(e.0);
                let n2 = self.get_node_from_id(e.1);
                proof {
                    assert(n1.id == e.0 && node_ok(*n1, self.bridges@.len()));
                    assert(n2.id == e.1 && node_ok(*n2, self.bridges@.len()));
                }
                if n1.num_linked_slots(self) > n1.quota || n2.num_linked_slots(self) > n2.quota {
                    return Move::Stuck;
                }
                let r1 = n1.rem_quota(self);
                let r2 = n2.rem_quota(self);
                if r1 == r2 {
                    proof {
                        self.lemma_counts_ok();
                    }
                    let o = self.bridges[b].num_open_slots();
                    if r1 > o || r1 == 0 {
                        return Move::Stuck;
                    }
                    return Move::Link(b, o - r1 + 1);
                }
            }
            b = b + 1;
        }
        Move::Pass
    }

    /// The within-islands rule, as `within_from` states it.
    fn within_islands(&self) -> (m: Move)
        requires
            self.wf(),
            islands_ok(layout(*self)),
        ensures
            move_is(m, within_from(layout(*self), self.counts(), 0)),
            m matches Move::Close(b, n) ==> b < self.bridges@.len() && n <= open_of(self.counts()[b as int]),
            !(m is Link),
    {
        let ghost lay = layout(*self);
        let ghost st = self.counts();
        let ext = self.ext_bridge_flags();
        let extn = self.ext_node_flags(&ext);
        let mut i: usize = 0;
        while i < self.islands.len()
            invariant
                lay == layout(*self),
                st == self.counts(),
                self.wf(),
                i <= self.islands@.len(),
                extn@.len() == self.nodes@.len(),
                forall|n: int| 0 <= n < extn@.len() ==> extn@[n] == is_ext_node(lay, n as ID),
                within_from(lay, st, 0) == within_from(lay, st, i as int),
            decreases self.islands@.len() - i,
        {
            match &self.islands[i] {
                IslandSlot::Isl(isl_ref) => {
                    assert(live(lay, i as int) && isl(lay, i as int) == *isl_ref);
                    let xs = self.ext_nodes_in(&isl_ref.nodes, &extn);
                    proof {
                        lemma_ext_nodes_bound(lay, isl_ref.nodes@);
                    }
                    if xs.len() == 2 {
                        let (a, c) = if xs[0] < xs[1] { (xs[0], xs[1]) } else { (xs[1], xs[0]) };
                        let n1 = self.get_node_from_id(a);
                        let n2 = self.get_node_from_id(c);
                        match shared_bridge_of(n1, n2) {
                            Some(sh) => {
                                proof {
                                    assert(n1.id == a && node_ok(*n1, self.bridges@.len()));
                                    assert(n2.id == c && node_ok(*n2, self.bridges@.len()));
                                }
                                if n1.num_linked_slots(self) > n1.quota || n2.num_linked_slots(self) > n2.quota {
                                    return Move::Stuck;
                                }
                                let r1 = n1.rem_quota(self);
                                let r2 = n2.rem_quota(self);
                                let r = if r1 >= r2 { r1 } else { r2 };
                                proof {
                                    self.lemma_counts_ok();
                                    assert(crate::graph::bridge_ok(self.bridges@[sh as int], sh as int, self.nodes@.len(), self.bridges@.len()));
                                }
                                let o = self.bridges[sh].num_open_slots();
                                if r > o || r == 0 {
                                    return Move::Stuck;
                                }
                                return Move::Close(sh, o - r + 1);
                            },
                            None => {
                            },
                        }
                    }
                },
                IslandSlot::IslPtr(_) => {
                },
            }
            i = i + 1;
        }
        Move::Pass
    }

    /// The first bridge with an open slot.
    fn first_open_bridge(&self) -> (r: Option<ID>)
        requires
            self.wf(),
        ensures
            r == first_open(self.counts(), 0),
    {
        let ghost st = self.counts();
        let mut b: usize = 0;
        while b < self.bridges.len()
            invariant
                st == self.counts(),
                self.wf(),
                b <= self.bridges@.len(),
                first_open(st, 0) == first_open(st, b as int),
            decreases self.bridges@.len() - b,
        {
            proof {
                assert(crate::graph::bridge_ok(self.bridges@[b as int], b as int, self.nodes@.len(), self.bridges@.len()));
            }
            if self.bridges[b].num_open_slots() > 0 {
                return Some(b);
            }
            b = b + 1;
        }
        None
    }

    /// Whether the node's quota rules can run on the current counts.
    fn rules_hold(&self, node: &Node) -> (r: bool)
        requires
            self.wf(),
            node_ok(*node, self.bridges@.len()),
        ensures
            r == rules_ok(self.counts(), *node),
    {
        if node.up.is_none() && node.lf.is_none() && node.rt.is_none() && node.dn.is_none() {
            return true;
        }
        let linked = node.num_linked_slots(self);
        let closed = node.num_closed_slots(self);
        let total = node.num_total_slots(self);
        linked <= node.quota && (node.quota as u64) + (closed as u64) <= total as u64
    }

    /// One step of the solver, as `solve_step` states it: it moves, finds nothing left
    /// to do, or gets stuck (and then changes nothing).
    fn try_step(&mut self) -> (r: Progress)
        requires
            old(self).wf(),
            islands_ok(layout(*old(self))),
        ensures
            final(self).wf(),
            layout(*final(self)) == layout(*old(self)),
            same_shape(*old(self), *final(self)),
            match solve_step(layout(*old(self)), old(self).node_queue@, old(self).counts()) {
                StepResult::Next(q2, st2) => r is Moved && final(self).node_queue@ == q2 && final(self).counts() == st2,
                StepResult::Done => r is Finished && final(self).node_queue@ == old(self).node_queue@
                    && final(self).counts() == old(self).counts(),
                StepResult::Stuck => r is Stuck,
            },
    {
        let ghost lay = layout(*self);
        let ghost st = self.counts();
        let nq = self.node_queue.len();
        if nq > 0 {
            let id = self.node_queue[nq - 1];
            proof {
                assert(self.node_queue@[nq - 1] < self.nodes@.len());
            }
            let node = self.nodes[id];
            proof {
                assert(self.nodes@[id as int].id == id && node_ok(self.nodes@[id as int], self.bridges@.len()));
            }
            if !self.rules_hold(&node) {
                return Progress::Stuck;
            }
            self.node_queue.pop();
            proof {
                assert(self.node_queue@ =~= old(self).node_queue@.drop_last());
                assert(self.counts() =~= st);
                assert forall|k: int| 0 <= k < self.node_queue@.len() implies #[trigger] self.node_queue@[k]
                    < self.nodes@.len() by {
                    assert(old(self).node_queue@[k] < old(self).nodes@.len());
                }
            }
            let ghost g1 = *self;
            node.apply_quota_rules(self);
            proof {
                lemma_same_shape_layout(g1, *self);
                assert(layout(g1) == lay);
                assert(same_shape(*old(self), g1));
                lemma_same_shape_trans(*old(self), g1, *self);
            }
            return Progress::Moved;
        }
        proof {
            assert(self.node_queue@.len() == 0);
        }
        if self._num_islands() > 1 {
            match self.sole_external_bridge() {
                Some(b) => {
                    proof {
                        assert(crate::graph::bridge_ok(self.bridges@[b as int], b as int, self.nodes@.len(), self.bridges@.len()));
                    }
                    if self.bridges[b].num_open_slots() < 1 {
                        return Progress::Stuck;
                    }
                    let ghost g1 = *self;
                    self.link_bridge(b, 1);
                    proof {
                        lemma_same_shape_layout(g1, *self);
                    }
                    return Progress::Moved;
                },
                None => {
                },
            }
        }
        if self._num_islands() > 2 {
            match self.between_islands() {
                Move::Link(b, n) => {
                    let ghost g1 = *self;
                    self.link_bridge(b, n);
                    proof {
                        lemma_same_shape_layout(g1, *self);
                    }
                    return Progress::Moved;
                },
                Move::Stuck => {
                    return Progress::Stuck;
                },
                _ => {
                },
            }
        }
        if self._num_islands() > 1 {
            match self.within_islands() {
                Move::Close(b, n) => {
                    let ghost g1 = *self;
                    self.close_bridge(b, n);
                    proof {
                        lemma_same_shape_layout(g1, *self);
                    }
                    return Progress::Moved;
                },
                Move::Stuck => {
                    return Progress::Stuck;
                },
                _ => {
                },
            }
        }
        match self.first_open_bridge() {
            Some(b) => {
                let nb = self.bridges.len();
                proof {
                    assert(st.len() == nb);
                    lemma_first_open_some(st, 0);
                }
                let ghost g1 = *self;
                self.link_bridge(b, 1);
                proof {
                    lemma_same_shape_layout(g1, *self);
                }
                Progress::Moved
            },
            None => Progress::Finished,
        }
    }

    /// Runs the solver until every bridge is decided or it gets stuck: first the quota
    /// rules of each queued node, then, one move at a time, the island rules and
    /// guesses that `solve_step` states; a bridge whose slots change queues both its
    /// ends again. The solver always ends: each step decides slots or shortens the
    /// queue. It gets stuck where a quota or count would go below zero or a bridge is
    /// asked for more slots than it has open; it then stops and gives `false`.
    pub fn try_solve(&mut self) -> (solved: bool)
        requires
            old(self).wf(),
            islands_ok(layout(*old(self))),
        ensures
            final(self).wf(),
            layout(*final(self)) == layout(*old(self)),
            same_shape(*old(self), *final(self)),
            solved == solve_finishes(*old(self)),
            solved ==> final(self).node_queue@ == Seq::<ID>::empty(),
            solved ==> final(self).counts() == solve_result(*old(self)),
            solved ==> forall|b: int| 0 <= b < final(self).bridges@.len() ==> open_of(#[trigger] final(self).counts()[b]) == 0,
    {
        let ghost lay = layout(*self);
        let ghost q0 = self.node_queue@;
        let ghost st0 = self.counts();
        let ghost mut steps: nat = 0;
        let nb = self.bridges.len();
        loop
            invariant
                self.wf(),
                islands_ok(lay),
                layout(*self) == lay,
                same_shape(*old(self), *self),
                nb == self.bridges@.len(),
                q0 == old(self).node_queue@,
                st0 == old(self).counts(),
                lay == layout(*old(self)),
                forall|f: nat| #[trigger] solve_run(lay, q0, st0, f) == (if f >= steps {
                    solve_run(lay, self.node_queue@, self.counts(), (f - steps) as nat)
                } else {
                    None::<Seq<(int, int)>>
                }),
            decreases 2 * nb - decided(self.counts()), self.node_queue@.len(),
        {
            let ghost q = self.node_queue@;
            let ghost st = self.counts();
            let ghost before = *self;
            proof {
                lemma_wf_run_ok(*self);
                lemma_step_measure(lay, q, st);
            }
            let progress = self.try_step();
            proof {
                lemma_same_shape_trans(*old(self), before, *self);
            }
            match progress {
                Progress::Moved => {
                    proof {
                        let s = steps;
                        assert forall|f: nat| #[trigger] solve_run(lay, q0, st0, f) == (if f >= s + 1 {
                            solve_run(lay, self.node_queue@, self.counts(), (f - (s + 1)) as nat)
                        } else {
                            None::<Seq<(int, int)>>
                        }) by {
                            if f >= s {
                                assert(solve_run(lay, q0, st0, f) == solve_run(lay, q, st, (f - s) as nat));
                            }
                        }
                        steps = steps + 1;
                        self.lemma_counts_ok();
                        lemma_decided_bound(self.counts());
                    }
                },
                Progress::Finished => {
                    proof {
                        assert(solve_run(lay, q0, st0, steps) is Some);
                        assert forall|f: nat| #[trigger] solve_run(lay, q0, st0, f) is Some implies f >= steps by {}
                        let f0 = choose|fuel: nat| #[trigger] solve_run(lay, q0, st0, fuel) is Some;
                        assert(f0 >= steps);
                        self.lemma_counts_ok();
                        lemma_first_open_none(st, 0);
                    }
                    return true;
                },
                Progress::Stuck => {
                    proof {
                        assert forall|f: nat| !(#[trigger] solve_run(lay, q0, st0, f) is Some) by {
                            if f >= steps {
                                assert(solve_run(lay, q0, st0, f) == solve_run(lay, q, st, (f - steps) as nat));
                            }
                        }
                    }
                    return false;
                },
            }
        }
    }

    /// Runs the solver, as `try_solve` does, on a graph on which it does not get stuck.
    pub fn solve(&mut self)
        requires
            old(self).wf(),
            islands_ok(layout(*old(self))),
            solve_finishes(*old(self)),
        ensures
            final(self).wf(),
            layout(*final(self)) == layout(*old(self)),
            same_shape(*old(self), *final(self)),
            final(self).node_queue@ == Seq::<ID>::empty(),
            final(self).counts() == solve_result(*old(self)),
            forall|b: int| 0 <= b < final(self).bridges@.len() ==> open_of(#[trigger] final(self).counts()[b]) == 0,
    {
        let _ = self.try_solve();
    }
}

/// The solution lines of the first `k` bridges: for each bridge with linked slots,
/// the coordinates of its two ends and its number of links.
pub open spec fn solution_upto(g: HashiGraph, k: int) -> Seq<Seq<char>>
    decreases k,
{
    if k <= 0 {
        Seq::empty()
    } else {
        let r = solution_upto(g, k - 1);
        let br = g.bridges@[k - 1];
        let links = g.counts()[k - 1].0;
        if links > 0 {
            let (x1, y1) = g.nodes@[br.nodes.0 as int].coords;
            let (x2, y2) = g.nodes@[br.nodes.1 as int].coords;
            r.push(five_numbers(x1 as nat, y1 as nat, x2 as nat, y2 as nat, links as nat))
        } else {
            r
        }
    }
}

impl HashiGraph {
    /// The solution, one line per bridge with links, in bridge order: "x1 y1 x2 y2 links".
    pub fn solution_iter(&self) -> (lines: Vec<String>)
        requires
            self.wf(),
        ensures
            lines@.len() == solution_upto(*self, self.bridges@.len() as int).len(),
            forall|i: int| 0 <= i < lines@.len() ==> #[trigger] lines@[i]@ == solution_upto(
                *self,
                self.bridges@.len() as int,
            )[i],
    {
        let mut lines: Vec<String> = Vec::new();
        let mut b: usize = 0;
        while b < self.bridges.len()
            invariant
                self.wf(),
                b <= self.bridges@.len(),
                lines@.len() == solution_upto(*self, b as int).len(),
                forall|i: int| 0 <= i < lines@.len() ==> #[trigger] lines@[i]@ == solution_upto(*self, b as int)[i],
            decreases self.bridges@.len() - b,
        {
            proof {
                assert(crate::graph::bridge_ok(self.bridges@[b as int], b as int, self.nodes@.len(), self.bridges@.len()));
            }
            let br = &self.bridges[b];
            let links = br.num_linked_slots();
            if links > 0 {
                let (x1, y1) = self.nodes[br.nodes.0].coords;
                let (x2, y2) = self.nodes[br.nodes.1].coords;
                lines.push(five_numbers_text(x1, y1, x2, y2, links));
            }
            b = b + 1;
        }
        lines
    }
}


/// The queue and the layout keep every step of the solver within the bridges.
pub open spec fn run_ok(lay: Layout, q: Seq<ID>, st: Seq<(int, int)>) -> bool {
    &&& st.len() == lay.ends.len()
    &&& st.len() <= usize::MAX
    &&& islands_ok(lay)
    &&& forall|i: int| 0 <= i < lay.nodes.len() ==> node_ok(#[trigger] lay.nodes[i], lay.ends.len())
    &&& forall|b: int| 0 <= b < lay.ends.len() ==> (#[trigger] lay.ends[b]).0 < lay.nodes.len() && lay.ends[b].1
        < lay.nodes.len()
    &&& all_below(q, lay.nodes.len())
}

/// Every element is below `n`.
pub open spec fn all_below(s: Seq<ID>, n: nat) -> bool {
    forall|k: int| 0 <= k < s.len() ==> #[trigger] s[k] < n
}

proof fn lemma_concat_below(a: Seq<ID>, b: Seq<ID>, n: nat)
    requires
        all_below(a, n),
        all_below(b, n),
    ensures
        all_below(a + b, n),
{
    assert forall|k: int| 0 <= k < (a + b).len() implies #[trigger] (a + b)[k] < n by {
        if k < a.len() {
            assert((a + b)[k] == a[k]);
        } else {
            assert((a + b)[k] == b[k - a.len()]);
        }
    }
}

proof fn lemma_slot_pushes_below(st: Seq<(int, int)>, nd: Node, s: Option<ID>, ends: Seq<(ID, ID)>, n: nat)
    requires
        slot_in(s, ends.len()),
        forall|b: int| 0 <= b < ends.len() ==> (#[trigger] ends[b]).0 < n && ends[b].1 < n,
    ensures
        all_below(slot_pushes(st, nd, s, ends), n),
{
    reveal(rule_pushes);
    if let Some(b) = s {
        let e = ends[b as int];
        let d1 = crate::hashi::sat_sub(open_of(st[b as int]), crate::hashi::rem_close_quota_of(st, nd));
        let st1 = st.update(b as int, (st[b as int].0 + d1, st[b as int].1));
        let d2 = crate::hashi::sat_sub(open_of(st1[b as int]), rem_quota_of(st1, nd));
        lemma_concat_below(touched(e, d1), touched(e, d2), n);
    }
}

proof fn lemma_quota_pushes_below(st: Seq<(int, int)>, nd: Node, ends: Seq<(ID, ID)>, n: nat)
    requires
        node_ok(nd, ends.len()),
        forall|b: int| 0 <= b < ends.len() ==> (#[trigger] ends[b]).0 < n && ends[b].1 < n,
    ensures
        all_below(quota_pushes(st, nd, ends), n),
{
    let s1 = rule_on_slot(st, nd, nd.up);
    let s2 = rule_on_slot(s1, nd, nd.lf);
    let s3 = rule_on_slot(s2, nd, nd.rt);
    lemma_slot_pushes_below(st, nd, nd.up, ends, n);
    lemma_slot_pushes_below(s1, nd, nd.lf, ends, n);
    lemma_slot_pushes_below(s2, nd, nd.rt, ends, n);
    lemma_slot_pushes_below(s3, nd, nd.dn, ends, n);
    let p1 = slot_pushes(st, nd, nd.up, ends);
    let p2 = slot_pushes(s1, nd, nd.lf, ends);
    let p3 = slot_pushes(s2, nd, nd.rt, ends);
    let p4 = slot_pushes(s3, nd, nd.dn, ends);
    lemma_concat_below(p1, p2, n);
    lemma_concat_below(p1 + p2, p3, n);
    lemma_concat_below(p1 + p2 + p3, p4, n);
}

proof fn lemma_quota_rules_grow(st: Seq<(int, int)>, n: Node)
    requires
        node_ok(n, st.len()),
    ensures
        counts_grow(st, quota_rules(st, n)),
{
    let s1 = rule_on_slot(st, n, n.up);
    let s2 = rule_on_slot(s1, n, n.lf);
    let s3 = rule_on_slot(s2, n, n.rt);
    lemma_rule_slot_grows(st, n, n.up);
    lemma_rule_slot_grows(s1, n, n.lf);
    lemma_rule_slot_grows(s2, n, n.rt);
    lemma_rule_slot_grows(s3, n, n.dn);
    lemma_grow_trans(st, s1, s2);
    lemma_grow_trans(st, s2, s3);
    lemma_grow_trans(st, s3, quota_rules(st, n));
}

proof fn lemma_between_link(lay: Layout, st: Seq<(int, int)>, b: int)
    requires
        0 <= b,
    ensures
        between_from(lay, st, b) matches Choice::Link(bb, k) ==> bb < lay.ends.len() && k >= 1,
    decreases lay.ends.len() - b,
{
    if b < lay.ends.len() {
        lemma_between_link(lay, st, b + 1);
    }
}

proof fn lemma_within_close(lay: Layout, st: Seq<(int, int)>, i: int)
    requires
        0 <= i,
        forall|j: int| 0 <= j < lay.nodes.len() ==> node_ok(#[trigger] lay.nodes[j], lay.ends.len()),
    ensures
        within_from(lay, st, i) matches Choice::Close(sh, k) ==> sh < lay.ends.len() && k >= 1,
    decreases lay.islands.len() - i,
{
    if i < lay.islands.len() {
        lemma_within_close(lay, st, i + 1);
        if live(lay, i) && ext_nodes_of(lay, isl(lay, i).nodes@).len() == 2 {
            let xs = ext_nodes_of(lay, isl(lay, i).nodes@);
            lemma_ext_nodes_bound(lay, isl(lay, i).nodes@);
            assert(xs[0] < lay.nodes.len() && xs[1] < lay.nodes.len());
            let a = if xs[0] < xs[1] { xs[0] } else { xs[1] };
            assert(node_ok(lay.nodes[a as int], lay.ends.len()));
        }
    }
}

proof fn lemma_step_grows(lay: Layout, q: Seq<ID>, st: Seq<(int, int)>)
    requires
        run_ok(lay, q, st),
    ensures
        solve_step(lay, q, st) matches StepResult::Next(q2, st2) ==> counts_grow(st, st2) && run_ok(lay, q2, st2),
{
    let nn = lay.nodes.len();
    if let StepResult::Next(q2, st2) = solve_step(lay, q, st) {
        // the bridge changed outside the queue case, and how many of its slots
        let mut b: int = 0;
        let mut k: int = 0;
        if q.len() > 0 {
            assert(q.last() < nn);
            lemma_quota_rules_grow(st, lay.nodes[q.last() as int]);
            lemma_quota_pushes_below(st, lay.nodes[q.last() as int], lay.ends, nn);
            assert(all_below(q.drop_last(), nn));
            lemma_concat_below(q.drop_last(), quota_pushes(st, lay.nodes[q.last() as int], lay.ends), nn);
        } else {
            if num_islands(lay) > 1 && sole_from(lay, 0) is Some {
                lemma_sole_from(lay, 0);
                let j = choose|j: int| live(lay, j) && #[trigger] isl(lay, j).ext_bridges@.len() == 1
                    && sole_from(lay, 0)->0 == isl(lay, j).ext_bridges@[0];
                assert(isl(lay, j).ext_bridges@[0] < lay.ends.len());
                b = sole_from(lay, 0)->0 as int;
                k = 1;
            } else if num_islands(lay) > 2 && !(between_from(lay, st, 0) is Pass) {
                lemma_between_link(lay, st, 0);
                b = between_from(lay, st, 0)->Link_0 as int;
                k = between_from(lay, st, 0)->Link_1;
            } else if num_islands(lay) > 1 && !(within_from(lay, st, 0) is Pass) {
                lemma_within_close(lay, st, 0);
                b = within_from(lay, st, 0)->Close_0 as int;
                k = within_from(lay, st, 0)->Close_1;
            } else {
                lemma_first_open_some(st, 0);
                b = first_open(st, 0)->0 as int;
                k = 1;
            }
            assert(0 <= b < lay.ends.len());
            assert(q2 == q + touched(lay.ends[b], k));
            assert(lay.ends[b].0 < nn && lay.ends[b].1 < nn);
            assert(all_below(touched(lay.ends[b], k), nn));
            lemma_concat_below(q, touched(lay.ends[b], k), nn);
        }
        assert forall|i: int| #![trigger st2[i]] 0 <= i < st.len() implies st[i].0 <= st2[i].0 && st[i].1 <= st2[i].1 by {
            if q.len() > 0 {
                assert(counts_grow(st, st2));
            }
        }
    }
}

proof fn lemma_run_grows(lay: Layout, q: Seq<ID>, st: Seq<(int, int)>, fuel: nat)
    requires
        run_ok(lay, q, st),
        solve_run(lay, q, st, fuel) is Some,
    ensures
        counts_grow(st, solve_run(lay, q, st, fuel)->0),
    decreases fuel,
{
    lemma_step_grows(lay, q, st);
    if let StepResult::Next(q2, st2) = solve_step(lay, q, st) {
        lemma_run_grows(lay, q2, st2, (fuel - 1) as nat);
        lemma_grow_trans(st, st2, solve_run(lay, q, st, fuel)->0);
    } else {
        assert(counts_grow(st, st));
    }
}

/// The solver never takes a link away nor reopens a slot: every bridge ends with at
/// least the linked and the closed slots it started with.
pub proof fn lemma_solve_grows(g: HashiGraph)
    requires
        g.wf(),
        islands_ok(layout(g)),
        solve_finishes(g),
        g.bridges@.len() <= usize::MAX,
    ensures
        counts_grow(g.counts(), solve_result(g)),
{
    let lay = layout(g);
    let fuel = choose|fuel: nat| #[trigger] solve_run(lay, g.node_queue@, g.counts(), fuel) is Some;
    lemma_wf_run_ok(g);
    lemma_run_grows(lay, g.node_queue@, g.counts(), fuel);
}


/// The linked and closed slots of all bridges together.
pub open spec fn decided(st: Seq<(int, int)>) -> int
    decreases st.len(),
{
    if st.len() == 0 {
        0
    } else {
        decided(st.drop_last()) + st.last().0 + st.last().1
    }
}

proof fn lemma_decided_update(st: Seq<(int, int)>, b: int, v: (int, int))
    requires
        0 <= b < st.len(),
    ensures
        decided(st.update(b, v)) == decided(st) - st[b].0 - st[b].1 + v.0 + v.1,
    decreases st.len(),
{
    if b < st.len() - 1 {
        assert(st.update(b, v).drop_last() =~= st.drop_last().update(b, v));
        lemma_decided_update(st.drop_last(), b, v);
    } else {
        assert(st.update(b, v).drop_last() =~= st.drop_last());
    }
}

proof fn lemma_decided_bound(st: Seq<(int, int)>)
    requires
        counts_ok(st),
    ensures
        0 <= decided(st) <= 2 * st.len(),
    decreases st.len(),
{
    if st.len() > 0 {
        assert(counts_ok(st.drop_last())) by {
            assert forall|i: int| 0 <= i < st.drop_last().len() implies 0 <= (#[trigger] st.drop_last()[i]).0
                && 0 <= st.drop_last()[i].1 && st.drop_last()[i].0 + st.drop_last()[i].1 <= 2 by {
                assert(st.drop_last()[i] == st[i]);
            }
        }
        lemma_decided_bound(st.drop_last());
        assert(0 <= st.last().0 && 0 <= st.last().1 && st.last().0 + st.last().1 <= 2);
    }
}

proof fn lemma_slot_measure(st: Seq<(int, int)>, nd: Node, s: Option<ID>, ends: Seq<(ID, ID)>)
    requires
        slot_in(s, st.len()),
    ensures
        rule_on_slot(st, nd, s).len() == st.len(),
        decided(rule_on_slot(st, nd, s)) >= decided(st),
        slot_pushes(st, nd, s, ends).len() > 0 ==> decided(rule_on_slot(st, nd, s)) > decided(st),
{
    reveal(rule_pushes);
    if let Some(b) = s {
        let d1 = crate::hashi::sat_sub(open_of(st[b as int]), crate::hashi::rem_close_quota_of(st, nd));
        let st1 = st.update(b as int, (st[b as int].0 + d1, st[b as int].1));
        let d2 = crate::hashi::sat_sub(open_of(st1[b as int]), rem_quota_of(st1, nd));
        lemma_decided_update(st, b as int, (st[b as int].0 + d1, st[b as int].1));
        lemma_decided_update(st1, b as int, (st1[b as int].0, st1[b as int].1 + d2));
    }
}

proof fn lemma_quota_measure(st: Seq<(int, int)>, nd: Node, ends: Seq<(ID, ID)>)
    requires
        node_ok(nd, st.len()),
    ensures
        quota_rules(st, nd).len() == st.len(),
        decided(quota_rules(st, nd)) >= decided(st),
        quota_pushes(st, nd, ends).len() > 0 ==> decided(quota_rules(st, nd)) > decided(st),
{
    let s1 = rule_on_slot(st, nd, nd.up);
    lemma_slot_measure(st, nd, nd.up, ends);
    let s2 = rule_on_slot(s1, nd, nd.lf);
    lemma_slot_measure(s1, nd, nd.lf, ends);
    let s3 = rule_on_slot(s2, nd, nd.rt);
    lemma_slot_measure(s2, nd, nd.rt, ends);
    lemma_slot_measure(s3, nd, nd.dn, ends);
}

/// Each step of the solver decides more slots, or decides as many and shortens the
/// queue.
proof fn lemma_step_measure(lay: Layout, q: Seq<ID>, st: Seq<(int, int)>)
    requires
        run_ok(lay, q, st),
    ensures
        solve_step(lay, q, st) matches StepResult::Next(q2, st2) ==> decided(st2) > decided(st) || (decided(st2)
            == decided(st) && q2.len() < q.len()),
{
    if let StepResult::Next(q2, st2) = solve_step(lay, q, st) {
        if q.len() > 0 {
            assert(q.last() < lay.nodes.len());
            lemma_quota_measure(st, lay.nodes[q.last() as int], lay.ends);
        } else if num_islands(lay) > 1 && sole_from(lay, 0) is Some {
            lemma_sole_from(lay, 0);
            let j = choose|j: int| live(lay, j) && #[trigger] isl(lay, j).ext_bridges@.len() == 1
                && sole_from(lay, 0)->0 == isl(lay, j).ext_bridges@[0];
            assert(isl(lay, j).ext_bridges@[0] < lay.ends.len());
            let b = sole_from(lay, 0)->0 as int;
            lemma_decided_update(st, b, (st[b].0 + 1, st[b].1));
        } else if num_islands(lay) > 2 && !(between_from(lay, st, 0) is Pass) {
            lemma_between_link(lay, st, 0);
            let b = between_from(lay, st, 0)->Link_0 as int;
            let k = between_from(lay, st, 0)->Link_1;
            lemma_decided_update(st, b, (st[b].0 + k, st[b].1));
        } else if num_islands(lay) > 1 && !(within_from(lay, st, 0) is Pass) {
            lemma_within_close(lay, st, 0);
            let b = within_from(lay, st, 0)->Close_0 as int;
            let k = within_from(lay, st, 0)->Close_1;
            lemma_decided_update(st, b, (st[b].0, st[b].1 + k));
        } else {
            lemma_first_open_some(st, 0);
            let b = first_open(st, 0)->0 as int;
            lemma_decided_update(st, b, (st[b].0 + 1, st[b].1));
        }
    }
}

/// A well-formed graph keeps every step of the solver within its bridges.
proof fn lemma_wf_run_ok(g: HashiGraph)
    requires
        g.wf(),
        islands_ok(layout(g)),
        g.bridges@.len() <= usize::MAX,
    ensures
        run_ok(layout(g), g.node_queue@, g.counts()),
{
    let lay = layout(g);
    assert forall|i: int| 0 <= i < lay.nodes.len() implies node_ok(#[trigger] lay.nodes[i], lay.ends.len()) by {
        assert(g.nodes@[i].id == i && node_ok(g.nodes@[i], g.bridges@.len()));
    }
    assert forall|b: int| 0 <= b < lay.ends.len() implies (#[trigger] lay.ends[b]).0 < lay.nodes.len() && lay.ends[b].1
        < lay.nodes.len() by {
        assert(crate::graph::bridge_ok(g.bridges@[b], b, g.nodes@.len(), g.bridges@.len()));
    }
}

} // verus!
