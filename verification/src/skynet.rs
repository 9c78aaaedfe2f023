//! Cutting the links of a network ahead of an agent that walks it towards a gateway:
//! a best-first search from the agent's node that favours paths passing many nodes
//! linked to gateways, and the choice of the link to cut.
use vstd::prelude::*;

verus! {

/// A node of the network: its neighbours, and how many of them are gateways.
pub struct NodeInfo {
    pub nbrs: Vec<usize>,
    pub gwlinks: i32,
}

/// The network: node `i` is `nodes[i]`.
pub struct Graph {
    pub nodes: Vec<NodeInfo>,
}

/// What the search knows of a node: the gateway links summed along the path found to
/// it, the length of that path, and the node before it on the path.
#[derive(Clone, Copy, Debug)]
pub struct PFInfo {
    pub cum: i64,
    pub dist: usize,
    pub prev: Option<usize>,
}

impl Graph {
    /// The neighbours of node `i`.
    pub open spec fn nbrs(&self, i: int) -> Seq<usize> {
        self.nodes@[i].nbrs@
    }

    /// The gateway links of node `i`.
    pub open spec fn gw(&self, i: int) -> int {
        self.nodes@[i].gwlinks as int
    }

    /// Every neighbour is a node of the network.
    pub open spec fn wf(&self) -> bool {
        forall|i: int, k: int|
            0 <= i < self.nodes@.len() && 0 <= k < self.nbrs(i).len() ==> #[trigger] self.nbrs(i)[k]
                < self.nodes@.len()
    }
}

/// The numerator of the mean gateway links per step of a path; a path of no step has mean 0.
pub open spec fn avg_num(p: PFInfo) -> int {
    if p.dist == 0 {
        0
    } else {
        p.cum as int
    }
}

/// The denominator of the mean gateway links per step of a path.
pub open spec fn avg_den(p: PFInfo) -> int {
    if p.dist == 0 {
        1
    } else {
        p.dist as int
    }
}

/// `p` ranks below `q`: by the mean gateway links per step, then by their sum, then by
/// the length, then by the node before (none ranking lowest).
pub open spec fn ranks_below(p: PFInfo, q: PFInfo) -> bool {
    let l = avg_num(p) * avg_den(q);
    let r = avg_num(q) * avg_den(p);
    if l != r {
        l < r
    } else if p.cum != q.cum {
        p.cum < q.cum
    } else if p.dist != q.dist {
        p.dist < q.dist
    } else {
        match (p.prev, q.prev) {
            (None, Some(_)) => true,
            (Some(a), Some(b)) => a < b,
            _ => false,
        }
    }
}

/// The first of the highest-ranked entries among the first `k`.
pub open spec fn best_upto(s: Seq<Option<PFInfo>>, k: int) -> Option<int>
    decreases k,
{
    if k <= 0 {
        None
    } else {
        let r = best_upto(s, k - 1);
        match s[k - 1] {
            None => r,
            Some(v) => match r {
                None => Some(k - 1),
                Some(i) => if ranks_below(s[i]->0, v) {
                    Some(k - 1)
                } else {
                    r
                },
            },
        }
    }
}

/// The entry of neighbour `nb` reached from the finished node `c`.
pub open spec fn reached(g: Graph, fin: Seq<Option<PFInfo>>, c: int, nb: int) -> PFInfo {
    PFInfo {
        cum: (fin[c]->0.cum + g.gw(nb)) as i64,
        dist: (fin[c]->0.dist + 1) as usize,
        prev: Some(c as usize),
    }
}

/// The boundary once the first `k` neighbours of node `c` not yet finished have been
/// reached from it, each replacing what the boundary held for it.
pub open spec fn relax(g: Graph, fin: Seq<Option<PFInfo>>, bnd: Seq<Option<PFInfo>>, c: int, k: int) -> Seq<
    Option<PFInfo>,
>
    decreases k,
{
    if k <= 0 {
        bnd
    } else {
        let b = relax(g, fin, bnd, c, k - 1);
        let nb = g.nbrs(c)[k - 1] as int;
        if fin[nb] is Some {
            b
        } else {
            b.update(nb, Some(reached(g, fin, c, nb)))
        }
    }
}

/// One step of the search on (finished, boundary): the best boundary entry is finished,
/// and its neighbours not finished are reached from it.
pub open spec fn search_step(g: Graph, st: (Seq<Option<PFInfo>>, Seq<Option<PFInfo>>)) -> (
    Seq<Option<PFInfo>>,
    Seq<Option<PFInfo>>,
) {
    let (fin, bnd) = st;
    match best_upto(bnd, bnd.len() as int) {
        None => st,
        Some(c) => {
            let fin2 = fin.update(c, bnd[c]);
            (fin2, relax(g, fin2, bnd.update(c, None), c, g.nbrs(c).len() as int))
        },
    }
}

/// At most `fuel` steps of the search, stopping once the boundary is empty.
pub open spec fn search_run(g: Graph, st: (Seq<Option<PFInfo>>, Seq<Option<PFInfo>>), fuel: nat) -> (
    Seq<Option<PFInfo>>,
    Seq<Option<PFInfo>>,
)
    decreases fuel,
{
    if fuel == 0 || best_upto(st.1, st.1.len() as int) is None {
        st
    } else {
        search_run(g, search_step(g, st), (fuel - 1) as nat)
    }
}

/// The search starts with nothing finished and the start node on the boundary.
pub open spec fn search_start(g: Graph, si: int) -> (Seq<Option<PFInfo>>, Seq<Option<PFInfo>>) {
    let none = Seq::new(g.nodes@.len(), |i: int| None::<PFInfo>);
    (none, none.update(si, Some(PFInfo { cum: g.gw(si) as i64, dist: 0, prev: None })))
}

/// What the search from `si` finishes with; it ends within one step per node.
pub open spec fn search(g: Graph, si: int) -> Seq<Option<PFInfo>> {
    search_run(g, search_start(g, si), g.nodes@.len() + 1).0
}

/// The nodes from `v` back along the nodes before, at most `k` steps.
pub open spec fn back_chain(fin: Seq<Option<PFInfo>>, v: int, k: nat) -> Seq<usize>
    decreases k,
{
    if k == 0 || fin[v]->0.prev is None {
        seq![v as usize]
    } else {
        seq![v as usize] + back_chain(fin, fin[v]->0.prev->0 as int, (k - 1) as nat)
    }
}

/// The path that the search from `si` finds to its best finished node.
pub open spec fn path_to_best(g: Graph, si: int) -> Seq<usize> {
    let fin = search(g, si);
    let b = best_upto(fin, fin.len() as int)->0;
    back_chain(fin, b, fin[b]->0.dist as nat).reverse()
}


/// The number of entries present.
pub open spec fn count_some(s: Seq<Option<PFInfo>>) -> nat
    decreases s.len(),
{
    if s.len() == 0 {
        0
    } else {
        count_some(s.drop_last()) + (if s.last() is Some { 1nat } else { 0nat })
    }
}

/// The entry `p` of node `v` in a search from `si`: a path of `p.dist` steps from `si`
/// whose node before `v` is finished one step closer, with `p.cum` its gateway links.
pub open spec fn entry_ok(g: Graph, si: int, fin: Seq<Option<PFInfo>>, v: int, p: PFInfo) -> bool {
    &&& p.prev is None ==> v == si && p.dist == 0 && p.cum == g.gw(si)
    &&& p.prev matches Some(u) ==> {
        &&& u < fin.len()
        &&& fin[u as int] is Some
        &&& fin[u as int]->0.dist + 1 == p.dist
        &&& g.nbrs(u as int).contains(v as usize)
        &&& p.cum == fin[u as int]->0.cum + g.gw(v)
    }
    &&& -(p.dist + 1) * 0x8000_0000 <= p.cum <= (p.dist + 1) * 0x8000_0000
}

/// The state (finished, boundary) of a search from `si`: a node is on the boundary or
/// finished, not both; each entry is a path from `si` through finished nodes, no longer
/// than the number of nodes finished; `si` is on the boundary or finished.
pub open spec fn search_ok(g: Graph, si: int, fin: Seq<Option<PFInfo>>, bnd: Seq<Option<PFInfo>>) -> bool {
    &&& fin.len() == g.nodes@.len()
    &&& bnd.len() == g.nodes@.len()
    &&& 0 <= si < g.nodes@.len()
    &&& fin[si] is Some || bnd[si] is Some
    &&& forall|v: int|
        0 <= v < bnd.len() && #[trigger] bnd[v] is Some ==> fin[v] is None && entry_ok(g, si, fin, v, bnd[v]->0)
            && bnd[v]->0.dist <= count_some(fin)
    &&& forall|v: int|
        0 <= v < fin.len() && #[trigger] fin[v] is Some ==> entry_ok(g, si, fin, v, fin[v]->0) && fin[v]->0.dist
            < count_some(fin)
}

/// Replacing one entry changes the count by what left and what came.
proof fn lemma_count_update(s: Seq<Option<PFInfo>>, i: int, x: Option<PFInfo>)
    requires
        0 <= i < s.len(),
    ensures
        count_some(s.update(i, x)) + (if s[i] is Some { 1int } else { 0int }) == count_some(s) + (if x is Some {
            1int
        } else {
            0int
        }),
    decreases s.len(),
{
    let t = s.update(i, x);
    if i < s.len() - 1 {
        assert(t.drop_last() =~= s.drop_last().update(i, x));
        lemma_count_update(s.drop_last(), i, x);
    } else {
        assert(t.drop_last() =~= s.drop_last());
    }
}

/// No more entries than places.
proof fn lemma_count_le(s: Seq<Option<PFInfo>>)
    ensures
        count_some(s) <= s.len(),
    decreases s.len(),
{
    if s.len() > 0 {
        lemma_count_le(s.drop_last());
    }
}

/// The best entry is present, and there is one exactly when some entry is present.
proof fn lemma_best_upto(s: Seq<Option<PFInfo>>, k: int)
    requires
        0 <= k <= s.len(),
    ensures
        best_upto(s, k) matches Some(i) ==> 0 <= i < k && s[i] is Some,
        best_upto(s, k) is None <==> forall|j: int| 0 <= j < k ==> #[trigger] s[j] is None,
    decreases k,
{
    if k > 0 {
        lemma_best_upto(s, k - 1);
        if best_upto(s, k) is None {
            assert forall|j: int| 0 <= j < k implies #[trigger] s[j] is None by {
                if j < k - 1 {
                    assert(best_upto(s, k - 1) is None);
                }
            }
        }
    }
}

/// What reaching the neighbours of `c` does to the boundary.
proof fn lemma_relax(g: Graph, fin: Seq<Option<PFInfo>>, bnd: Seq<Option<PFInfo>>, c: int, k: int)
    requires
        0 <= k <= g.nbrs(c).len(),
        0 <= c < g.nodes@.len(),
        g.nodes@.len() <= usize::MAX,
        g.wf(),
        fin.len() == g.nodes@.len(),
        bnd.len() == g.nodes@.len(),
    ensures
        relax(g, fin, bnd, c, k).len() == bnd.len(),
        forall|v: int|
            0 <= v < bnd.len() ==> #[trigger] relax(g, fin, bnd, c, k)[v] == (if fin[v] is None && g.nbrs(c).take(
                k,
            ).contains(v as usize) {
                Some(reached(g, fin, c, v))
            } else {
                bnd[v]
            }),
    decreases k,
{
    if k > 0 {
        lemma_relax(g, fin, bnd, c, k - 1);
        let nb = g.nbrs(c)[k - 1];
        assert(nb < g.nodes@.len());
        assert(g.nbrs(c).take(k) =~= g.nbrs(c).take(k - 1).push(nb));
        assert forall|v: int| 0 <= v < bnd.len() implies #[trigger] relax(g, fin, bnd, c, k)[v] == (if fin[v] is None
            && g.nbrs(c).take(k).contains(v as usize) {
            Some(reached(g, fin, c, v))
        } else {
            bnd[v]
        }) by {
            broadcast use vstd::seq_lib::lemma_seq_contains_after_push;
            assert(relax(g, fin, bnd, c, k - 1)[v] == (if fin[v] is None && g.nbrs(c).take(k - 1).contains(v as usize) {
                Some(reached(g, fin, c, v))
            } else {
                bnd[v]
            }));
        }
    }
}


/// An entry stays sound while the finished entries it rests on stay.
proof fn lemma_entry_grow(
    g: Graph,
    si: int,
    fin: Seq<Option<PFInfo>>,
    fin2: Seq<Option<PFInfo>>,
    v: int,
    p: PFInfo,
)
    requires
        entry_ok(g, si, fin, v, p),
        fin2.len() == fin.len(),
        forall|u: int| 0 <= u < fin.len() && #[trigger] fin[u] is Some ==> fin2[u] == fin[u],
    ensures
        entry_ok(g, si, fin2, v, p),
{
    if let Some(u) = p.prev {
        assert(fin[u as int] is Some);
    }
}

/// Nothing is present in a sequence of absent entries.
proof fn lemma_count_none(n: nat)
    ensures
        count_some(Seq::new(n, |i: int| None::<PFInfo>)) == 0,
    decreases n,
{
    if n > 0 {
        assert(Seq::new(n, |i: int| None::<PFInfo>).drop_last() =~= Seq::new((n - 1) as nat, |i: int| None::<PFInfo>));
        lemma_count_none((n - 1) as nat);
    }
}

/// The search starts sound.
proof fn lemma_start_ok(g: Graph, si: int)
    requires
        0 <= si < g.nodes@.len(),
    ensures
        search_ok(g, si, search_start(g, si).0, search_start(g, si).1),
        count_some(search_start(g, si).0) == 0,
{
    lemma_count_none(g.nodes@.len());
}

/// A step of the search keeps its state sound and finishes one more node.
#[verifier::spinoff_prover]
#[verifier::rlimit(40)]
proof fn lemma_step_ok(g: Graph, si: int, fin: Seq<Option<PFInfo>>, bnd: Seq<Option<PFInfo>>)
    requires
        g.wf(),
        g.nodes@.len() < u32::MAX,
        search_ok(g, si, fin, bnd),
        best_upto(bnd, bnd.len() as int) is Some,
    ensures
        search_ok(g, si, search_step(g, (fin, bnd)).0, search_step(g, (fin, bnd)).1),
        count_some(search_step(g, (fin, bnd)).0) == count_some(fin) + 1,
{
    let n = bnd.len() as int;
    lemma_best_upto(bnd, n);
    let c = best_upto(bnd, n)->0;
    let p = bnd[c]->0;
    let fin2 = fin.update(c, bnd[c]);
    let bnd2 = bnd.update(c, None);
    let k = g.nbrs(c).len() as int;
    lemma_relax(g, fin2, bnd2, c, k);
    let bnd3 = relax(g, fin2, bnd2, c, k);
    assert(g.nbrs(c).take(k) =~= g.nbrs(c));
    let cnt = count_some(fin);
    lemma_count_update(fin, c, bnd[c]);
    lemma_count_le(fin2);
    assert(search_step(g, (fin, bnd)) == (fin2, bnd3));
    assert forall|u: int| 0 <= u < fin.len() && #[trigger] fin[u] is Some implies fin2[u] == fin[u] by {}
    assert forall|v: int| 0 <= v < n && #[trigger] fin2[v] is Some implies entry_ok(g, si, fin2, v, fin2[v]->0)
        && fin2[v]->0.dist < cnt + 1 by {
        if v == c {
            lemma_entry_grow(g, si, fin, fin2, c, p);
        } else {
            lemma_entry_grow(g, si, fin, fin2, v, fin[v]->0);
        }
    }
    assert forall|v: int| 0 <= v < n && #[trigger] bnd3[v] is Some implies fin2[v] is None && entry_ok(
        g,
        si,
        fin2,
        v,
        bnd3[v]->0,
    ) && bnd3[v]->0.dist <= cnt + 1 by {
        if fin2[v] is None && g.nbrs(c).contains(v as usize) {
            let q = reached(g, fin2, c, v);
            assert(bnd3[v] == Some(q));
            assert(p.dist <= cnt);
            assert(q.dist == p.dist + 1);
            assert(q.cum == p.cum + g.gw(v));
        } else {
            assert(bnd3[v] == bnd2[v]);
            assert(v != c);
            lemma_entry_grow(g, si, fin, fin2, v, bnd[v]->0);
        }
    }
}

/// The search stays sound, and within one step per node its boundary is empty.
proof fn lemma_run_ok(g: Graph, si: int, st: (Seq<Option<PFInfo>>, Seq<Option<PFInfo>>), fuel: nat)
    requires
        g.wf(),
        g.nodes@.len() < u32::MAX,
        search_ok(g, si, st.0, st.1),
        fuel + count_some(st.0) >= g.nodes@.len() + 1,
    ensures
        search_ok(g, si, search_run(g, st, fuel).0, search_run(g, st, fuel).1),
        best_upto(search_run(g, st, fuel).1, g.nodes@.len() as int) is None,
    decreases fuel,
{
    lemma_count_le(st.0);
    if best_upto(st.1, st.1.len() as int) is Some {
        lemma_step_ok(g, si, st.0, st.1);
        lemma_run_ok(g, si, search_step(g, st), (fuel - 1) as nat);
    }
}

/// Following the nodes before from a finished node leads back to the start, each node
/// a neighbour of the next.
proof fn lemma_back_chain(g: Graph, si: int, fin: Seq<Option<PFInfo>>, bnd: Seq<Option<PFInfo>>, v: int)
    requires
        search_ok(g, si, fin, bnd),
        g.nodes@.len() <= usize::MAX,
        0 <= v < fin.len(),
        fin[v] is Some,
    ensures
        ({
            let ch = back_chain(fin, v, fin[v]->0.dist as nat);
            &&& ch.len() == fin[v]->0.dist + 1
            &&& ch[0] == v
            &&& ch.last() == si
            &&& forall|i: int| 0 <= i < ch.len() ==> #[trigger] ch[i] < g.nodes@.len()
            &&& forall|i: int| 0 <= i < ch.len() - 1 ==> g.nbrs(ch[i + 1] as int).contains(#[trigger] ch[i])
        }),
    decreases fin[v]->0.dist,
{
    let p = fin[v]->0;
    assert(entry_ok(g, si, fin, v, p));
    if p.dist > 0 {
        let u = p.prev->0 as int;
        lemma_back_chain(g, si, fin, bnd, u);
        let rest = back_chain(fin, u, fin[u]->0.dist as nat);
        let ch = back_chain(fin, v, p.dist as nat);
        assert(ch == seq![v as usize] + rest);
        assert forall|i: int| 0 <= i < ch.len() - 1 implies g.nbrs(ch[i + 1] as int).contains(#[trigger] ch[i]) by {
            if i > 0 {
                assert(ch[i] == rest[i - 1]);
                assert(ch[i + 1] == rest[i]);
            }
        }
    }
}

/// A walk read backwards is a walk the other way.
proof fn lemma_reverse_walk(g: Graph, ch: Seq<usize>)
    requires
        ch.len() >= 1,
        forall|i: int| 0 <= i < ch.len() ==> #[trigger] ch[i] < g.nodes@.len(),
        forall|i: int| 0 <= i < ch.len() - 1 ==> g.nbrs(ch[i + 1] as int).contains(#[trigger] ch[i]),
    ensures
        ch.reverse().len() == ch.len(),
        ch.reverse()[0] == ch.last(),
        ch.reverse().last() == ch[0],
        forall|i: int| 0 <= i < ch.len() ==> #[trigger] ch.reverse()[i] < g.nodes@.len(),
        forall|i: int| 0 <= i < ch.len() - 1 ==> g.nbrs(ch.reverse()[i] as int).contains(#[trigger] ch.reverse()[i + 1]),
{
    let path = ch.reverse();
    assert forall|i: int| 0 <= i < path.len() implies #[trigger] path[i] < g.nodes@.len() by {
        assert(path[i] == ch[ch.len() - 1 - i]);
    }
    assert forall|i: int| 0 <= i < path.len() - 1 implies g.nbrs(path[i] as int).contains(#[trigger] path[i + 1]) by {
        let j = ch.len() - 2 - i;
        assert(path[i] == ch[j + 1]);
        assert(path[i + 1] == ch[j]);
    }
}

/// The path found by the search starts at the start node, ends at the best finished
/// node, and goes from each node to one of its neighbours.
pub proof fn lemma_path_to_best(g: Graph, si: int)
    requires
        g.wf(),
        0 <= si < g.nodes@.len(),
        g.nodes@.len() < u32::MAX,
    ensures
        ({
            let path = path_to_best(g, si);
            let fin = search(g, si);
            &&& path.len() >= 1
            &&& path[0] == si
            &&& best_upto(fin, fin.len() as int) == Some(path.last() as int)
            &&& forall|i: int| 0 <= i < path.len() ==> #[trigger] path[i] < g.nodes@.len()
            &&& forall|i: int| 0 <= i < path.len() - 1 ==> g.nbrs(path[i] as int).contains(#[trigger] path[i + 1])
        }),
{
    let n = g.nodes@.len();
    lemma_start_ok(g, si);
    lemma_run_ok(g, si, search_start(g, si), n + 1);
    let st = search_run(g, search_start(g, si), n + 1);
    let fin = st.0;
    assert(fin == search(g, si));
    assert(search_ok(g, si, fin, st.1));
    lemma_best_upto(st.1, n as int);
    assert(st.1[si] is None);
    lemma_best_upto(fin, n as int);
    assert(fin[si] is Some);
    let b = best_upto(fin, n as int)->0;
    lemma_back_chain(g, si, fin, st.1, b);
    let ch = back_chain(fin, b, fin[b]->0.dist as nat);
    lemma_reverse_walk(g, ch);
    assert(path_to_best(g, si) == ch.reverse());
}


/// An optional index as an optional integer.
pub open spec fn opt_int(o: Option<usize>) -> Option<int> {
    match o {
        Some(i) => Some(i as int),
        None => None,
    }
}

/// Whether `p` ranks below `q`.
fn is_below(p: &PFInfo, q: &PFInfo) -> (r: bool)
    ensures
        r == ranks_below(*p, *q),
{
    let pn: i128 = if p.dist == 0 { 0 } else { p.cum as i128 };
    let pd: i128 = if p.dist == 0 { 1 } else { p.dist as i128 };
    let qn: i128 = if q.dist == 0 { 0 } else { q.cum as i128 };
    let qd: i128 = if q.dist == 0 { 1 } else { q.dist as i128 };
    proof {
        assert(-0x8000_0000_0000_0000 * 0xffff_ffff_ffff_ffff <= pn * qd <= 0x8000_0000_0000_0000
            * 0xffff_ffff_ffff_ffff) by (nonlinear_arith)
            requires
                -0x8000_0000_0000_0000 <= pn <= 0x8000_0000_0000_0000,
                1 <= qd <= 0xffff_ffff_ffff_ffff,
        ;
        assert(-0x8000_0000_0000_0000 * 0xffff_ffff_ffff_ffff <= qn * pd <= 0x8000_0000_0000_0000
            * 0xffff_ffff_ffff_ffff) by (nonlinear_arith)
            requires
                -0x8000_0000_0000_0000 <= qn <= 0x8000_0000_0000_0000,
                1 <= pd <= 0xffff_ffff_ffff_ffff,
        ;
    }
    let l = pn * qd;
    let r = qn * pd;
    if l != r {
        l < r
    } else if p.cum != q.cum {
        p.cum < q.cum
    } else if p.dist != q.dist {
        p.dist < q.dist
    } else {
        match (p.prev, q.prev) {
            (None, Some(_)) => true,
            (Some(a), Some(b)) => a < b,
            _ => false,
        }
    }
}

/// The first of the highest-ranked entries present, if any.
fn best_entry(s: &Vec<Option<PFInfo>>) -> (r: Option<usize>)
    ensures
        opt_int(r) == best_upto(s@, s@.len() as int),
{
    let mut best: Option<usize> = None;
    let mut i: usize = 0;
    while i < s.len()
        invariant
            i <= s@.len(),
            opt_int(best) == best_upto(s@, i as int),
            best matches Some(b) ==> b < i && s@[b as int] is Some,
        decreases s@.len() - i,
    {
        if let Some(v) = &s[i] {
            match best {
                None => {
                    best = Some(i);
                },
                Some(b) => {
                    let bv = s[b].unwrap();
                    if is_below(&bv, v) {
                        best = Some(i);
                    }
                },
            }
        }
        i = i + 1;
    }
    best
}

/// Reaches each neighbour of the finished node `c` that is not finished from `c`,
/// replacing what the boundary held for it.
fn reach_nbrs(
    graph: &Graph,
    finished: &Vec<Option<PFInfo>>,
    boundary: &mut Vec<Option<PFInfo>>,
    c: usize,
    Ghost(si): Ghost<int>,
)
    requires
        graph.wf(),
        graph.nodes@.len() < u32::MAX,
        c < graph.nodes@.len(),
        finished@.len() == graph.nodes@.len(),
        old(boundary)@.len() == graph.nodes@.len(),
        finished@[c as int] is Some,
        search_ok(
            *graph,
            si,
            finished@,
            relax(*graph, finished@, old(boundary)@, c as int, graph.nbrs(c as int).len() as int),
        ),
    ensures
        final(boundary)@ == relax(*graph, finished@, old(boundary)@, c as int, graph.nbrs(c as int).len() as int),
{
    let ghost g = *graph;
    let ghost fin = finished@;
    let ghost bnd = boundary@;
    let ghost full = relax(g, fin, bnd, c as int, g.nbrs(c as int).len() as int);
    proof {
        lemma_relax(g, fin, bnd, c as int, g.nbrs(c as int).len() as int);
        assert(g.nbrs(c as int).take(g.nbrs(c as int).len() as int) =~= g.nbrs(c as int));
    }
    let cur = finished[c].unwrap();
    let nbrs = &graph.nodes[c].nbrs;
    let mut k: usize = 0;
    while k < nbrs.len()
        invariant
            g == *graph,
            g.wf(),
            g.nodes@.len() < u32::MAX,
            c < g.nodes@.len(),
            *nbrs == g.nodes@[c as int].nbrs,
            k <= nbrs@.len(),
            boundary@.len() == g.nodes@.len(),
            fin == finished@,
            fin.len() == g.nodes@.len(),
            bnd.len() == g.nodes@.len(),
            fin[c as int] == Some(cur),
            boundary@ == relax(g, fin, bnd, c as int, k as int),
            search_ok(g, si, fin, full),
            forall|v: int| 0 <= v < bnd.len() ==> #[trigger] full[v] == (if fin[v] is None && g.nbrs(c as int).contains(
                v as usize,
            ) {
                Some(reached(g, fin, c as int, v))
            } else {
                bnd[v]
            }),
        decreases nbrs@.len() - k,
    {
        let nb = nbrs[k];
        proof {
            assert(g.nbrs(c as int)[k as int] == nb);
            assert(nb < g.nodes@.len());
        }
        if finished[nb].is_none() {
            proof {
                assert(g.nbrs(c as int).contains(nb));
                assert(full[nb as int] == Some(reached(g, fin, c as int, nb as int)));
                assert(entry_ok(g, si, fin, nb as int, full[nb as int]->0));
            }
            let ncum = cur.cum + graph.nodes[nb].gwlinks as i64;
            let ndist = cur.dist + 1;
            boundary.set(nb, Some(PFInfo { cum: ncum, dist: ndist, prev: Some(c) }));
        }
        k = k + 1;
    }
}

/// The finished entries of the search from `si`.
fn search_from(si: usize, graph: &Graph) -> (finished: Vec<Option<PFInfo>>)
    requires
        graph.wf(),
        si < graph.nodes@.len(),
        graph.nodes@.len() < u32::MAX,
    ensures
        finished@ == search(*graph, si as int),
{
    let ghost g = *graph;
    let n = graph.nodes.len();
    let mut boundary: Vec<Option<PFInfo>> = Vec::new();
    let mut finished: Vec<Option<PFInfo>> = Vec::new();
    let mut i: usize = 0;
    while i < n
        invariant
            i <= n,
            boundary@ == Seq::new(i as nat, |j: int| None::<PFInfo>),
            finished@ == Seq::new(i as nat, |j: int| None::<PFInfo>),
        decreases n - i,
    {
        boundary.push(None);
        finished.push(None);
        i = i + 1;
    }
    boundary.set(si, Some(PFInfo { cum: graph.nodes[si].gwlinks as i64, dist: 0, prev: None }));
    proof {
        assert((finished@, boundary@) == search_start(g, si as int));
        lemma_start_ok(g, si as int);
    }
    let mut next = best_entry(&boundary);
    while next.is_some()
        invariant
            g == *graph,
            n == g.nodes@.len(),
            g.wf(),
            g.nodes@.len() < u32::MAX,
            search_ok(g, si as int, finished@, boundary@),
            count_some(finished@) <= n,
            search_run(g, (finished@, boundary@), (n + 1 - count_some(finished@)) as nat) == search_run(
                g,
                search_start(g, si as int),
                (n + 1) as nat,
            ),
            opt_int(next) == best_upto(boundary@, boundary@.len() as int),
        decreases n - count_some(finished@),
    {
        let c = next.unwrap();
        let ghost st = (finished@, boundary@);
        proof {
            lemma_best_upto(boundary@, n as int);
            lemma_step_ok(g, si as int, finished@, boundary@);
        }
        let val = boundary[c];
        boundary.set(c, None);
        finished.set(c, val);
        proof {
            lemma_count_le(finished@);
            assert(search_step(g, st).0 == finished@);
        }
        reach_nbrs(graph, &finished, &mut boundary, c, Ghost(si as int));
        proof {
            assert(search_step(g, st).1 == boundary@);
            lemma_count_le(finished@);
        }
        next = best_entry(&boundary);
    }
    proof {
        assert(search_run(g, (finished@, boundary@), (n + 1 - count_some(finished@)) as nat) == (finished@, boundary@));
    }
    finished
}

/// The nodes from the finished node `b` back along the nodes before to the start.
fn walk_back(
    graph: &Graph,
    finished: &Vec<Option<PFInfo>>,
    b: usize,
    Ghost(si): Ghost<int>,
    Ghost(bnd): Ghost<Seq<Option<PFInfo>>>,
) -> (rev: Vec<usize>)
    requires
        search_ok(*graph, si, finished@, bnd),
        b < graph.nodes@.len(),
        finished@[b as int] is Some,
    ensures
        rev@ == back_chain(finished@, b as int, finished@[b as int]->0.dist as nat),
{
    let ghost g = *graph;
    let n = graph.nodes.len();
    let ghost fin = finished@;
    let ghost db = fin[b as int]->0.dist as nat;
    let mut rev: Vec<usize> = Vec::new();
    rev.push(b);
    let mut cur = b;
    let mut p = finished[cur].unwrap().prev;
    while p.is_some()
        invariant
            fin == finished@,
            search_ok(g, si, fin, bnd),
            g == *graph,
            n == g.nodes@.len(),
            cur < n,
            fin[cur as int] is Some,
            p == fin[cur as int]->0.prev,
            back_chain(fin, b as int, db) == rev@ + back_chain(fin, cur as int, fin[cur as int]->0.dist as nat).drop_first(),
        decreases fin[cur as int]->0.dist,
    {
        let u = p.unwrap();
        proof {
            assert(entry_ok(g, si, fin, cur as int, fin[cur as int]->0));
            let d = fin[cur as int]->0.dist as nat;
            assert(back_chain(fin, cur as int, d) == seq![cur] + back_chain(fin, u as int, (d - 1) as nat));
            assert(back_chain(fin, u as int, (d - 1) as nat) == seq![u] + back_chain(fin, u as int, (d - 1) as nat).drop_first());
            assert(rev@.push(u) + back_chain(fin, u as int, (d - 1) as nat).drop_first() =~= rev@ + back_chain(fin, u as int, (d - 1) as nat));
        }
        rev.push(u);
        cur = u;
        p = finished[cur].unwrap().prev;
    }
    proof {
        assert(back_chain(fin, cur as int, fin[cur as int]->0.dist as nat) == seq![cur]);
        assert(rev@ =~= back_chain(fin, b as int, db));
    }
    rev
}

/// The path from `si` to the node that a best-first search finishes highest, where a
/// path ranks by the mean of the gateway links of its nodes per step; of equally
/// ranked candidates the lowest node is taken.
pub fn generate_path(si: usize, graph: &Graph) -> (path: Vec<usize>)
    requires
        graph.wf(),
        si < graph.nodes@.len(),
        graph.nodes@.len() < u32::MAX,
    ensures
        path@ == path_to_best(*graph, si as int),
{
    let ghost g = *graph;
    let n = graph.nodes.len();
    let finished = search_from(si, graph);
    let ghost fin = finished@;
    let ghost bnd = search_run(g, search_start(g, si as int), (n + 1) as nat).1;
    proof {
        // the search ends with its boundary empty, so the start is finished
        lemma_start_ok(g, si as int);
        lemma_run_ok(g, si as int, search_start(g, si as int), (n + 1) as nat);
        lemma_best_upto(bnd, n as int);
        assert(bnd[si as int] is None);
        lemma_best_upto(fin, n as int);
    }
    let b = best_entry(&finished).unwrap();
    let rev = walk_back(graph, &finished, b, Ghost(si as int), Ghost(bnd));
    let mut path: Vec<usize> = Vec::new();
    let mut j: usize = rev.len();
    while j > 0
        invariant
            j <= rev@.len(),
            path@ == Seq::new((rev@.len() - j) as nat, |t: int| rev@[rev@.len() - 1 - t]),
        decreases j,
    {
        j = j - 1;
        path.push(rev[j]);
    }
    proof {
        assert(path@ =~= rev@.reverse());
    }
    path
}


/// The number of times `v` occurs in `s`.
pub open spec fn count_in(s: Seq<usize>, v: usize) -> nat
    decreases s.len(),
{
    if s.len() == 0 {
        0
    } else {
        count_in(s.drop_last(), v) + (if s.last() == v { 1nat } else { 0nat })
    }
}

/// How many times `v` is listed as a neighbour of the gateways among the first `k` nodes.
pub open spec fn gateway_links(g: Graph, is_gw: Seq<bool>, v: usize, k: int) -> nat
    decreases k,
{
    if k <= 0 {
        0
    } else {
        gateway_links(g, is_gw, v, k - 1) + (if is_gw[k - 1] { count_in(g.nbrs(k - 1), v) } else { 0nat })
    }
}

/// `s` without the occurrences of `v`, in order.
pub open spec fn without(s: Seq<usize>, v: usize) -> Seq<usize>
    decreases s.len(),
{
    if s.len() == 0 {
        Seq::empty()
    } else {
        let r = without(s.drop_last(), v);
        if s.last() == v {
            r
        } else {
            r.push(s.last())
        }
    }
}

/// The index of the first node of `path` among its first `k` with the most gateway links.
pub open spec fn target_index(g: Graph, path: Seq<usize>, k: int) -> int
    decreases k,
{
    if k <= 1 {
        0
    } else {
        let r = target_index(g, path, k - 1);
        if g.gw(path[k - 1] as int) > g.gw(path[r] as int) {
            k - 1
        } else {
            r
        }
    }
}

/// The first neighbour of `v` that is a gateway, in the order of its neighbours.
pub open spec fn first_gateway(g: Graph, is_gw: Seq<bool>, v: int, k: int) -> Option<usize>
    decreases k,
{
    if k <= 0 {
        None
    } else {
        match first_gateway(g, is_gw, v, k - 1) {
            Some(w) => Some(w),
            None => if is_gw[g.nbrs(v)[k - 1] as int] {
                Some(g.nbrs(v)[k - 1])
            } else {
                None
            },
        }
    }
}

/// The gateway next to node `v`, if any.
pub open spec fn gateway_of(g: Graph, is_gw: Seq<bool>, v: int) -> Option<usize> {
    first_gateway(g, is_gw, v, g.nbrs(v).len() as int)
}

/// The node whose link to a gateway is cut when the agent stands on `si`: `si` itself
/// when it is next to a gateway, else the first node of the path found from `si` with
/// the most gateway links.
pub open spec fn target_for(g: Graph, is_gw: Seq<bool>, si: int) -> usize {
    if gateway_of(g, is_gw, si) is Some {
        si as usize
    } else {
        let path = path_to_best(g, si);
        path[target_index(g, path, path.len() as int)]
    }
}

/// The link (gateway, node) cut when the agent stands on `si`; none when the node
/// chosen has no gateway next to it.
pub open spec fn cut_for(g: Graph, is_gw: Seq<bool>, si: int) -> Option<(usize, usize)> {
    let t = target_for(g, is_gw, si);
    match gateway_of(g, is_gw, t as int) {
        Some(w) => Some((w, t)),
        None => None,
    }
}

/// Each node lists its neighbours once each, and each of them lists it back.
pub open spec fn links_mutual(g: Graph) -> bool {
    &&& forall|i: int| 0 <= i < g.nodes@.len() ==> #[trigger] g.nbrs(i).no_duplicates()
    &&& forall|i: int, v: usize|
        0 <= i < g.nodes@.len() && #[trigger] g.nbrs(i).contains(v) ==> v < g.nodes@.len() && g.nbrs(v as int).contains(
            i as usize,
        )
}

/// The number of gateways among the first `k` nodes that are neighbours of `v`.
pub open spec fn gateway_nbrs(g: Graph, is_gw: Seq<bool>, v: int, k: int) -> nat
    decreases k,
{
    if k <= 0 {
        0
    } else {
        gateway_nbrs(g, is_gw, v, k - 1) + (if is_gw[k - 1] && g.nbrs(v).contains((k - 1) as usize) {
            1nat
        } else {
            0nat
        })
    }
}

/// In a list without repeats, a value occurs once or not at all.
proof fn lemma_count_in_once(s: Seq<usize>, v: usize)
    requires
        s.no_duplicates(),
    ensures
        count_in(s, v) == (if s.contains(v) { 1nat } else { 0nat }),
    decreases s.len(),
{
    broadcast use vstd::seq_lib::lemma_seq_contains_after_push;
    if s.len() > 0 {
        let t = s.drop_last();
        assert(t.no_duplicates()) by {
            assert forall|i: int, j: int| 0 <= i < t.len() && 0 <= j < t.len() && i != j implies t[i] != t[j] by {
                assert(t[i] == s[i] && t[j] == s[j]);
            }
        }
        lemma_count_in_once(t, v);
        assert(s =~= t.push(s.last()));
        if s.last() == v && t.contains(v) {
            let i = choose|i: int| 0 <= i < t.len() && t[i] == v;
            assert(s[i] == s[s.len() - 1]);
        }
    }
}

/// On a network whose links are mutual, a node is counted at most once per gateway:
/// the gateway links counted over the first `k` nodes are at most `k`.
pub proof fn lemma_gateway_links_bound(g: Graph, is_gw: Seq<bool>, v: usize, k: int)
    requires
        links_mutual(g),
        0 <= k <= g.nodes@.len(),
    ensures
        gateway_links(g, is_gw, v, k) <= k,
    decreases k,
{
    if k > 0 {
        lemma_gateway_links_bound(g, is_gw, v, k - 1);
        lemma_count_in_once(g.nbrs(k - 1), v);
    }
}

/// On a network whose links are mutual, the gateway links counted for a node are its
/// gateway neighbours.
pub proof fn lemma_gateway_links_are_neighbours(g: Graph, is_gw: Seq<bool>, v: int, k: int)
    requires
        links_mutual(g),
        0 <= v < g.nodes@.len(),
        0 <= k <= g.nodes@.len(),
        g.nodes@.len() <= usize::MAX,
    ensures
        gateway_links(g, is_gw, v as usize, k) == gateway_nbrs(g, is_gw, v, k),
    decreases k,
{
    if k > 0 {
        lemma_gateway_links_are_neighbours(g, is_gw, v, k - 1);
        let u = k - 1;
        lemma_count_in_once(g.nbrs(u), v as usize);
        if g.nbrs(u).contains(v as usize) {
            assert(g.nbrs(v).contains(u as usize));
        }
        if g.nbrs(v).contains(u as usize) {
            assert(g.nbrs(u).contains(v as usize));
        }
    }
}

impl Graph {
    /// A network of `n` nodes and no links.
    pub fn with_nodes(n: usize) -> (g: Self)
        ensures
            g.wf(),
            links_mutual(g),
            g.nodes@.len() == n,
            forall|i: int| 0 <= i < n ==> (#[trigger] g.nbrs(i)) == Seq::<usize>::empty() && g.gw(i) == 0,
    {
        let mut nodes: Vec<NodeInfo> = Vec::new();
        let mut i: usize = 0;
        while i < n
            invariant
                i <= n,
                nodes@.len() == i,
                forall|j: int| 0 <= j < i ==> (#[trigger] nodes@[j]).nbrs@ == Seq::<usize>::empty() && nodes@[j].gwlinks
                    == 0,
            decreases n - i,
        {
            nodes.push(NodeInfo { nbrs: Vec::new(), gwlinks: 0 });
            i = i + 1;
        }
        let g = Graph { nodes };
        proof {
            assert forall|i: int| 0 <= i < g.nodes@.len() implies #[trigger] g.nbrs(i).no_duplicates() by {
                assert(g.nbrs(i) == Seq::<usize>::empty());
            }
        }
        g
    }

    /// Adds `v` to the neighbours of `u` unless it is there.
    fn insert_nbr(&mut self, u: usize, v: usize)
        requires
            old(self).wf(),
            u < old(self).nodes@.len(),
            v < old(self).nodes@.len(),
        ensures
            final(self).wf(),
            final(self).nodes@.len() == old(self).nodes@.len(),
            final(self).nbrs(u as int) == (if old(self).nbrs(u as int).contains(v) {
                old(self).nbrs(u as int)
            } else {
                old(self).nbrs(u as int).push(v)
            }),
            final(self).gw(u as int) == old(self).gw(u as int),
            forall|i: int| 0 <= i < old(self).nodes@.len() && i != u ==> #[trigger] final(self).nodes@[i] == old(self).nodes@[i],
    {
        let mut found = false;
        let mut k: usize = 0;
        while k < self.nodes[u].nbrs.len()
            invariant
                u < self.nodes@.len(),
                k <= self.nbrs(u as int).len(),
                found == self.nbrs(u as int).take(k as int).contains(v),
            decreases self.nbrs(u as int).len() - k,
        {
            proof {
                assert(self.nbrs(u as int).take(k + 1) =~= self.nbrs(u as int).take(k as int).push(self.nbrs(u as int)[k as int]));
                broadcast use vstd::seq_lib::lemma_seq_contains_after_push;
            }
            if self.nodes[u].nbrs[k] == v {
                found = true;
            }
            k = k + 1;
        }
        proof {
            assert(self.nbrs(u as int).take(self.nbrs(u as int).len() as int) =~= self.nbrs(u as int));
        }
        if !found {
            let ghost old_g = *self;
            let mut nbrs = self.nodes[u].nbrs.clone();
            nbrs.push(v);
            self.nodes[u].nbrs = nbrs;
            proof {
                assert forall|i: int, k2: int| 0 <= i < self.nodes@.len() && 0 <= k2 < self.nbrs(i).len() implies #[trigger] self.nbrs(i)[k2]
                    < self.nodes@.len() by {
                    if i != u || k2 < old_g.nbrs(u as int).len() {
                        assert(old_g.nbrs(i)[k2] < old_g.nodes@.len());
                    }
                }
            }
        }
    }

    /// Links nodes `n1` and `n2`, each listing the other once.
    pub fn add_link(&mut self, n1: usize, n2: usize)
        requires
            old(self).wf(),
            n1 < old(self).nodes@.len(),
            n2 < old(self).nodes@.len(),
        ensures
            final(self).wf(),
            final(self).nodes@.len() == old(self).nodes@.len(),
            final(self).nbrs(n1 as int).contains(n2),
            final(self).nbrs(n2 as int).contains(n1),
            forall|i: int, v: usize|
                0 <= i < old(self).nodes@.len() ==> (#[trigger] final(self).nbrs(i).contains(v) <==> (old(self).nbrs(i).contains(v)
                    || (i == n1 && v == n2) || (i == n2 && v == n1))),
            forall|i: int| 0 <= i < old(self).nodes@.len() ==> #[trigger] final(self).gw(i) == old(self).gw(i),
            links_mutual(*old(self)) ==> links_mutual(*final(self)),
    {
        let ghost g0 = *self;
        self.insert_nbr(n1, n2);
        let ghost g1 = *self;
        self.insert_nbr(n2, n1);
        proof {
            broadcast use vstd::seq_lib::lemma_seq_contains_after_push;
            assert forall|i: int, v: usize| 0 <= i < g0.nodes@.len() implies (#[trigger] self.nbrs(i).contains(v) <==> (
            g0.nbrs(i).contains(v) || (i == n1 && v == n2) || (i == n2 && v == n1))) by {
                if i != n1 {
                    assert(g1.nodes@[i] == g0.nodes@[i]);
                }
                if i != n2 {
                    assert(self.nodes@[i] == g1.nodes@[i]);
                }
            }
            if links_mutual(g0) {
                assert forall|i: int| 0 <= i < self.nodes@.len() implies #[trigger] self.nbrs(i).no_duplicates() by {
                    assert(g0.nbrs(i).no_duplicates());
                    if i != n1 {
                        assert(g1.nodes@[i] == g0.nodes@[i]);
                    }
                    if i != n2 {
                        assert(self.nodes@[i] == g1.nodes@[i]);
                    }
                    if i == n1 && !g0.nbrs(i).contains(n2) {
                        assert(g1.nbrs(i) == g0.nbrs(i).push(n2));
                    }
                    if i == n2 && !g1.nbrs(i).contains(n1) {
                        assert(self.nbrs(i) == g1.nbrs(i).push(n1));
                        assert(g1.nbrs(i).no_duplicates()) by {
                            if i != n1 {
                                assert(g1.nodes@[i] == g0.nodes@[i]);
                            } else if !g0.nbrs(i).contains(n2) {
                                assert(g1.nbrs(i) == g0.nbrs(i).push(n2));
                            }
                        }
                    }
                }
                assert forall|i: int, v: usize| 0 <= i < self.nodes@.len() && #[trigger] self.nbrs(i).contains(v) implies v
                    < self.nodes@.len() && self.nbrs(v as int).contains(i as usize) by {
                    if g0.nbrs(i).contains(v) {
                        assert(g0.nbrs(v as int).contains(i as usize));
                    }
                }
            }
            assert forall|i: int| 0 <= i < g0.nodes@.len() implies #[trigger] self.gw(i) == g0.gw(i) by {
                if i != n1 {
                    assert(g1.nodes@[i] == g0.nodes@[i]);
                }
                if i != n2 {
                    assert(self.nodes@[i] == g1.nodes@[i]);
                }
            }
        }
    }
}

/// Marks the gateways of a network of `n` nodes.
pub fn gateway_flags(n: usize, gateways: &[usize]) -> (is_gw: Vec<bool>)
    requires
        forall|k: int| 0 <= k < gateways@.len() ==> #[trigger] gateways@[k] < n,
    ensures
        is_gw@.len() == n,
        forall|i: int| 0 <= i < n ==> #[trigger] is_gw@[i] == gateways@.contains(i as usize),
{
    let mut is_gw: Vec<bool> = Vec::new();
    let mut i: usize = 0;
    while i < n
        invariant
            i <= n,
            is_gw@ == Seq::new(i as nat, |j: int| false),
        decreases n - i,
    {
        is_gw.push(false);
        i = i + 1;
    }
    let mut k: usize = 0;
    while k < gateways.len()
        invariant
            k <= gateways@.len(),
            is_gw@.len() == n,
            forall|k2: int| 0 <= k2 < gateways@.len() ==> #[trigger] gateways@[k2] < n,
            forall|j: int| 0 <= j < n ==> #[trigger] is_gw@[j] == gateways@.take(k as int).contains(j as usize),
        decreases gateways@.len() - k,
    {
        proof {
            assert(gateways@.take(k + 1) =~= gateways@.take(k as int).push(gateways@[k as int]));
            broadcast use vstd::seq_lib::lemma_seq_contains_after_push;
        }
        is_gw.set(gateways[k], true);
        k = k + 1;
    }
    proof {
        assert(gateways@.take(gateways@.len() as int) =~= gateways@);
    }
    is_gw
}


/// A prefix holds no more occurrences than the whole.
proof fn lemma_count_in_take(s: Seq<usize>, v: usize, k: int)
    requires
        0 <= k <= s.len(),
    ensures
        count_in(s.take(k), v) <= count_in(s, v),
    decreases s.len(),
{
    if k < s.len() {
        assert(s.take(k) =~= s.drop_last().take(k));
        lemma_count_in_take(s.drop_last(), v, k);
    } else {
        assert(s.take(k) =~= s);
    }
}

/// The gateway links counted over more nodes are no fewer.
proof fn lemma_gateway_links_mono(g: Graph, is_gw: Seq<bool>, v: usize, k1: int, k2: int)
    requires
        k1 <= k2,
    ensures
        gateway_links(g, is_gw, v, k1) <= gateway_links(g, is_gw, v, k2),
    decreases k2 - k1,
{
    if k1 < k2 {
        lemma_gateway_links_mono(g, is_gw, v, k1, k2 - 1);
    }
}

impl Graph {
    /// Counts, for each node, how many times the gateways list it as a neighbour.
    pub fn count_gateway_links(&mut self, is_gw: &Vec<bool>)
        requires
            old(self).wf(),
            is_gw@.len() == old(self).nodes@.len(),
            forall|v: int|
                0 <= v < old(self).nodes@.len() ==> old(self).gw(v) + gateway_links(
                    *old(self),
                    is_gw@,
                    v as usize,
                    old(self).nodes@.len() as int,
                ) <= i32::MAX,
        ensures
            final(self).wf(),
            final(self).nodes@.len() == old(self).nodes@.len(),
            forall|i: int| 0 <= i < old(self).nodes@.len() ==> #[trigger] final(self).nbrs(i) == old(self).nbrs(i),
            forall|v: int|
                0 <= v < old(self).nodes@.len() ==> #[trigger] final(self).gw(v) == old(self).gw(v) + gateway_links(
                    *old(self),
                    is_gw@,
                    v as usize,
                    old(self).nodes@.len() as int,
                ),
    {
        let ghost g0 = *self;
        let n = self.nodes.len();
        let mut u: usize = 0;
        while u < n
            invariant
                n == g0.nodes@.len(),
                g0.wf(),
                is_gw@.len() == n,
                u <= n,
                self.nodes@.len() == n,
                forall|i: int| 0 <= i < n ==> #[trigger] self.nbrs(i) == g0.nbrs(i),
                forall|v: int|
                    0 <= v < n ==> g0.gw(v) + gateway_links(g0, is_gw@, v as usize, n as int) <= i32::MAX,
                forall|v: int| 0 <= v < n ==> #[trigger] self.gw(v) == g0.gw(v) + gateway_links(g0, is_gw@, v as usize, u as int),
            decreases n - u,
        {
            if is_gw[u] {
                proof {
                    assert(self.nbrs(u as int) == g0.nbrs(u as int));
                }
                let m = self.nodes[u].nbrs.len();
                let mut k: usize = 0;
                while k < m
                    invariant
                        n == g0.nodes@.len(),
                        g0.wf(),
                        is_gw@.len() == n,
                        u < n,
                        is_gw@[u as int],
                        m == g0.nbrs(u as int).len(),
                        k <= m,
                        self.nodes@.len() == n,
                        forall|i: int| 0 <= i < n ==> #[trigger] self.nbrs(i) == g0.nbrs(i),
                        forall|v: int|
                            0 <= v < n ==> g0.gw(v) + gateway_links(g0, is_gw@, v as usize, n as int) <= i32::MAX,
                        forall|v: int|
                            0 <= v < n ==> #[trigger] self.gw(v) == g0.gw(v) + gateway_links(g0, is_gw@, v as usize, u as int)
                                + count_in(g0.nbrs(u as int).take(k as int), v as usize),
                    decreases m - k,
                {
                    proof {
                        assert(self.nbrs(u as int) == g0.nbrs(u as int));
                    }
                    let nb = self.nodes[u].nbrs[k];
                    proof {
                        let s = g0.nbrs(u as int);
                        assert(nb == s[k as int]);
                        assert(nb < n);
                        assert(s.take(k + 1).drop_last() =~= s.take(k as int));
                        lemma_count_in_take(s, nb, k + 1);
                        lemma_gateway_links_mono(g0, is_gw@, nb, u + 1, n as int);
                        assert(gateway_links(g0, is_gw@, nb, u + 1) == gateway_links(g0, is_gw@, nb, u as int) + count_in(s, nb));
                        assert(self.gw(nb as int) == g0.gw(nb as int) + gateway_links(g0, is_gw@, nb, u as int) + count_in(
                            s.take(k as int),
                            nb,
                        ));
                        assert(count_in(s.take(k + 1), nb) == count_in(s.take(k as int), nb) + 1);
                        assert(g0.gw(nb as int) + gateway_links(g0, is_gw@, nb, n as int) <= i32::MAX);
                    }
                    let ghost before = *self;
                    self.nodes[nb].gwlinks = self.nodes[nb].gwlinks + 1;
                    proof {
                        let s = g0.nbrs(u as int);
                        assert forall|i: int| 0 <= i < n implies #[trigger] self.nbrs(i) == g0.nbrs(i) by {
                            assert(before.nbrs(i) == g0.nbrs(i));
                        }
                        assert forall|v: int| 0 <= v < n implies #[trigger] self.gw(v) == g0.gw(v) + gateway_links(
                            g0,
                            is_gw@,
                            v as usize,
                            u as int,
                        ) + count_in(s.take(k + 1), v as usize) by {
                            assert(s.take(k + 1).drop_last() =~= s.take(k as int));
                            assert(before.gw(v) == g0.gw(v) + gateway_links(g0, is_gw@, v as usize, u as int) + count_in(
                                s.take(k as int),
                                v as usize,
                            ));
                        }
                    }
                    k = k + 1;
                }
                proof {
                    assert(g0.nbrs(u as int).take(m as int) =~= g0.nbrs(u as int));
                }
            }
            u = u + 1;
        }
        proof {
            assert forall|i: int, k: int| 0 <= i < self.nodes@.len() && 0 <= k < self.nbrs(i).len() implies #[trigger] self.nbrs(i)[k]
                < self.nodes@.len() by {
                assert(self.nbrs(i) == g0.nbrs(i));
            }
        }
    }
}

/// The index of the first of the nodes of `path` with the most gateway links is its
/// first maximum.
pub proof fn lemma_target_index(g: Graph, path: Seq<usize>, k: int)
    requires
        1 <= k <= path.len(),
    ensures
        0 <= target_index(g, path, k) < k,
        forall|j: int| 0 <= j < k ==> g.gw(#[trigger] path[j] as int) <= g.gw(path[target_index(g, path, k)] as int),
        forall|j: int| 0 <= j < target_index(g, path, k) ==> g.gw(#[trigger] path[j] as int) < g.gw(
            path[target_index(g, path, k)] as int,
        ),
    decreases k,
{
    if k > 1 {
        lemma_target_index(g, path, k - 1);
    }
}

/// The first node of a non-empty path with the most gateway links.
pub fn choose_target(path: &[usize], graph: &Graph) -> (t: usize)
    requires
        path@.len() >= 1,
        forall|i: int| 0 <= i < path@.len() ==> #[trigger] path@[i] < graph.nodes@.len(),
    ensures
        t == path@[target_index(*graph, path@, path@.len() as int)],
{
    let mut best: usize = 0;
    let mut i: usize = 1;
    while i < path.len()
        invariant
            1 <= i <= path@.len(),
            forall|j: int| 0 <= j < path@.len() ==> #[trigger] path@[j] < graph.nodes@.len(),
            best as int == target_index(*graph, path@, i as int),
            best < i,
        decreases path@.len() - i,
    {
        if graph.nodes[path[i]].gwlinks > graph.nodes[path[best]].gwlinks {
            best = i;
        }
        i = i + 1;
    }
    path[best]
}

/// Removing every occurrence leaves none.
pub proof fn lemma_without(s: Seq<usize>, v: usize)
    ensures
        forall|w: usize| #[trigger] without(s, v).contains(w) <==> (s.contains(w) && w != v),
        without(without(s, v), v) == without(s, v),
    decreases s.len(),
{
    broadcast use vstd::seq_lib::lemma_seq_contains_after_push;
    if s.len() > 0 {
        lemma_without(s.drop_last(), v);
        assert(s =~= s.drop_last().push(s.last()));
        let r = without(s.drop_last(), v);
        if s.last() != v {
            assert(r.push(s.last()).drop_last() =~= r);
        }
    }
}

/// `s` without the occurrences of `v`.
fn remove_value(s: &Vec<usize>, v: usize) -> (r: Vec<usize>)
    ensures
        r@ == without(s@, v),
{
    let mut r: Vec<usize> = Vec::new();
    let mut k: usize = 0;
    while k < s.len()
        invariant
            k <= s@.len(),
            r@ == without(s@.take(k as int), v),
        decreases s@.len() - k,
    {
        proof {
            assert(s@.take(k + 1).drop_last() =~= s@.take(k as int));
        }
        if s[k] != v {
            r.push(s[k]);
        }
        k = k + 1;
    }
    proof {
        assert(s@.take(s@.len() as int) =~= s@);
    }
    r
}

/// Cuts the link between the gateway `gw` and node `target`: each stops listing the
/// other, and `target` has one gateway link fewer.
pub fn sever(gw: usize, target: usize, graph: &mut Graph)
    requires
        old(graph).wf(),
        gw < old(graph).nodes@.len(),
        target < old(graph).nodes@.len(),
        old(graph).gw(target as int) > i32::MIN,
    ensures
        final(graph).wf(),
        final(graph).nodes@.len() == old(graph).nodes@.len(),
        final(graph).nbrs(gw as int) == without(old(graph).nbrs(gw as int), target),
        final(graph).nbrs(target as int) == without(old(graph).nbrs(target as int), gw),
        final(graph).gw(target as int) == old(graph).gw(target as int) - 1,
        gw != target ==> final(graph).gw(gw as int) == old(graph).gw(gw as int),
        forall|i: int|
            0 <= i < old(graph).nodes@.len() && i != gw && i != target ==> #[trigger] final(graph).nodes@[i]
                == old(graph).nodes@[i],
{
    let ghost g0 = *graph;
    let a = remove_value(&graph.nodes[gw].nbrs, target);
    graph.nodes[gw].nbrs = a;
    let b = remove_value(&graph.nodes[target].nbrs, gw);
    graph.nodes[target].nbrs = b;
    graph.nodes[target].gwlinks = graph.nodes[target].gwlinks - 1;
    proof {
        lemma_without(g0.nbrs(gw as int), target);
        lemma_without(g0.nbrs(target as int), gw);
        assert forall|i: int, k: int| 0 <= i < graph.nodes@.len() && 0 <= k < graph.nbrs(i).len() implies #[trigger] graph.nbrs(i)[k]
            < graph.nodes@.len() by {
            let w = graph.nbrs(i)[k];
            assert(graph.nbrs(i).contains(w));
            if i == gw || i == target {
                let k0 = choose|k0: int| 0 <= k0 < g0.nbrs(i).len() && g0.nbrs(i)[k0] == w;
                assert(g0.nbrs(i)[k0] < g0.nodes@.len());
            } else {
                assert(graph.nbrs(i) == g0.nbrs(i));
            }
        }
    }
}

/// The first neighbour of `v` that is a gateway.
fn gateway_next(graph: &Graph, is_gw: &Vec<bool>, v: usize) -> (r: Option<usize>)
    requires
        graph.wf(),
        v < graph.nodes@.len(),
        is_gw@.len() == graph.nodes@.len(),
    ensures
        r == gateway_of(*graph, is_gw@, v as int),
{
    let nbrs = &graph.nodes[v].nbrs;
    let mut k: usize = 0;
    while k < nbrs.len()
        invariant
            graph.wf(),
            v < graph.nodes@.len(),
            is_gw@.len() == graph.nodes@.len(),
            *nbrs == graph.nodes@[v as int].nbrs,
            k <= nbrs@.len(),
            first_gateway(*graph, is_gw@, v as int, k as int) is None,
        decreases nbrs@.len() - k,
    {
        let w = nbrs[k];
        proof {
            assert(graph.nbrs(v as int)[k as int] == w);
            assert(w < graph.nodes@.len());
        }
        if is_gw[w] {
            proof {
                lemma_first_gateway_stays(*graph, is_gw@, v as int, k + 1, graph.nbrs(v as int).len() as int);
            }
            return Some(w);
        }
        k = k + 1;
    }
    None
}

/// Once found among the first neighbours, the first gateway stays the first.
proof fn lemma_first_gateway_stays(g: Graph, is_gw: Seq<bool>, v: int, k1: int, k2: int)
    requires
        k1 <= k2,
        first_gateway(g, is_gw, v, k1) is Some,
    ensures
        first_gateway(g, is_gw, v, k2) == first_gateway(g, is_gw, v, k1),
    decreases k2 - k1,
{
    if k1 < k2 {
        lemma_first_gateway_stays(g, is_gw, v, k1, k2 - 1);
    }
}

/// The gateway found next to a node is a gateway and a neighbour, and none is found
/// exactly when no neighbour is a gateway.
pub proof fn lemma_gateway_of(g: Graph, is_gw: Seq<bool>, v: int, k: int)
    requires
        0 <= k <= g.nbrs(v).len(),
    ensures
        first_gateway(g, is_gw, v, k) matches Some(w) ==> is_gw[w as int] && g.nbrs(v).take(k).contains(w),
        first_gateway(g, is_gw, v, k) is None <==> forall|j: int| 0 <= j < k ==> !is_gw[#[trigger] g.nbrs(v)[j] as int],
    decreases k,
{
    if k > 0 {
        lemma_gateway_of(g, is_gw, v, k - 1);
        assert(g.nbrs(v).take(k) =~= g.nbrs(v).take(k - 1).push(g.nbrs(v)[k - 1]));
        broadcast use vstd::seq_lib::lemma_seq_contains_after_push;
        if first_gateway(g, is_gw, v, k) is None {
            assert forall|j: int| 0 <= j < k implies !is_gw[#[trigger] g.nbrs(v)[j] as int] by {
                if j < k - 1 {
                    assert(first_gateway(g, is_gw, v, k - 1) is None);
                }
            }
        }
    }
}

/// Decides which link to cut while the agent stands on `si`: the link from `si` to a
/// gateway if it has one; else the link to a gateway of the first node, on the path
/// found from `si`, with the most gateway links. Gives the pair (gateway, node), or
/// nothing when that node has no gateway next to it.
pub fn decide_cut(graph: &Graph, is_gw: &Vec<bool>, si: usize) -> (r: Option<(usize, usize)>)
    requires
        graph.wf(),
        si < graph.nodes@.len(),
        is_gw@.len() == graph.nodes@.len(),
        graph.nodes@.len() < u32::MAX,
    ensures
        r == cut_for(*graph, is_gw@, si as int),
{
    let target = if gateway_next(graph, is_gw, si).is_some() {
        si
    } else {
        let path = generate_path(si, graph);
        proof {
            lemma_path_to_best(*graph, si as int);
        }
        choose_target(path.as_slice(), graph)
    };
    proof {
        if gateway_of(*graph, is_gw@, si as int) is None {
            lemma_path_to_best(*graph, si as int);
            let path = path_to_best(*graph, si as int);
            lemma_target_index(*graph, path, path.len() as int);
        }
    }
    match gateway_next(graph, is_gw, target) {
        Some(w) => Some((w, target)),
        None => None,
    }
}


/// The cut decided while the agent stands on `si` is a link from the chosen node to a
/// gateway next to it; that node is `si` itself when `si` is next to a gateway; and no
/// cut is decided only when the chosen node has no gateway next to it.
pub proof fn lemma_cut_for(g: Graph, is_gw: Seq<bool>, si: int)
    requires
        g.wf(),
        0 <= si < g.nodes@.len(),
        g.nodes@.len() < u32::MAX,
    ensures
        cut_for(g, is_gw, si) matches Some((w, t)) ==> is_gw[w as int] && g.nbrs(t as int).contains(w) && t
            == target_for(g, is_gw, si),
        gateway_of(g, is_gw, si) is Some ==> target_for(g, is_gw, si) == si,
        cut_for(g, is_gw, si) is None ==> forall|j: int|
            0 <= j < g.nbrs(target_for(g, is_gw, si) as int).len() ==> !is_gw[#[trigger] g.nbrs(
                target_for(g, is_gw, si) as int,
            )[j] as int],
{
    let t = target_for(g, is_gw, si);
    lemma_gateway_of(g, is_gw, t as int, g.nbrs(t as int).len() as int);
    assert(g.nbrs(t as int).take(g.nbrs(t as int).len() as int) =~= g.nbrs(t as int));
}


/// Comparing fractions with positive denominators by cross products is transitive.
proof fn lemma_frac_trans(a: int, b: int, c: int, d: int, e: int, f: int)
    requires
        b > 0,
        d > 0,
        f > 0,
        a * d <= c * b,
        c * f <= e * d,
    ensures
        a * f <= e * b,
        (a * d < c * b || c * f < e * d) ==> a * f < e * b,
{
    assert(a * d * f <= c * b * f) by (nonlinear_arith)
        requires
            a * d <= c * b,
            f > 0,
    ;
    assert(c * f * b <= e * d * b) by (nonlinear_arith)
        requires
            c * f <= e * d,
            b > 0,
    ;
    assert(c * b * f == c * f * b) by (nonlinear_arith);
    assert(a * d * f == (a * f) * d && e * d * b == (e * b) * d) by (nonlinear_arith);
    assert(a * f <= e * b) by (nonlinear_arith)
        requires
            (a * f) * d <= (e * b) * d,
            d > 0,
    ;
    if a * d < c * b {
        assert(a * d * f < c * b * f) by (nonlinear_arith)
            requires
                a * d < c * b,
                f > 0,
        ;
        assert(a * f < e * b) by (nonlinear_arith)
            requires
                (a * f) * d < (e * b) * d,
                d > 0,
        ;
    }
    if c * f < e * d {
        assert(c * f * b < e * d * b) by (nonlinear_arith)
            requires
                c * f < e * d,
                b > 0,
        ;
        assert(a * f < e * b) by (nonlinear_arith)
            requires
                (a * f) * d < (e * b) * d,
                d > 0,
        ;
    }
}

/// Ranking below is transitive.
pub proof fn lemma_ranks_below_trans(p: PFInfo, q: PFInfo, r: PFInfo)
    requires
        ranks_below(p, q),
        ranks_below(q, r),
    ensures
        ranks_below(p, r),
{
    let (a, b) = (avg_num(p), avg_den(p));
    let (c, d) = (avg_num(q), avg_den(q));
    let (e, f) = (avg_num(r), avg_den(r));
    assert(a * d <= c * b);
    assert(c * f <= e * d);
    lemma_frac_trans(a, b, c, d, e, f);
    if a * d == c * b && c * f == e * d {
        // the means are equal all along: the sums, lengths and nodes before decide
        lemma_frac_trans(e, f, c, d, a, b);
        assert(a * f == e * b);
    }
}

/// The best entry ranks below no entry present.
proof fn lemma_best_upto_max(s: Seq<Option<PFInfo>>, k: int)
    requires
        0 <= k <= s.len(),
    ensures
        best_upto(s, k) matches Some(i) ==> forall|j: int| 0 <= j < k && #[trigger] s[j] is Some ==> !ranks_below(
            s[i]->0,
            s[j]->0,
        ),
    decreases k,
{
    if k > 0 {
        lemma_best_upto_max(s, k - 1);
        lemma_best_upto(s, k - 1);
        if let Some(v) = s[k - 1] {
            if let Some(i) = best_upto(s, k - 1) {
                if ranks_below(s[i]->0, v) {
                    assert forall|j: int| 0 <= j < k && #[trigger] s[j] is Some implies !ranks_below(v, s[j]->0) by {
                        if ranks_below(v, s[j]->0) {
                            lemma_ranks_below_trans(s[i]->0, v, s[j]->0);
                            if j == k - 1 {
                                lemma_ranks_below_irrefl(v);
                            }
                        }
                    }
                } else {
                    assert forall|j: int| 0 <= j < k && #[trigger] s[j] is Some implies !ranks_below(s[i]->0, s[j]->0) by {}
                }
            } else {
                assert forall|j: int| 0 <= j < k && #[trigger] s[j] is Some implies !ranks_below(v, s[j]->0) by {
                    if j < k - 1 {
                        lemma_best_upto(s, k - 1);
                        assert(s[j] is None);
                    } else {
                        lemma_ranks_below_irrefl(v);
                    }
                }
            }
        }
    }
}

/// Nothing ranks below itself.
proof fn lemma_ranks_below_irrefl(p: PFInfo)
    ensures
        !ranks_below(p, p),
{
}

/// The path found by the search ends at a finished node that ranks below no other
/// finished node.
pub proof fn lemma_path_ends_best(g: Graph, si: int)
    requires
        g.wf(),
        0 <= si < g.nodes@.len(),
        g.nodes@.len() < u32::MAX,
    ensures
        ({
            let fin = search(g, si);
            let b = path_to_best(g, si).last() as int;
            &&& 0 <= b < fin.len()
            &&& fin[b] is Some
            &&& forall|j: int| 0 <= j < fin.len() && #[trigger] fin[j] is Some ==> !ranks_below(fin[b]->0, fin[j]->0)
        }),
{
    lemma_path_to_best(g, si);
    let fin = search(g, si);
    lemma_start_ok(g, si);
    lemma_run_ok(g, si, search_start(g, si), g.nodes@.len() + 1);
    lemma_best_upto(fin, fin.len() as int);
    lemma_best_upto_max(fin, fin.len() as int);
}


/// The path found by the search ends at a finished node with the highest mean gateway
/// links per step of all finished nodes; of those with that mean, with the largest sum
/// of gateway links; and of those, with the longest path.
pub proof fn lemma_path_ends_highest(g: Graph, si: int)
    requires
        g.wf(),
        0 <= si < g.nodes@.len(),
        g.nodes@.len() < u32::MAX,
    ensures
        ({
            let fin = search(g, si);
            let b = path_to_best(g, si).last() as int;
            forall|j: int|
                0 <= j < fin.len() && #[trigger] fin[j] is Some ==> {
                    let p = fin[j]->0;
                    let q = fin[b]->0;
                    &&& avg_num(p) * avg_den(q) <= avg_num(q) * avg_den(p)
                    &&& avg_num(p) * avg_den(q) == avg_num(q) * avg_den(p) ==> p.cum <= q.cum
                    &&& avg_num(p) * avg_den(q) == avg_num(q) * avg_den(p) && p.cum == q.cum ==> p.dist <= q.dist
                }
        }),
{
    lemma_path_ends_best(g, si);
}

/// Where the agent's node has no gateway next to it, the node whose link is cut lies on
/// the path found from the agent's node, has the most gateway links of the nodes on that
/// path, and no node before it on the path has as many.
pub proof fn lemma_cut_on_path(g: Graph, is_gw: Seq<bool>, si: int)
    requires
        g.wf(),
        0 <= si < g.nodes@.len(),
        g.nodes@.len() < u32::MAX,
        forall|k: int| 0 <= k < g.nbrs(si).len() ==> !is_gw[#[trigger] g.nbrs(si)[k] as int],
    ensures
        ({
            let path = path_to_best(g, si);
            let t = target_for(g, is_gw, si);
            &&& exists|i: int|
                0 <= i < path.len() && path[i] == t && (forall|j: int| 0 <= j < i ==> g.gw(#[trigger] path[j] as int)
                    < g.gw(t as int))
            &&& forall|j: int| 0 <= j < path.len() ==> g.gw(#[trigger] path[j] as int) <= g.gw(t as int)
            &&& cut_for(g, is_gw, si) matches Some((w, c)) ==> c == t
        }),
{
    lemma_gateway_of(g, is_gw, si, g.nbrs(si).len() as int);
    lemma_path_to_best(g, si);
    let path = path_to_best(g, si);
    lemma_target_index(g, path, path.len() as int);
    let i = target_index(g, path, path.len() as int);
    assert(path[i] == target_for(g, is_gw, si));
}

} // verus!
