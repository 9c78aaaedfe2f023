//! Reading a puzzle grid into a graph: one node per digit cell, one bridge between
//! each pair of neighbouring nodes in a row or a column, and the crossings between
//! horizontal and vertical bridges.
use vstd::prelude::*;
use crate::hashi::{ID, Node, dom_counts};
use crate::domain::HashiDomain;
use crate::graph::{HashiGraph, IslandSlot};
use crate::solve::{islands_ok, layout, live, isl};
use vstd::string::*;

verus! {

/// A decimal digit character.
pub open spec fn is_digit(c: char) -> bool {
    '0' <= c && c <= '9'
}

/// The value of a decimal digit character.
pub open spec fn digit_value(c: char) -> int {
    c as int - '0' as int
}

/// The rows of a puzzle as characters.
pub open spec fn rows_of(puzzle: Seq<&str>) -> Seq<Seq<char>> {
    Seq::new(puzzle.len(), |y: int| puzzle[y]@)
}

/// Cell (x, y) exists and holds a digit.
pub open spec fn digit_at(rows: Seq<Seq<char>>, x: int, y: int) -> bool {
    0 <= y < rows.len() && 0 <= x < rows[y].len() && is_digit(rows[y][x])
}

/// The number of digits among the first `x` cells of row `y`.
pub open spec fn row_count(rows: Seq<Seq<char>>, x: int, y: int) -> nat
    decreases x,
{
    if x <= 0 {
        0
    } else {
        row_count(rows, x - 1, y) + (if digit_at(rows, x - 1, y) { 1nat } else { 0nat })
    }
}

/// The number of digits in the rows before row `y`.
pub open spec fn rows_count(rows: Seq<Seq<char>>, y: int) -> nat
    decreases y,
{
    if y <= 0 {
        0
    } else {
        rows_count(rows, y - 1) + row_count(rows, rows[y - 1].len() as int, y - 1)
    }
}

/// The number of digits before cell (x, y), row by row: the index of its node.
pub open spec fn rank(rows: Seq<Seq<char>>, x: int, y: int) -> nat {
    rows_count(rows, y) + row_count(rows, x, y)
}

/// The nearest digit column left of `x` in row `y`.
pub open spec fn left_of(rows: Seq<Seq<char>>, x: int, y: int) -> Option<int>
    decreases x,
{
    if x <= 0 {
        None
    } else if digit_at(rows, x - 1, y) {
        Some(x - 1)
    } else {
        left_of(rows, x - 1, y)
    }
}

/// The nearest digit column right of `x` in row `y`.
pub open spec fn right_of(rows: Seq<Seq<char>>, x: int, y: int) -> Option<int>
    decreases (if 0 <= y < rows.len() { rows[y].len() as int } else { 0 }) - x,
{
    if !(0 <= y < rows.len()) || x + 1 >= rows[y].len() || x < -1 {
        None
    } else if digit_at(rows, x + 1, y) {
        Some(x + 1)
    } else {
        right_of(rows, x + 1, y)
    }
}

/// The nearest digit row above row `y` in column `x`.
pub open spec fn up_of(rows: Seq<Seq<char>>, x: int, y: int) -> Option<int>
    decreases y,
{
    if y <= 0 {
        None
    } else if digit_at(rows, x, y - 1) {
        Some(y - 1)
    } else {
        up_of(rows, x, y - 1)
    }
}

/// The nearest digit row below row `y` in column `x`.
pub open spec fn down_of(rows: Seq<Seq<char>>, x: int, y: int) -> Option<int>
    decreases rows.len() - y,
{
    if y + 1 >= rows.len() || y < -1 {
        None
    } else if digit_at(rows, x, y + 1) {
        Some(y + 1)
    } else {
        down_of(rows, x, y + 1)
    }
}

/// Whether a bridge comes into digit cell (x, y) from the left.
pub open spec fn h_link(rows: Seq<Seq<char>>, x: int, y: int) -> nat {
    if digit_at(rows, x, y) && left_of(rows, x, y) is Some { 1 } else { 0 }
}

/// Whether a bridge comes into digit cell (x, y) from above.
pub open spec fn v_link(rows: Seq<Seq<char>>, x: int, y: int) -> nat {
    if digit_at(rows, x, y) && up_of(rows, x, y) is Some { 1 } else { 0 }
}

/// The number of bridges into the first `x` cells of row `y`.
pub open spec fn row_links(rows: Seq<Seq<char>>, x: int, y: int) -> nat
    decreases x,
{
    if x <= 0 {
        0
    } else {
        row_links(rows, x - 1, y) + h_link(rows, x - 1, y) + v_link(rows, x - 1, y)
    }
}

/// The number of bridges into the cells of the rows before row `y`.
pub open spec fn rows_links(rows: Seq<Seq<char>>, y: int) -> nat
    decreases y,
{
    if y <= 0 {
        0
    } else {
        rows_links(rows, y - 1) + row_links(rows, rows[y - 1].len() as int, y - 1)
    }
}

/// The number of bridges into cells before cell (x, y), row by row.
pub open spec fn lrank(rows: Seq<Seq<char>>, x: int, y: int) -> nat {
    rows_links(rows, y) + row_links(rows, x, y)
}

/// The index of the bridge into digit cell (x, y) from the left.
pub open spec fn h_index(rows: Seq<Seq<char>>, x: int, y: int) -> nat {
    lrank(rows, x, y)
}

/// The index of the bridge into digit cell (x, y) from above.
pub open spec fn v_index(rows: Seq<Seq<char>>, x: int, y: int) -> nat {
    lrank(rows, x, y) + h_link(rows, x, y)
}

/// Cell (x, y) comes before cell (cx, cy), row by row.
pub open spec fn before(x: int, y: int, cx: int, cy: int) -> bool {
    y < cy || (y == cy && x < cx)
}

/// The node of digit cell (x, y) once the cells before (cx, cy) have been read:
/// its bridges to the right and downwards exist once their far ends have been read.
pub open spec fn node_read(rows: Seq<Seq<char>>, x: int, y: int, cx: int, cy: int) -> Node {
    Node {
        coords: (x as u32, y as u32),
        quota: digit_value(rows[y][x]) as u32,
        id: rank(rows, x, y) as ID,
        up: if up_of(rows, x, y) is Some { Some(v_index(rows, x, y) as ID) } else { None },
        lf: if left_of(rows, x, y) is Some { Some(h_index(rows, x, y) as ID) } else { None },
        rt: match right_of(rows, x, y) {
            Some(x2) => if before(x2, y, cx, cy) { Some(h_index(rows, x2, y) as ID) } else { None },
            None => None,
        },
        dn: match down_of(rows, x, y) {
            Some(y2) => if before(x, y2, cx, cy) { Some(v_index(rows, x, y2) as ID) } else { None },
            None => None,
        },
    }
}

/// The bridge is horizontal: its ends lie in one row.
pub open spec fn is_horizontal(g: HashiGraph, b: int) -> bool {
    g.nodes@[g.bridges@[b].nodes.0 as int].coords.1 == g.nodes@[g.bridges@[b].nodes.1 as int].coords.1
}

/// Horizontal bridge `h` and vertical bridge `v` cross: the row of `h` lies strictly
/// between the ends of `v`, and the column of `v` strictly between the ends of `h`.
pub open spec fn h_crosses_v(g: HashiGraph, h: int, v: int) -> bool {
    let (ha, hb) = (g.nodes@[g.bridges@[h].nodes.0 as int].coords, g.nodes@[g.bridges@[h].nodes.1 as int].coords);
    let (va, vb) = (g.nodes@[g.bridges@[v].nodes.0 as int].coords, g.nodes@[g.bridges@[v].nodes.1 as int].coords);
    &&& va.1 < ha.1 < vb.1
    &&& ha.0 < va.0 < hb.0
}

/// Two bridges cross.
pub open spec fn bridges_cross(g: HashiGraph, b: int, c: int) -> bool {
    ||| (is_horizontal(g, b) && !is_horizontal(g, c) && h_crosses_v(g, b, c))
    ||| (!is_horizontal(g, b) && is_horizontal(g, c) && h_crosses_v(g, c, b))
}

/// A position of the reading: a cell of a row, the end of a row, or the end of the grid.
pub open spec fn cursor_ok(rows: Seq<Seq<char>>, cx: int, cy: int) -> bool {
    0 <= cy <= rows.len() && 0 <= cx && (if cy < rows.len() { cx <= rows[cy].len() } else { cx == 0 })
}

proof fn lemma_row_count_mono(rows: Seq<Seq<char>>, x1: int, x2: int, y: int)
    requires
        x1 <= x2,
    ensures
        row_count(rows, x1, y) <= row_count(rows, x2, y),
        row_links(rows, x1, y) <= row_links(rows, x2, y),
    decreases x2 - x1,
{
    if x1 < x2 {
        lemma_row_count_mono(rows, x1, x2 - 1, y);
    }
}

proof fn lemma_rows_count_mono(rows: Seq<Seq<char>>, y1: int, y2: int)
    requires
        y1 <= y2,
    ensures
        rows_count(rows, y1) <= rows_count(rows, y2),
        rows_links(rows, y1) <= rows_links(rows, y2),
    decreases y2 - y1,
{
    if y1 < y2 {
        lemma_rows_count_mono(rows, y1, y2 - 1);
    }
}

/// Counts grow along the reading order.
pub proof fn lemma_rank_mono(rows: Seq<Seq<char>>, x1: int, y1: int, x2: int, y2: int)
    requires
        cursor_ok(rows, x1, y1),
        cursor_ok(rows, x2, y2),
        before(x1, y1, x2, y2) || (x1 == x2 && y1 == y2),
    ensures
        rank(rows, x1, y1) <= rank(rows, x2, y2),
        lrank(rows, x1, y1) <= lrank(rows, x2, y2),
{
    if y1 == y2 {
        lemma_row_count_mono(rows, x1, x2, y1);
    } else {
        lemma_row_count_mono(rows, x1, rows[y1].len() as int, y1);
        lemma_rows_count_mono(rows, y1 + 1, y2);
        lemma_row_count_mono(rows, 0, x2, y2);
    }
}

/// A digit cell read before the cursor has a smaller node index, and its bridges
/// smaller bridge indices.
pub proof fn lemma_cell_before(rows: Seq<Seq<char>>, x: int, y: int, cx: int, cy: int)
    requires
        digit_at(rows, x, y),
        cursor_ok(rows, cx, cy),
        before(x, y, cx, cy),
    ensures
        rank(rows, x, y) < rank(rows, cx, cy),
        lrank(rows, x, y) + h_link(rows, x, y) + v_link(rows, x, y) <= lrank(rows, cx, cy),
{
    assert(rank(rows, x + 1, y) == rank(rows, x, y) + 1);
    assert(lrank(rows, x + 1, y) == lrank(rows, x, y) + h_link(rows, x, y) + v_link(rows, x, y));
    lemma_rank_mono(rows, x + 1, y, cx, cy);
}

/// The nearest digit to the left has no digit between it and `x`.
pub proof fn lemma_left_of(rows: Seq<Seq<char>>, x: int, y: int)
    ensures
        left_of(rows, x, y) matches Some(l) ==> 0 <= l < x && digit_at(rows, l, y) && forall|k: int|
            l < k < x ==> !#[trigger] digit_at(rows, k, y),
        left_of(rows, x, y) is None ==> forall|k: int| 0 <= k < x ==> !#[trigger] digit_at(rows, k, y),
    decreases x,
{
    if x > 0 {
        lemma_left_of(rows, x - 1, y);
    }
}

/// The nearest digit above has no digit between it and `y`.
pub proof fn lemma_up_of(rows: Seq<Seq<char>>, x: int, y: int)
    ensures
        up_of(rows, x, y) matches Some(u) ==> 0 <= u < y && digit_at(rows, x, u) && forall|k: int|
            u < k < y ==> !#[trigger] digit_at(rows, x, k),
        up_of(rows, x, y) is None ==> forall|k: int| 0 <= k < y ==> !#[trigger] digit_at(rows, x, k),
    decreases y,
{
    if y > 0 {
        lemma_up_of(rows, x, y - 1);
    }
}

/// The nearest digit to the right, found from any column before it with no digit between.
pub proof fn lemma_right_of(rows: Seq<Seq<char>>, l: int, x: int, y: int)
    requires
        0 <= y < rows.len(),
        -1 <= l < x,
        digit_at(rows, x, y),
        forall|k: int| l < k < x ==> !#[trigger] digit_at(rows, k, y),
    ensures
        right_of(rows, l, y) == Some(x),
    decreases x - l,
{
    if l + 1 < x {
        lemma_right_of(rows, l + 1, x, y);
    }
}

/// The nearest digit below, found from any row before it with no digit between.
pub proof fn lemma_down_of(rows: Seq<Seq<char>>, x: int, u: int, y: int)
    requires
        -1 <= u < y,
        digit_at(rows, x, y),
        forall|k: int| u < k < y ==> !#[trigger] digit_at(rows, x, k),
    ensures
        down_of(rows, x, u) == Some(y),
    decreases y - u,
{
    if u + 1 < y {
        lemma_down_of(rows, x, u + 1, y);
    }
}

/// The nearest digit to the right lies right of `x`, with no digit between.
pub proof fn lemma_right_of_props(rows: Seq<Seq<char>>, x: int, y: int)
    requires
        x >= -1,
    ensures
        right_of(rows, x, y) matches Some(r) ==> x < r && digit_at(rows, r, y) && forall|k: int|
            x < k < r ==> !#[trigger] digit_at(rows, k, y),
    decreases (if 0 <= y < rows.len() { rows[y].len() as int } else { 0 }) - x,
{
    if 0 <= y < rows.len() && x + 1 < rows[y].len() && !digit_at(rows, x + 1, y) {
        lemma_right_of_props(rows, x + 1, y);
    }
}

/// The nearest digit below lies below `y`, with no digit between.
pub proof fn lemma_down_of_props(rows: Seq<Seq<char>>, x: int, y: int)
    requires
        y >= -1,
    ensures
        down_of(rows, x, y) matches Some(d) ==> y < d && digit_at(rows, x, d) && forall|k: int|
            y < k < d ==> !#[trigger] digit_at(rows, x, k),
    decreases rows.len() - y,
{
    if y + 1 < rows.len() && !digit_at(rows, x, y + 1) {
        lemma_down_of_props(rows, x, y + 1);
    }
}

/// The horizontal bridge `h` spans column `x`: `x` lies strictly between its ends.
pub open spec fn spans(g: HashiGraph, h: ID, x: u32) -> bool {
    let x1 = g.nodes@[g.bridges@[h as int].nodes.0 as int].coords.0;
    let x2 = g.nodes@[g.bridges@[h as int].nodes.1 as int].coords.0;
    if x1 < x2 {
        x1 < x && x < x2
    } else {
        x2 < x && x < x1
    }
}

/// The bridges of `s` that span column `x`, in the order of `s`.
pub open spec fn spanning(g: HashiGraph, s: Seq<ID>, x: u32) -> Seq<ID>
    decreases s.len(),
{
    if s.len() == 0 {
        Seq::empty()
    } else {
        let r = spanning(g, s.drop_last(), x);
        if spans(g, s.last(), x) {
            r.push(s.last())
        } else {
            r
        }
    }
}

/// The bridges listed for rows `lo` to `hi - 1` that span column `x`, row by row.
pub open spec fn cross_rows(g: HashiGraph, horz: Seq<Seq<ID>>, x: u32, lo: int, hi: int) -> Seq<ID>
    decreases hi - lo,
{
    if hi <= lo {
        Seq::empty()
    } else {
        cross_rows(g, horz, x, lo, hi - 1) + spanning(g, horz[hi - 1], x)
    }
}

/// Bridge `c` is listed for one of the rows `lo` to `hi - 1`.
pub open spec fn listed_in_rows(horz: Seq<Seq<ID>>, c: ID, lo: int, hi: int) -> bool {
    exists|r: int| lo <= r < hi && #[trigger] horz[r].contains(c)
}

/// The lists of rows hold bridges of the graph, each at one place only.
pub open spec fn lists_ok(horz: Seq<Seq<ID>>, nb: nat) -> bool {
    &&& forall|r: int, i: int| 0 <= r < horz.len() && 0 <= i < horz[r].len() ==> #[trigger] horz[r][i] < nb
    &&& forall|r1: int, i: int, r2: int, j: int|
        0 <= r1 < horz.len() && 0 <= i < horz[r1].len() && 0 <= r2 < horz.len() && 0 <= j < horz[r2].len()
            && #[trigger] horz[r1][i] == #[trigger] horz[r2][j] ==> r1 == r2 && i == j
}

/// Two nested lists agree everywhere but in row `y`, where the second has `b` appended.
pub open spec fn lists_pushed(old_h: Seq<Vec<ID>>, new_h: Seq<Vec<ID>>, y: int, b: ID) -> bool {
    &&& new_h.len() == old_h.len()
    &&& forall|r: int| 0 <= r < old_h.len() && r != y ==> #[trigger] new_h[r]@ == old_h[r]@
    &&& new_h[y]@ == old_h[y]@.push(b)
}

/// The views of nested lists.
pub open spec fn lists_view(h: Seq<Vec<ID>>) -> Seq<Seq<ID>> {
    Seq::new(h.len(), |r: int| h[r]@)
}

impl HashiGraph {
    /// Adds a bridge from node `left` to the new node `new` on its right, and lists it
    /// for row `y`.
    fn link_left(&mut self, horz: &mut Vec<Vec<ID>>, left: ID, new: ID, y: usize) -> (nb: ID)
        requires
            old(self).wf(),
            left < new,
            new < old(self).nodes@.len(),
            old(self).nodes@[left as int].rt is None,
            old(self).nodes@[new as int].lf is None,
            old(self).nodes@[new as int].up is None,
            old(self).nodes@[new as int].rt is None,
            old(self).nodes@[new as int].dn is None,
            y < old(horz)@.len(),
        ensures
            final(self).wf(),
            nb == old(self).bridges@.len(),
            final(self).bridges@.len() == nb + 1,
            forall|c: int| 0 <= c < nb ==> #[trigger] final(self).bridges@[c] == old(self).bridges@[c],
            final(self).bridges@[nb as int].nodes == (left, new),
            final(self).bridges@[nb as int].crosses@ == Seq::<ID>::empty(),
            dom_counts(final(self).bridges@[nb as int].domain) == (0int, 0int),
            final(self).nodes@.len() == old(self).nodes@.len(),
            forall|k: int| 0 <= k < old(self).nodes@.len() && k != left && k != new ==> #[trigger] final(self).nodes@[k] == old(self).nodes@[k],
            final(self).nodes@[left as int] == (Node { rt: Some(nb), ..old(self).nodes@[left as int] }),
            final(self).nodes@[new as int] == (Node { lf: Some(nb), ..old(self).nodes@[new as int] }),
            final(self).islands@ == old(self).islands@,
            final(self).node_queue@ == old(self).node_queue@,
            lists_pushed(old(horz)@, final(horz)@, y as int, nb),
    {
        let nb = self._add_bridge((left, new));
        let mut ln = self.nodes[left];
        ln.rt = Some(nb);
        self.nodes.set(left, ln);
        let mut nn = self.nodes[new];
        nn.lf = Some(nb);
        self.nodes.set(new, nn);
        let mut row = horz[y].clone();
        let ghost old_row = horz@[y as int]@;
        row.push(nb);
        horz.set(y, row);
        proof {
            let g = *self;
            assert forall|i: int| 0 <= i < g.nodes@.len() implies (#[trigger] g.nodes@[i]).id == i
                && crate::hashi::node_ok(g.nodes@[i], g.bridges@.len()) by {
                assert(old(self).nodes@[i].id == i && crate::hashi::node_ok(old(self).nodes@[i], old(self).bridges@.len()));
            }
        }
        nb
    }
}

/// The crossing list of bridge `c` after a vertical bridge `nb` in column `x` was added
/// over the rows `lo` to `hi - 1` of the lists.
pub open spec fn crosses_after(
    g: HashiGraph,
    horz: Seq<Seq<ID>>,
    c: ID,
    x: u32,
    lo: int,
    hi: int,
    nb: ID,
) -> Seq<ID> {
    if listed_in_rows(horz, c, lo, hi) && spans(g, c, x) {
        g.bridges@[c as int].crosses@.push(nb)
    } else {
        g.bridges@[c as int].crosses@
    }
}

proof fn lemma_spanning_take(g: HashiGraph, s: Seq<ID>, x: u32, j: int)
    requires
        0 <= j < s.len(),
    ensures
        spanning(g, s.take(j + 1), x) == (if spans(g, s[j], x) {
            spanning(g, s.take(j), x).push(s[j])
        } else {
            spanning(g, s.take(j), x)
        }),
{
    assert(s.take(j + 1).drop_last() =~= s.take(j));
}

proof fn lemma_listed_step(horz: Seq<Seq<ID>>, c: ID, lo: int, r: int)
    requires
        lo <= r,
    ensures
        listed_in_rows(horz, c, lo, r + 1) == (listed_in_rows(horz, c, lo, r) || horz[r].contains(c)),
{
    if listed_in_rows(horz, c, lo, r + 1) {
        let r2 = choose|r2: int| lo <= r2 < r + 1 && #[trigger] horz[r2].contains(c);
        if r2 < r {
            assert(listed_in_rows(horz, c, lo, r));
        }
    }
    if horz[r].contains(c) {
        assert(lo <= r < r + 1 && horz[r].contains(c));
    }
    if listed_in_rows(horz, c, lo, r) {
        let r2 = choose|r2: int| lo <= r2 < r && #[trigger] horz[r2].contains(c);
        assert(lo <= r2 < r + 1 && horz[r2].contains(c));
    }
}

impl HashiGraph {
    /// Adds a bridge from node `up` down to the new node `new`, records its crossings
    /// with the listed bridges of the rows between the two nodes that span its column,
    /// and sets the nodes' slots.
    fn link_up(&mut self, horz: &Vec<Vec<ID>>, up: ID, new: ID) -> (nb: ID)
        requires
            old(self).wf(),
            up < new,
            new < old(self).nodes@.len(),
            old(self).nodes@[up as int].dn is None,
            old(self).nodes@[new as int].up is None,
            old(self).nodes@[new as int].rt is None,
            old(self).nodes@[new as int].dn is None,
            old(self).nodes@[up as int].coords.1 < old(self).nodes@[new as int].coords.1,
            old(self).nodes@[new as int].coords.1 <= horz@.len(),
            lists_ok(lists_view(horz@), old(self).bridges@.len()),
        ensures
            final(self).wf(),
            nb == old(self).bridges@.len(),
            final(self).bridges@.len() == nb + 1,
            forall|c: int| 0 <= c < nb ==> {
                &&& (#[trigger] final(self).bridges@[c]).nodes == old(self).bridges@[c].nodes
                &&& final(self).bridges@[c].domain == old(self).bridges@[c].domain
                &&& final(self).bridges@[c].id == old(self).bridges@[c].id
                &&& final(self).bridges@[c].crosses@ == crosses_after(
                    *old(self),
                    lists_view(horz@),
                    c as ID,
                    old(self).nodes@[new as int].coords.0,
                    old(self).nodes@[up as int].coords.1 + 1,
                    old(self).nodes@[new as int].coords.1 as int,
                    nb,
                )
            },
            final(self).bridges@[nb as int].nodes == (up, new),
            final(self).bridges@[nb as int].crosses@ == cross_rows(
                *old(self),
                lists_view(horz@),
                old(self).nodes@[new as int].coords.0,
                old(self).nodes@[up as int].coords.1 + 1,
                old(self).nodes@[new as int].coords.1 as int,
            ),
            dom_counts(final(self).bridges@[nb as int].domain) == (0int, 0int),
            final(self).nodes@.len() == old(self).nodes@.len(),
            forall|k: int| 0 <= k < old(self).nodes@.len() && k != up && k != new ==> #[trigger] final(self).nodes@[k] == old(self).nodes@[k],
            final(self).nodes@[up as int] == (Node { dn: Some(nb), ..old(self).nodes@[up as int] }),
            final(self).nodes@[new as int] == (Node { up: Some(nb), ..old(self).nodes@[new as int] }),
            final(self).islands@ == old(self).islands@,
            final(self).node_queue@ == old(self).node_queue@,
    {
        let ghost g0 = *self;
        let ghost hv = lists_view(horz@);
        let nb = self._add_bridge((up, new));
        let x = self.nodes[new].coords.0;
        let lo = self.nodes[up].coords.1 + 1;
        let hi = self.nodes[new].coords.1;
        let mut span_y = lo;
        while span_y < hi
            invariant
                g0.wf(),
                hv == lists_view(horz@),
                lists_ok(hv, g0.bridges@.len()),
                nb == g0.bridges@.len(),
                self.bridges@.len() == nb + 1,
                self.nodes@ == g0.nodes@,
                self.islands@ == g0.islands@,
                self.node_queue@ == g0.node_queue@,
                x == g0.nodes@[new as int].coords.0,
                lo == g0.nodes@[up as int].coords.1 + 1,
                hi == g0.nodes@[new as int].coords.1,
                hi <= horz@.len(),
                lo <= span_y <= hi,
                forall|c: int| 0 <= c < nb ==> {
                    &&& (#[trigger] self.bridges@[c]).nodes == g0.bridges@[c].nodes
                    &&& self.bridges@[c].domain == g0.bridges@[c].domain
                    &&& self.bridges@[c].id == g0.bridges@[c].id
                    &&& self.bridges@[c].crosses@ == crosses_after(g0, hv, c as ID, x, lo as int, span_y as int, nb)
                },
                self.bridges@[nb as int].nodes == (up, new),
                self.bridges@[nb as int].id == nb,
                self.bridges@[nb as int].domain.wf(),
                dom_counts(self.bridges@[nb as int].domain) == (0int, 0int),
                self.bridges@[nb as int].crosses@ == cross_rows(g0, hv, x, lo as int, span_y as int),
            decreases hi - span_y,
        {
            let row = &horz[span_y as usize];
            let mut j: usize = 0;
            while j < row.len()
                invariant
                    g0.wf(),
                    hv == lists_view(horz@),
                    *row == horz@[span_y as int],
                    lists_ok(hv, g0.bridges@.len()),
                    nb == g0.bridges@.len(),
                    self.bridges@.len() == nb + 1,
                    self.nodes@ == g0.nodes@,
                    self.islands@ == g0.islands@,
                    self.node_queue@ == g0.node_queue@,
                    x == g0.nodes@[new as int].coords.0,
                    lo <= span_y < hi,
                    hi <= horz@.len(),
                    j <= row@.len(),
                    forall|c: int| 0 <= c < nb ==> {
                        &&& (#[trigger] self.bridges@[c]).nodes == g0.bridges@[c].nodes
                        &&& self.bridges@[c].domain == g0.bridges@[c].domain
                        &&& self.bridges@[c].id == g0.bridges@[c].id
                        &&& self.bridges@[c].crosses@ == (if (listed_in_rows(hv, c as ID, lo as int, span_y as int)
                            || row@.take(j as int).contains(c as ID)) && spans(g0, c as ID, x) {
                            g0.bridges@[c].crosses@.push(nb)
                        } else {
                            g0.bridges@[c].crosses@
                        })
                    },
                    self.bridges@[nb as int].nodes == (up, new),
                    self.bridges@[nb as int].id == nb,
                    self.bridges@[nb as int].domain.wf(),
                    dom_counts(self.bridges@[nb as int].domain) == (0int, 0int),
                    self.bridges@[nb as int].crosses@ == cross_rows(g0, hv, x, lo as int, span_y as int) + spanning(
                        g0,
                        row@.take(j as int),
                        x,
                    ),
                decreases row@.len() - j,
            {
                let hb = row[j];
                proof {
                    assert(hv[span_y as int] == row@);
                    assert(hb < nb);
                    assert(crate::graph::bridge_ok(g0.bridges@[hb as int], hb as int, g0.nodes@.len(), g0.bridges@.len()));
                    lemma_spanning_take(g0, row@, x, j as int);
                    assert(row@.take(j + 1) =~= row@.take(j as int).push(hb));
                }
                let e = self.bridges[hb].nodes;
                let x1 = self.nodes[e.0].coords.0;
                let x2 = self.nodes[e.1].coords.0;
                let (xa, xb) = if x1 < x2 { (x1, x2) } else { (x2, x1) };
                if xa < x && x < xb {
                    let mut vb = self.bridges[nb].crosses.clone();
                    vb.push(hb);
                    self.bridges[nb].crosses = vb;
                    let mut hc = self.bridges[hb].crosses.clone();
                    hc.push(nb);
                    self.bridges[hb].crosses = hc;
                }
                proof {
                    assert forall|c: int| 0 <= c < nb && c != hb implies !(#[trigger] row@.take(j + 1).contains(c as ID)
                        && !row@.take(j as int).contains(c as ID)) by {
                        broadcast use vstd::seq_lib::lemma_seq_contains_after_push;
                    }
                    assert forall|c: int| 0 <= c < nb && c != hb && #[trigger] row@.take(j as int).contains(c as ID) implies row@.take(j + 1).contains(c as ID) by {
                        broadcast use vstd::seq_lib::lemma_seq_contains_after_push;
                    }
                    assert(row@.take(j + 1).contains(hb));
                    // hb was not listed before in this row, nor in an earlier row
                    assert(!row@.take(j as int).contains(hb)) by {
                        if row@.take(j as int).contains(hb) {
                            let i = choose|i: int| 0 <= i < j && row@.take(j as int)[i] == hb;
                            assert(hv[span_y as int][i] == hv[span_y as int][j as int]);
                        }
                    }
                    assert(!listed_in_rows(hv, hb, lo as int, span_y as int)) by {
                        if listed_in_rows(hv, hb, lo as int, span_y as int) {
                            let r2 = choose|r2: int| lo <= r2 < span_y && #[trigger] hv[r2].contains(hb);
                            let i = choose|i: int| 0 <= i < hv[r2].len() && hv[r2][i] == hb;
                            assert(hv[r2][i] == hv[span_y as int][j as int]);
                        }
                    }
                }
                j = j + 1;
            }
            proof {
                assert(row@.take(row@.len() as int) =~= row@);
                assert(hv[span_y as int] == row@);
                assert forall|c: int| 0 <= c < nb implies #[trigger] listed_in_rows(hv, c as ID, lo as int, span_y + 1) == (
                listed_in_rows(hv, c as ID, lo as int, span_y as int) || row@.contains(c as ID)) by {
                    lemma_listed_step(hv, c as ID, lo as int, span_y as int);
                }
            }
            span_y = span_y + 1;
        }
        let mut un = self.nodes[up];
        un.dn = Some(nb);
        self.nodes.set(up, un);
        let mut nn = self.nodes[new];
        nn.up = Some(nb);
        self.nodes.set(new, nn);
        proof {
            let g = *self;
            assert forall|i: int| 0 <= i < g.nodes@.len() implies (#[trigger] g.nodes@[i]).id == i
                && crate::hashi::node_ok(g.nodes@[i], g.bridges@.len()) by {
                assert(g0.nodes@[i].id == i && crate::hashi::node_ok(g0.nodes@[i], g0.bridges@.len()));
            }
            assert forall|i: int| 0 <= i < g.bridges@.len() implies crate::graph::bridge_ok(
                #[trigger] g.bridges@[i], i, g.nodes@.len(), g.bridges@.len()) by {
                if i < nb {
                    assert(crate::graph::bridge_ok(g0.bridges@[i], i, g0.nodes@.len(), g0.bridges@.len()));
                    assert forall|k: int| 0 <= k < g.bridges@[i].crosses@.len() implies #[trigger] g.bridges@[i].crosses@[k] < g.bridges@.len() by {
                        assert(g.bridges@[i].crosses@ == crosses_after(g0, hv, i as ID, x, lo as int, hi as int, nb));
                        if k < g0.bridges@[i].crosses@.len() {
                            assert(g.bridges@[i].crosses@[k] == g0.bridges@[i].crosses@[k]);
                        }
                    }
                } else {
                    lemma_cross_rows_bound(g0, hv, x, lo as int, hi as int);
                }
            }
            assert forall|k: int| 0 <= k < g.node_queue@.len() implies #[trigger] g.node_queue@[k] < g.nodes@.len() by {
                assert(g0.node_queue@[k] < g0.nodes@.len());
            }
        }
        nb
    }
}

/// The listed bridges that span a column are bridges of the graph.
proof fn lemma_cross_rows_bound(g: HashiGraph, horz: Seq<Seq<ID>>, x: u32, lo: int, hi: int)
    requires
        lists_ok(horz, g.bridges@.len()),
        0 <= lo,
        hi <= horz.len(),
    ensures
        forall|k: int| 0 <= k < cross_rows(g, horz, x, lo, hi).len() ==> #[trigger] cross_rows(g, horz, x, lo, hi)[k]
            < g.bridges@.len(),
    decreases hi - lo,
{
    if hi > lo {
        lemma_cross_rows_bound(g, horz, x, lo, hi - 1);
        lemma_spanning_sub(g, horz[hi - 1], x);
        let a = cross_rows(g, horz, x, lo, hi - 1);
        let b = spanning(g, horz[hi - 1], x);
        assert forall|k: int| 0 <= k < (a + b).len() implies #[trigger] (a + b)[k] < g.bridges@.len() by {
            if k >= a.len() {
                assert(b[k - a.len()] == (a + b)[k]);
                let i = choose|i: int| 0 <= i < horz[hi - 1].len() && #[trigger] horz[hi - 1][i] == b[k - a.len()];
                assert(horz[hi - 1][i] < g.bridges@.len());
            }
        }
    }
}

/// The bridges that span a column are among those listed.
proof fn lemma_spanning_sub(g: HashiGraph, s: Seq<ID>, x: u32)
    ensures
        forall|k: int| #![trigger spanning(g, s, x)[k]] 0 <= k < spanning(g, s, x).len() ==> exists|i: int| 0 <= i < s.len() && #[trigger] s[i] == spanning(g, s, x)[k],
        spanning(g, s, x).len() <= s.len(),
    decreases s.len(),
{
    if s.len() > 0 {
        lemma_spanning_sub(g, s.drop_last(), x);
        let r = spanning(g, s.drop_last(), x);
        assert forall|k: int| #![trigger spanning(g, s, x)[k]] 0 <= k < spanning(g, s, x).len() implies exists|i: int| 0 <= i < s.len() && #[trigger] s[i] == spanning(g, s, x)[k] by {
            if k < r.len() {
                let i = choose|i: int| 0 <= i < s.drop_last().len() && #[trigger] s.drop_last()[i] == r[k];
                assert(s[i] == spanning(g, s, x)[k]);
            } else {
                assert(s[s.len() - 1] == spanning(g, s, x)[k]);
            }
        }
    }
}

/// The bridges into the first `x` cells of row `y` from the left, in order.
pub open spec fn hrow(rows: Seq<Seq<char>>, x: int, y: int) -> Seq<ID>
    decreases x,
{
    if x <= 0 {
        Seq::empty()
    } else {
        let r = hrow(rows, x - 1, y);
        if h_link(rows, x - 1, y) == 1 {
            r.push(h_index(rows, x - 1, y) as ID)
        } else {
            r
        }
    }
}

/// The bridges listed for row `r` once the cells before (cx, cy) have been read.
pub open spec fn horz_expected(rows: Seq<Seq<char>>, r: int, cx: int, cy: int) -> Seq<ID> {
    if r < cy {
        hrow(rows, rows[r].len() as int, r)
    } else if r == cy {
        hrow(rows, cx, r)
    } else {
        Seq::empty()
    }
}

/// The row of the last digit read in column `c` once the cells before (cx, cy) have
/// been read.
pub open spec fn col_last(rows: Seq<Seq<char>>, c: int, cx: int, cy: int) -> Option<int> {
    if c < cx {
        up_of(rows, c, cy + 1)
    } else {
        up_of(rows, c, cy)
    }
}

/// The node of cell (c, r) of an optional row.
pub open spec fn node_in_col(rows: Seq<Seq<char>>, c: int, r: Option<int>) -> Option<ID> {
    match r {
        Some(u) => Some(rank(rows, c, u) as ID),
        None => None,
    }
}

/// The node of cell (c, y) of an optional column.
pub open spec fn node_in_row(rows: Seq<Seq<char>>, c: Option<int>, y: int) -> Option<ID> {
    match c {
        Some(l) => Some(rank(rows, l, y) as ID),
        None => None,
    }
}

/// The grid fits the coordinates of the nodes.
pub open spec fn grid_fits(rows: Seq<Seq<char>>) -> bool {
    &&& rows.len() <= u32::MAX
    &&& forall|y: int| 0 <= y < rows.len() ==> #[trigger] rows[y].len() <= u32::MAX
}

/// Cell (x, y) is a digit cell read before the cursor (cx, cy).
pub open spec fn cell_read(rows: Seq<Seq<char>>, x: int, y: int, cx: int, cy: int) -> bool {
    digit_at(rows, x, y) && before(x, y, cx, cy)
}

/// The nodes of the digit cells before (cx, cy), in reading order.
pub open spec fn nodes_read(rows: Seq<Seq<char>>, g: HashiGraph, cx: int, cy: int) -> bool {
    &&& g.nodes@.len() == rank(rows, cx, cy)
    &&& forall|x: int, y: int|
        #[trigger] cell_read(rows, x, y, cx, cy) ==> g.nodes@[rank(rows, x, y) as int] == node_read(
            rows,
            x,
            y,
            cx,
            cy,
        )
}

/// The bridges into the digit cells before (cx, cy), in reading order, with every count
/// still possible.
pub open spec fn bridges_read(rows: Seq<Seq<char>>, g: HashiGraph, cx: int, cy: int) -> bool {
    &&& g.bridges@.len() == lrank(rows, cx, cy)
    &&& forall|x: int, y: int|
        #[trigger] cell_read(rows, x, y, cx, cy) ==> {
            &&& (left_of(rows, x, y) matches Some(l) ==> g.bridges@[h_index(rows, x, y) as int].nodes == (
                rank(rows, l, y) as ID,
                rank(rows, x, y) as ID,
            ))
            &&& (up_of(rows, x, y) matches Some(u) ==> g.bridges@[v_index(rows, x, y) as int].nodes == (
                rank(rows, x, u) as ID,
                rank(rows, x, y) as ID,
            ))
        }
    &&& forall|b: int| 0 <= b < g.bridges@.len() ==> dom_counts(#[trigger] g.bridges@[b].domain) == (0int, 0int)
}

/// Each bridge lists exactly the bridges it crosses.
pub open spec fn crossings_read(g: HashiGraph) -> bool {
    forall|b: int, c: ID|
        0 <= b < g.bridges@.len() ==> (#[trigger] g.bridges@[b].crosses@.contains(c) <==> (c < g.bridges@.len()
            && bridges_cross(g, b, c as int)))
}

/// Each element is below the ones after it.
pub open spec fn increasing(s: Seq<ID>) -> bool {
    forall|i: int, j: int| 0 <= i < j < s.len() ==> s[i] < s[j]
}

/// Each bridge lists the bridges it crosses in increasing order, so none of them twice.
pub open spec fn crossings_sorted(g: HashiGraph) -> bool {
    forall|b: int| 0 <= b < g.bridges@.len() ==> increasing(#[trigger] g.bridges@[b].crosses@)
}

/// The lists of rows hold increasing bridges, row after row.
pub open spec fn lists_sorted(horz: Seq<Seq<ID>>) -> bool {
    forall|r1: int, i: int, r2: int, j: int|
        0 <= r1 < horz.len() && 0 <= i < horz[r1].len() && 0 <= r2 < horz.len() && 0 <= j < horz[r2].len() && (r1
            < r2 || (r1 == r2 && i < j)) ==> #[trigger] horz[r1][i] < #[trigger] horz[r2][j]
}

/// One island per node, holding that node alone, with no bridges leaving it.
pub open spec fn islands_fresh(g: HashiGraph) -> bool {
    &&& g.islands@.len() == g.nodes@.len()
    &&& forall|i: int|
        0 <= i < g.islands@.len() ==> (#[trigger] g.islands@[i] matches IslandSlot::Isl(isl) && isl.nodes@ == seq![
            i as ID,
        ] && isl.ext_bridges@ == Seq::<ID>::empty() && isl.id == i)
}

/// For each bridge, the cell it comes into and whether it comes from the left.
pub open spec fn cells_ok(rows: Seq<Seq<char>>, cells: Seq<(int, int, bool)>, nb: nat, cx: int, cy: int) -> bool {
    &&& cells.len() == nb
    &&& forall|b: int|
        0 <= b < nb ==> {
            let (x, y, h) = #[trigger] cells[b];
            &&& digit_at(rows, x, y)
            &&& before(x, y, cx, cy)
            &&& if h {
                left_of(rows, x, y) is Some && b == h_index(rows, x, y)
            } else {
                up_of(rows, x, y) is Some && b == v_index(rows, x, y)
            }
        }
}

/// The state of the reading once the cells before (cx, cy) have been read.
pub open spec fn read_ok(
    rows: Seq<Seq<char>>,
    g: HashiGraph,
    horz: Seq<Seq<ID>>,
    cells: Seq<(int, int, bool)>,
    oldys: Seq<Option<ID>>,
    cx: int,
    cy: int,
) -> bool {
    &&& cursor_ok(rows, cx, cy)
    &&& grid_fits(rows)
    &&& g.wf()
    &&& g.node_queue@.len() == 0
    &&& nodes_read(rows, g, cx, cy)
    &&& bridges_read(rows, g, cx, cy)
    &&& islands_fresh(g)
    &&& crossings_read(g)
    &&& cells_ok(rows, cells, g.bridges@.len(), cx, cy)
    &&& horz.len() == rows.len()
    &&& forall|r: int| 0 <= r < rows.len() ==> #[trigger] horz[r] == horz_expected(rows, r, cx, cy)
    &&& lists_ok(horz, g.bridges@.len())
    &&& lists_sorted(horz)
    &&& crossings_sorted(g)
    &&& forall|y: int| 0 <= y < rows.len() ==> #[trigger] rows[y].len() <= oldys.len()
    &&& forall|c: int| 0 <= c < oldys.len() ==> #[trigger] oldys[c] == node_in_col(rows, c, col_last(rows, c, cx, cy))
}

/// The bridges entering cell (x, y), as recorded per bridge.
pub open spec fn new_cells(rows: Seq<Seq<char>>, x: int, y: int) -> Seq<(int, int, bool)> {
    (if h_link(rows, x, y) == 1 { seq![(x, y, true)] } else { Seq::empty() }) + (if v_link(rows, x, y) == 1 {
        seq![(x, y, false)]
    } else {
        Seq::empty()
    })
}

/// The nearest digit to the left, found from any column after it with no digit between.
pub proof fn lemma_left_of_from(rows: Seq<Seq<char>>, a: int, x: int, y: int)
    requires
        0 <= a < x,
        digit_at(rows, a, y),
        forall|k: int| a < k < x ==> !#[trigger] digit_at(rows, k, y),
    ensures
        left_of(rows, x, y) == Some(a),
    decreases x - a,
{
    if a + 1 < x {
        lemma_left_of_from(rows, a, x - 1, y);
    }
}

/// The nearest digit above, found from any row after it with no digit between.
pub proof fn lemma_up_of_from(rows: Seq<Seq<char>>, x: int, a: int, y: int)
    requires
        0 <= a < y,
        digit_at(rows, x, a),
        forall|k: int| a < k < y ==> !#[trigger] digit_at(rows, x, k),
    ensures
        up_of(rows, x, y) == Some(a),
    decreases y - a,
{
    if a + 1 < y {
        lemma_up_of_from(rows, x, a, y - 1);
    }
}

/// Two digit cells with the same node index are the same cell.
pub proof fn lemma_rank_unique(rows: Seq<Seq<char>>, x1: int, y1: int, x2: int, y2: int)
    requires
        digit_at(rows, x1, y1),
        digit_at(rows, x2, y2),
        rank(rows, x1, y1) == rank(rows, x2, y2),
    ensures
        x1 == x2 && y1 == y2,
{
    if before(x1, y1, x2, y2) {
        lemma_cell_before(rows, x1, y1, x2, y2);
    } else if before(x2, y2, x1, y1) {
        lemma_cell_before(rows, x2, y2, x1, y1);
    }
}

/// The index of the bridge into cell (x, y) from the left (`h`) or from above.
pub open spec fn link_index(rows: Seq<Seq<char>>, x: int, y: int, h: bool) -> nat {
    if h {
        h_index(rows, x, y)
    } else {
        v_index(rows, x, y)
    }
}

/// There is a bridge into cell (x, y) from the left (`h`) or from above.
pub open spec fn has_link(rows: Seq<Seq<char>>, x: int, y: int, h: bool) -> bool {
    if h {
        h_link(rows, x, y) == 1
    } else {
        v_link(rows, x, y) == 1
    }
}

/// Two bridges with the same index come into the same cell from the same side.
pub proof fn lemma_link_unique(rows: Seq<Seq<char>>, x1: int, y1: int, h1: bool, x2: int, y2: int, h2: bool)
    requires
        has_link(rows, x1, y1, h1),
        has_link(rows, x2, y2, h2),
        link_index(rows, x1, y1, h1) == link_index(rows, x2, y2, h2),
    ensures
        x1 == x2 && y1 == y2 && h1 == h2,
{
    if before(x1, y1, x2, y2) {
        lemma_cell_before(rows, x1, y1, x2, y2);
    } else if before(x2, y2, x1, y1) {
        lemma_cell_before(rows, x2, y2, x1, y1);
    }
}

/// The bridges listed for the first `x` cells of row `y` are those into its cells
/// from the left.
pub proof fn lemma_hrow_member(rows: Seq<Seq<char>>, x: int, y: int, c: ID)
    ensures
        hrow(rows, x, y).contains(c) <==> exists|x2: int|
            0 <= x2 < x && h_link(rows, x2, y) == 1 && c == #[trigger] h_index(rows, x2, y) as ID,
    decreases x,
{
    broadcast use vstd::seq_lib::lemma_seq_contains_after_push;
    if x > 0 {
        lemma_hrow_member(rows, x - 1, y, c);
        if hrow(rows, x, y).contains(c) {
            if !hrow(rows, x - 1, y).contains(c) {
                assert(h_link(rows, x - 1, y) == 1 && c == h_index(rows, x - 1, y) as ID);
            }
        }
        if exists|x2: int| 0 <= x2 < x && h_link(rows, x2, y) == 1 && c == #[trigger] h_index(rows, x2, y) as ID {
            let x2 = choose|x2: int| 0 <= x2 < x && h_link(rows, x2, y) == 1 && c == #[trigger] h_index(rows, x2, y) as ID;
            if x2 < x - 1 {
                assert(hrow(rows, x - 1, y).contains(c));
            } else {
                assert(hrow(rows, x, y).last() == c);
            }
        }
    }
}

/// Reading cell (x, y) leaves the nodes of other cells as they were, but for the
/// nodes to its left and above.
proof fn lemma_node_cell(rows: Seq<Seq<char>>, x: int, y: int, x1: int, y1: int)
    requires
        0 <= y < rows.len(),
        0 <= x < rows[y].len(),
        digit_at(rows, x, y),
        digit_at(rows, x1, y1),
        before(x1, y1, x, y),
    ensures
        !(left_of(rows, x, y) == Some(x1) && y1 == y) && !(up_of(rows, x, y) == Some(y1) && x1 == x) ==> node_read(
            rows,
            x1,
            y1,
            x + 1,
            y,
        ) == node_read(rows, x1, y1, x, y),
        (left_of(rows, x, y) == Some(x1) && y1 == y) ==> node_read(rows, x1, y1, x + 1, y) == (Node {
            rt: Some(h_index(rows, x, y) as ID),
            ..node_read(rows, x1, y1, x, y)
        }),
        (up_of(rows, x, y) == Some(y1) && x1 == x) ==> node_read(rows, x1, y1, x + 1, y) == (Node {
            dn: Some(v_index(rows, x, y) as ID),
            ..node_read(rows, x1, y1, x, y)
        }),
{
    lemma_right_of_props(rows, x1, y1);
    lemma_down_of_props(rows, x1, y1);
    if right_of(rows, x1, y1) == Some(x) && y1 == y {
        lemma_left_of_from(rows, x1, x, y);
    }
    if down_of(rows, x1, y1) == Some(y) && x1 == x {
        lemma_up_of_from(rows, x, y1, y);
    }
    if left_of(rows, x, y) == Some(x1) && y1 == y {
        lemma_left_of(rows, x, y);
        lemma_right_of(rows, x1, x, y);
    }
    if up_of(rows, x, y) == Some(y1) && x1 == x {
        lemma_up_of(rows, x, y);
        lemma_down_of(rows, x, y1, y);
    }
}

/// Reading digit cell (x, y) keeps the nodes of the cells read as they must be.
proof fn lemma_nodes_step(rows: Seq<Seq<char>>, g0: HashiGraph, g3: HashiGraph, x: int, y: int)
    requires
        0 <= y < rows.len(),
        0 <= x < rows[y].len(),
        digit_at(rows, x, y),
        nodes_read(rows, g0, x, y),
        g3.nodes@.len() == g0.nodes@.len() + 1,
        g3.nodes@.len() <= usize::MAX,
        g3.nodes@[rank(rows, x, y) as int] == node_read(rows, x, y, x + 1, y),
        forall|k: int|
            0 <= k < g0.nodes@.len() && node_in_row(rows, left_of(rows, x, y), y) != Some(k as ID) && node_in_col(
                rows,
                x,
                up_of(rows, x, y),
            ) != Some(k as ID) ==> #[trigger] g3.nodes@[k] == g0.nodes@[k],
        left_of(rows, x, y) matches Some(l) ==> g3.nodes@[rank(rows, l, y) as int] == (Node {
            rt: Some(h_index(rows, x, y) as ID),
            ..g0.nodes@[rank(rows, l, y) as int]
        }),
        up_of(rows, x, y) matches Some(u) ==> g3.nodes@[rank(rows, x, u) as int] == (Node {
            dn: Some(v_index(rows, x, y) as ID),
            ..g0.nodes@[rank(rows, x, u) as int]
        }),
    ensures
        nodes_read(rows, g3, x + 1, y),
{
    assert(rank(rows, x + 1, y) == rank(rows, x, y) + 1);
    lemma_left_of(rows, x, y);
    lemma_up_of(rows, x, y);
    assert forall|x1: int, y1: int| #[trigger] cell_read(rows, x1, y1, x + 1, y) implies g3.nodes@[rank(
        rows,
        x1,
        y1,
    ) as int] == node_read(rows, x1, y1, x + 1, y) by {
        if !(x1 == x && y1 == y) {
            assert(cell_read(rows, x1, y1, x, y));
            lemma_cell_before(rows, x1, y1, x, y);
            lemma_node_cell(rows, x, y, x1, y1);
            let k = rank(rows, x1, y1);
            assert(g0.nodes@[k as int] == node_read(rows, x1, y1, x, y));
            assert(k < g0.nodes@.len());
            if left_of(rows, x, y) == Some(x1) && y1 == y {
                assert(g3.nodes@[k as int] == (Node { rt: Some(h_index(rows, x, y) as ID), ..g0.nodes@[k as int] }));
            } else if up_of(rows, x, y) == Some(y1) && x1 == x {
                assert(g3.nodes@[k as int] == (Node { dn: Some(v_index(rows, x, y) as ID), ..g0.nodes@[k as int] }));
            } else {
                if let Some(l) = left_of(rows, x, y) {
                    if rank(rows, l, y) == k {
                        lemma_rank_unique(rows, l, y, x1, y1);
                    }
                    lemma_cell_before(rows, l, y, x, y);
                    assert(node_in_row(rows, left_of(rows, x, y), y) != Some(k as ID));
                }
                if let Some(u) = up_of(rows, x, y) {
                    if rank(rows, x, u) == k {
                        lemma_rank_unique(rows, x, u, x1, y1);
                    }
                    lemma_cell_before(rows, x, u, x, y);
                    assert(node_in_col(rows, x, up_of(rows, x, y)) != Some(k as ID));
                }
                assert(g3.nodes@[k as int] == g0.nodes@[k as int]);
            }
        }
    }
}

/// The ends of bridge `c` lie where the cell it comes into says.
proof fn lemma_bridge_ends(
    rows: Seq<Seq<char>>,
    g: HashiGraph,
    cells: Seq<(int, int, bool)>,
    cx: int,
    cy: int,
    c: int,
)
    requires
        grid_fits(rows),
        nodes_read(rows, g, cx, cy),
        bridges_read(rows, g, cx, cy),
        cells_ok(rows, cells, g.bridges@.len(), cx, cy),
        cursor_ok(rows, cx, cy),
        g.nodes@.len() <= usize::MAX,
        g.bridges@.len() <= usize::MAX,
        0 <= c < g.bridges@.len(),
    ensures
        ({
            let (xc, yc, h) = cells[c];
            let e = g.bridges@[c].nodes;
            let p0 = g.nodes@[e.0 as int].coords;
            let p1 = g.nodes@[e.1 as int].coords;
            &&& p1 == (xc as u32, yc as u32)
            &&& p1.0 as int == xc && p1.1 as int == yc
            &&& h ==> (left_of(rows, xc, yc) matches Some(l) && p0 == (l as u32, yc as u32) && p0.0 as int == l
                && p0.1 as int == yc && l < xc)
            &&& !h ==> (up_of(rows, xc, yc) matches Some(u) && p0 == (xc as u32, u as u32) && p0.0 as int == xc
                && p0.1 as int == u && u < yc)
            &&& is_horizontal(g, c) == h
        }),
{
    let (xc, yc, h) = cells[c];
    assert(cell_read(rows, xc, yc, cx, cy));
    assert(rows[yc].len() <= u32::MAX);
    lemma_cell_before(rows, xc, yc, cx, cy);
    if h {
        let l = left_of(rows, xc, yc)->0;
        lemma_left_of(rows, xc, yc);
        assert(cell_read(rows, l, yc, cx, cy));
        lemma_cell_before(rows, l, yc, cx, cy);
        assert(g.bridges@[c].nodes == (rank(rows, l, yc) as ID, rank(rows, xc, yc) as ID));
    } else {
        let u = up_of(rows, xc, yc)->0;
        lemma_up_of(rows, xc, yc);
        assert(cell_read(rows, xc, u, cx, cy));
        lemma_cell_before(rows, xc, u, cx, cy);
        assert(rows[u].len() <= u32::MAX);
        assert(g.bridges@[c].nodes == (rank(rows, xc, u) as ID, rank(rows, xc, yc) as ID));
    }
}

/// The listed bridges of a row are the bridges that come into a cell of that row from
/// the left.
proof fn lemma_horz_member(
    rows: Seq<Seq<char>>,
    horz: Seq<Seq<ID>>,
    cells: Seq<(int, int, bool)>,
    nb: nat,
    cx: int,
    cy: int,
    r: int,
    c: ID,
)
    requires
        cursor_ok(rows, cx, cy),
        cells_ok(rows, cells, nb, cx, cy),
        nb == lrank(rows, cx, cy),
        nb <= usize::MAX,
        horz.len() == rows.len(),
        forall|r2: int| 0 <= r2 < rows.len() ==> #[trigger] horz[r2] == horz_expected(rows, r2, cx, cy),
        0 <= r < rows.len(),
    ensures
        horz[r].contains(c) <==> (c < nb && cells[c as int].1 == r && cells[c as int].2),
{
    if r <= cy {
        let xe = if r < cy { rows[r].len() as int } else { cx };
        assert(horz[r] == hrow(rows, xe, r));
        lemma_hrow_member(rows, xe, r, c);
        if horz[r].contains(c) {
            let x2 = choose|x2: int| 0 <= x2 < xe && h_link(rows, x2, r) == 1 && c == #[trigger] h_index(rows, x2, r) as ID;
            lemma_cell_before(rows, x2, r, cx, cy);
            assert(h_index(rows, x2, r) < nb);
            let (xc, yc, h) = cells[c as int];
            assert(has_link(rows, xc, yc, h));
            assert(has_link(rows, x2, r, true));
            lemma_link_unique(rows, xc, yc, h, x2, r, true);
        }
        if c < nb && cells[c as int].1 == r && cells[c as int].2 {
            let (xc, yc, h) = cells[c as int];
            assert(0 <= xc < xe);
            assert(h_link(rows, xc, r) == 1 && c == h_index(rows, xc, r) as ID);
        }
    } else {
        if c < nb && cells[c as int].1 == r {
            assert(before(cells[c as int].0, cells[c as int].1, cx, cy));
        }
    }
}

proof fn lemma_spanning_member(g: HashiGraph, s: Seq<ID>, x: u32, c: ID)
    ensures
        spanning(g, s, x).contains(c) <==> (s.contains(c) && spans(g, c, x)),
    decreases s.len(),
{
    broadcast use vstd::seq_lib::lemma_seq_contains_after_push;
    if s.len() > 0 {
        lemma_spanning_member(g, s.drop_last(), x, c);
        assert(s =~= s.drop_last().push(s.last()));
    }
}

/// The bridges `cross_rows` gives are the listed bridges of those rows that span the column.
proof fn lemma_cross_rows_member(g: HashiGraph, horz: Seq<Seq<ID>>, x: u32, lo: int, hi: int, c: ID)
    ensures
        cross_rows(g, horz, x, lo, hi).contains(c) <==> (listed_in_rows(horz, c, lo, hi) && spans(g, c, x)),
    decreases hi - lo,
{
    broadcast use vstd::seq_lib::lemma_seq_concat_contains_all_elements;
    if hi > lo {
        lemma_cross_rows_member(g, horz, x, lo, hi - 1, c);
        lemma_spanning_member(g, horz[hi - 1], x, c);
        lemma_listed_step(horz, c, lo, hi - 1);
        let a = cross_rows(g, horz, x, lo, hi - 1);
        let b = spanning(g, horz[hi - 1], x);
        if (a + b).contains(c) {
            let i = choose|i: int| 0 <= i < (a + b).len() && (a + b)[i] == c;
            if i < a.len() {
                assert(a.contains(c));
            } else {
                assert(b[i - a.len()] == c);
                assert(b.contains(c));
            }
        }
    } else {
        if listed_in_rows(horz, c, lo, hi) {
            let r = choose|r: int| lo <= r < hi && #[trigger] horz[r].contains(c);
        }
    }
}

/// Bridge `c` is listed for one of the rows `lo` to `hi - 1` exactly when it comes into
/// a cell of one of those rows from the left.
proof fn lemma_listed_horz(
    rows: Seq<Seq<char>>,
    horz: Seq<Seq<ID>>,
    cells: Seq<(int, int, bool)>,
    nb: nat,
    cx: int,
    cy: int,
    c: ID,
    lo: int,
    hi: int,
)
    requires
        cursor_ok(rows, cx, cy),
        cells_ok(rows, cells, nb, cx, cy),
        nb == lrank(rows, cx, cy),
        nb <= usize::MAX,
        horz.len() == rows.len(),
        forall|r2: int| 0 <= r2 < rows.len() ==> #[trigger] horz[r2] == horz_expected(rows, r2, cx, cy),
        0 <= lo,
        hi <= rows.len(),
    ensures
        listed_in_rows(horz, c, lo, hi) <==> (c < nb && cells[c as int].2 && lo <= cells[c as int].1 < hi),
{
    if listed_in_rows(horz, c, lo, hi) {
        let r = choose|r: int| lo <= r < hi && #[trigger] horz[r].contains(c);
        lemma_horz_member(rows, horz, cells, nb, cx, cy, r, c);
    }
    if c < nb && cells[c as int].2 && lo <= cells[c as int].1 < hi {
        let r = cells[c as int].1;
        lemma_horz_member(rows, horz, cells, nb, cx, cy, r, c);
        assert(horz[r].contains(c));
    }
}

/// Reading digit cell (x, y) keeps every bridge's crossing list exact.
#[verifier::rlimit(40)]
proof fn lemma_crossings_step(
    rows: Seq<Seq<char>>,
    g0: HashiGraph,
    g2: HashiGraph,
    g3: HashiGraph,
    horz0: Seq<Seq<ID>>,
    horz2: Seq<Seq<ID>>,
    cells0: Seq<(int, int, bool)>,
    x: int,
    y: int,
)
    requires
        grid_fits(rows),
        0 <= y < rows.len(),
        0 <= x < rows[y].len(),
        digit_at(rows, x, y),
        crossings_read(g0),
        cells_ok(rows, cells0, g0.bridges@.len(), x, y),
        g0.bridges@.len() == lrank(rows, x, y),
        horz0.len() == rows.len(),
        forall|r: int| 0 <= r < rows.len() ==> #[trigger] horz0[r] == horz_expected(rows, r, x, y),
        horz2.len() == horz0.len(),
        forall|r: int| 0 <= r < y ==> #[trigger] horz2[r] == horz0[r],
        nodes_read(rows, g3, x + 1, y),
        bridges_read(rows, g3, x + 1, y),
        cells_ok(rows, cells0 + new_cells(rows, x, y), g3.bridges@.len(), x + 1, y),
        g3.nodes@.len() <= usize::MAX,
        g3.bridges@.len() <= usize::MAX,
        g0.nodes@.len() <= g3.nodes@.len(),
        g2.nodes@.len() == g3.nodes@.len(),
        forall|k: int| 0 <= k < g0.nodes@.len() ==> (#[trigger] g0.nodes@[k]).coords == g3.nodes@[k].coords,
        forall|k: int| 0 <= k < g2.nodes@.len() ==> (#[trigger] g2.nodes@[k]).coords == g3.nodes@[k].coords,
        forall|c: int| 0 <= c < g0.bridges@.len() ==> (#[trigger] g0.bridges@[c]).nodes == g3.bridges@[c].nodes,
        forall|c: int| 0 <= c < g0.bridges@.len() ==> (#[trigger] g2.bridges@[c]).nodes == g3.bridges@[c].nodes,
        forall|c: int| 0 <= c < g0.bridges@.len() ==> g0.bridges@[c].nodes.0 < g0.nodes@.len() && g0.bridges@[c].nodes.1 < g0.nodes@.len(),
        forall|c: int|
            0 <= c < g0.bridges@.len() ==> (#[trigger] g3.bridges@[c]).crosses@ == (if v_link(rows, x, y) == 1
                && listed_in_rows(horz2, c as ID, up_of(rows, x, y)->0 + 1, y) && spans(g2, c as ID, x as u32) {
                g0.bridges@[c].crosses@.push((g0.bridges@.len() + h_link(rows, x, y)) as ID)
            } else {
                g0.bridges@[c].crosses@
            }),
        h_link(rows, x, y) == 1 ==> g3.bridges@[g0.bridges@.len() as int].crosses@ == Seq::<ID>::empty(),
        v_link(rows, x, y) == 1 ==> g3.bridges@[(g0.bridges@.len() + h_link(rows, x, y)) as int].crosses@ == cross_rows(
            g2,
            horz2,
            x as u32,
            up_of(rows, x, y)->0 + 1,
            y,
        ),
    ensures
        crossings_read(g3),
{
    let nb0 = g0.bridges@.len() as int;
    let hl = h_link(rows, x, y) as int;
    let vl = v_link(rows, x, y) as int;
    let h = nb0;
    let v = nb0 + hl;
    let cells3 = cells0 + new_cells(rows, x, y);
    let u = up_of(rows, x, y)->0;
    assert(lrank(rows, x + 1, y) == lrank(rows, x, y) + hl + vl);
    assert(g3.bridges@.len() == nb0 + hl + vl);
    assert forall|b: int, c: ID|
        0 <= b < g3.bridges@.len() implies (#[trigger] g3.bridges@[b].crosses@.contains(c) <==> (c
        < g3.bridges@.len() && bridges_cross(g3, b, c as int))) by {
        lemma_bridge_ends(rows, g3, cells3, x + 1, y, b);
        if c < g3.bridges@.len() {
            lemma_bridge_ends(rows, g3, cells3, x + 1, y, c as int);
        }
        if b < nb0 {
            assert(cells3[b] == cells0[b]);
            if c < nb0 {
                assert(cells3[c as int] == cells0[c as int]);
            }
            lemma_cross_b_old(rows, g0, g2, g3, horz0, horz2, cells0, x, y, b, c);
        } else if hl == 1 && b == h {
            if c < nb0 {
                assert(cells3[c as int] == cells0[c as int]);
                assert(before(cells0[c as int].0, cells0[c as int].1, x, y));
            }
        } else {
            assert(vl == 1 && b == v);
            lemma_cross_rows_member(g2, horz2, x as u32, u + 1, y, c);
            lemma_listed_horz(rows, horz0, cells0, nb0 as nat, x, y, c, u + 1, y);
            lemma_up_of(rows, x, y);
            if listed_in_rows(horz2, c, u + 1, y) {
                let r = choose|r: int| u + 1 <= r < y && #[trigger] horz2[r].contains(c);
                assert(horz0[r].contains(c));
            }
            if listed_in_rows(horz0, c, u + 1, y) {
                let r = choose|r: int| u + 1 <= r < y && #[trigger] horz0[r].contains(c);
                assert(horz2[r].contains(c));
            }
            if c < nb0 {
                assert(cells3[c as int] == cells0[c as int]);
            }
        }
    }
}

/// The crossing list of a bridge read before cell (x, y), after reading that cell.
proof fn lemma_cross_b_old(
    rows: Seq<Seq<char>>,
    g0: HashiGraph,
    g2: HashiGraph,
    g3: HashiGraph,
    horz0: Seq<Seq<ID>>,
    horz2: Seq<Seq<ID>>,
    cells0: Seq<(int, int, bool)>,
    x: int,
    y: int,
    b: int,
    c: ID,
)
    requires
        grid_fits(rows),
        0 <= y < rows.len(),
        0 <= x < rows[y].len(),
        digit_at(rows, x, y),
        crossings_read(g0),
        cells_ok(rows, cells0, g0.bridges@.len(), x, y),
        g0.bridges@.len() == lrank(rows, x, y),
        g0.bridges@.len() <= usize::MAX,
        horz0.len() == rows.len(),
        forall|r: int| 0 <= r < rows.len() ==> #[trigger] horz0[r] == horz_expected(rows, r, x, y),
        horz2.len() == horz0.len(),
        forall|r: int| 0 <= r < y ==> #[trigger] horz2[r] == horz0[r],
        g3.bridges@.len() == g0.bridges@.len() + h_link(rows, x, y) + v_link(rows, x, y),
        g3.bridges@.len() <= usize::MAX,
        0 <= b < g0.bridges@.len(),
        forall|k: int| 0 <= k < g0.nodes@.len() ==> (#[trigger] g0.nodes@[k]).coords == g3.nodes@[k].coords,
        forall|k: int| 0 <= k < g2.nodes@.len() ==> (#[trigger] g2.nodes@[k]).coords == g3.nodes@[k].coords,
        g0.nodes@.len() <= g3.nodes@.len(),
        g2.nodes@.len() == g3.nodes@.len(),
        forall|c2: int| 0 <= c2 < g0.bridges@.len() ==> (#[trigger] g0.bridges@[c2]).nodes == g3.bridges@[c2].nodes,
        forall|c2: int| 0 <= c2 < g0.bridges@.len() ==> (#[trigger] g2.bridges@[c2]).nodes == g3.bridges@[c2].nodes,
        forall|c2: int| 0 <= c2 < g0.bridges@.len() ==> g0.bridges@[c2].nodes.0 < g0.nodes@.len() && g0.bridges@[c2].nodes.1 < g0.nodes@.len(),
        g3.bridges@[b].crosses@ == (if v_link(rows, x, y) == 1 && listed_in_rows(
            horz2,
            b as ID,
            up_of(rows, x, y)->0 + 1,
            y,
        ) && spans(g2, b as ID, x as u32) {
            g0.bridges@[b].crosses@.push((g0.bridges@.len() + h_link(rows, x, y)) as ID)
        } else {
            g0.bridges@[b].crosses@
        }),
        // the geometry of b and c in the new graph
        ({
            let (xb, yb, hb) = cells0[b];
            let e = g3.bridges@[b].nodes;
            let p0 = g3.nodes@[e.0 as int].coords;
            let p1 = g3.nodes@[e.1 as int].coords;
            &&& p1.0 as int == xb && p1.1 as int == yb
            &&& hb ==> (left_of(rows, xb, yb) matches Some(l) && p0.0 as int == l && p0.1 as int == yb && l < xb)
            &&& !hb ==> (up_of(rows, xb, yb) matches Some(uu) && p0.0 as int == xb && p0.1 as int == uu && uu < yb)
            &&& is_horizontal(g3, b) == hb
        }),
        c < g3.bridges@.len() ==> ({
            let (xc, yc, hc) = (cells0 + new_cells(rows, x, y))[c as int];
            let e = g3.bridges@[c as int].nodes;
            let p0 = g3.nodes@[e.0 as int].coords;
            let p1 = g3.nodes@[e.1 as int].coords;
            &&& p1.0 as int == xc && p1.1 as int == yc
            &&& hc ==> (left_of(rows, xc, yc) matches Some(l) && p0.0 as int == l && p0.1 as int == yc && l < xc)
            &&& !hc ==> (up_of(rows, xc, yc) matches Some(uu) && p0.0 as int == xc && p0.1 as int == uu && uu < yc)
            &&& is_horizontal(g3, c as int) == hc
        }),
    ensures
        g3.bridges@[b].crosses@.contains(c) <==> (c < g3.bridges@.len() && bridges_cross(g3, b, c as int)),
{
    let nb0 = g0.bridges@.len() as int;
    let hl = h_link(rows, x, y) as int;
    let v = nb0 + hl;
    let cells3 = cells0 + new_cells(rows, x, y);
    assert(cells3[b] == cells0[b]);
    assert(before(cells0[b].0, cells0[b].1, x, y));
    let pushed = v_link(rows, x, y) == 1 && listed_in_rows(horz2, b as ID, up_of(rows, x, y)->0 + 1, y) && spans(
        g2,
        b as ID,
        x as u32,
    );
    assert(g0.bridges@[b].crosses@.contains(c) <==> (c < nb0 && bridges_cross(g0, b, c as int)));
    if c < nb0 {
        assert(bridges_cross(g0, b, c as int) == bridges_cross(g3, b, c as int));
        assert(g3.bridges@[b].crosses@.contains(c) == g0.bridges@[b].crosses@.contains(c)) by {
            broadcast use vstd::seq_lib::lemma_seq_contains_after_push;
        }
    } else if c < g3.bridges@.len() {
        if c == v && v_link(rows, x, y) == 1 {
            let u = up_of(rows, x, y)->0;
            lemma_listed_horz(rows, horz0, cells0, nb0 as nat, x, y, b as ID, u + 1, y);
            lemma_up_of(rows, x, y);
            if listed_in_rows(horz2, b as ID, u + 1, y) {
                let r = choose|r: int| u + 1 <= r < y && #[trigger] horz2[r].contains(b as ID);
                assert(horz0[r].contains(b as ID));
            }
            if listed_in_rows(horz0, b as ID, u + 1, y) {
                let r = choose|r: int| u + 1 <= r < y && #[trigger] horz0[r].contains(b as ID);
                assert(horz2[r].contains(b as ID));
            }
            assert(cells3[c as int] == (x, y, false));
            assert(rows[y].len() <= u32::MAX);
            assert(g2.bridges@[b].nodes == g3.bridges@[b].nodes);
            assert(g2.nodes@[g3.bridges@[b].nodes.0 as int].coords == g3.nodes@[g3.bridges@[b].nodes.0 as int].coords);
            assert(g2.nodes@[g3.bridges@[b].nodes.1 as int].coords == g3.nodes@[g3.bridges@[b].nodes.1 as int].coords);
            assert(pushed == bridges_cross(g3, b, c as int));
            assert(g3.bridges@[b].crosses@.contains(c) == pushed) by {
                broadcast use vstd::seq_lib::lemma_seq_contains_after_push;
            }
        } else {
            assert(c == nb0 && hl == 1);
            assert(cells3[c as int] == (x, y, true));
            assert(!bridges_cross(g3, b, c as int));
            assert(!g3.bridges@[b].crosses@.contains(c)) by {
                broadcast use vstd::seq_lib::lemma_seq_contains_after_push;
            }
        }
    } else {
        assert(!g3.bridges@[b].crosses@.contains(c)) by {
            broadcast use vstd::seq_lib::lemma_seq_contains_after_push;
        }
    }
}


/// Reading digit cell (x, y) adds its bridges after those read before, and keeps the
/// bridges read before as they were.
proof fn lemma_bridges_step(rows: Seq<Seq<char>>, g0: HashiGraph, g3: HashiGraph, x: int, y: int)
    requires
        0 <= y < rows.len(),
        0 <= x < rows[y].len(),
        digit_at(rows, x, y),
        bridges_read(rows, g0, x, y),
        g3.bridges@.len() == g0.bridges@.len() + h_link(rows, x, y) + v_link(rows, x, y),
        forall|c: int|
            0 <= c < g0.bridges@.len() ==> (#[trigger] g3.bridges@[c]).nodes == g0.bridges@[c].nodes
                && g3.bridges@[c].domain == g0.bridges@[c].domain,
        h_link(rows, x, y) == 1 ==> g3.bridges@[g0.bridges@.len() as int].nodes == (
            rank(rows, left_of(rows, x, y)->0, y) as ID,
            rank(rows, x, y) as ID,
        ) && dom_counts(g3.bridges@[g0.bridges@.len() as int].domain) == (0int, 0int),
        v_link(rows, x, y) == 1 ==> g3.bridges@[(g0.bridges@.len() + h_link(rows, x, y)) as int].nodes == (
            rank(rows, x, up_of(rows, x, y)->0) as ID,
            rank(rows, x, y) as ID,
        ) && dom_counts(g3.bridges@[(g0.bridges@.len() + h_link(rows, x, y)) as int].domain) == (0int, 0int),
    ensures
        bridges_read(rows, g3, x + 1, y),
{
    let nb0 = g0.bridges@.len() as int;
    assert(lrank(rows, x + 1, y) == lrank(rows, x, y) + h_link(rows, x, y) + v_link(rows, x, y));
    assert forall|x1: int, y1: int| #[trigger] cell_read(rows, x1, y1, x + 1, y) implies {
        &&& (left_of(rows, x1, y1) matches Some(l) ==> g3.bridges@[h_index(rows, x1, y1) as int].nodes == (
            rank(rows, l, y1) as ID,
            rank(rows, x1, y1) as ID,
        ))
        &&& (up_of(rows, x1, y1) matches Some(u) ==> g3.bridges@[v_index(rows, x1, y1) as int].nodes == (
            rank(rows, x1, u) as ID,
            rank(rows, x1, y1) as ID,
        ))
    } by {
        if !(x1 == x && y1 == y) {
            assert(cell_read(rows, x1, y1, x, y));
            lemma_cell_before(rows, x1, y1, x, y);
        }
    }
    assert forall|b: int| 0 <= b < g3.bridges@.len() implies dom_counts(#[trigger] g3.bridges@[b].domain) == (
        0int,
        0int,
    ) by {
        if b < nb0 {
            assert(dom_counts(g0.bridges@[b].domain) == (0int, 0int));
        }
    }
}

/// Reading digit cell (x, y) records the cell of each of its bridges.
proof fn lemma_cells_step(rows: Seq<Seq<char>>, cells: Seq<(int, int, bool)>, x: int, y: int)
    requires
        0 <= y < rows.len(),
        0 <= x < rows[y].len(),
        digit_at(rows, x, y),
        cells_ok(rows, cells, lrank(rows, x, y), x, y),
    ensures
        cells_ok(rows, cells + new_cells(rows, x, y), lrank(rows, x + 1, y), x + 1, y),
{
    let nb0 = lrank(rows, x, y) as int;
    let hl = h_link(rows, x, y) as int;
    assert(lrank(rows, x + 1, y) == nb0 + hl + v_link(rows, x, y));
    let c3 = cells + new_cells(rows, x, y);
    assert forall|b: int| 0 <= b < lrank(rows, x + 1, y) implies {
        let (xb, yb, h) = #[trigger] c3[b];
        &&& digit_at(rows, xb, yb)
        &&& before(xb, yb, x + 1, y)
        &&& if h {
            left_of(rows, xb, yb) is Some && b == h_index(rows, xb, yb)
        } else {
            up_of(rows, xb, yb) is Some && b == v_index(rows, xb, yb)
        }
    } by {
        if b < nb0 {
            assert(c3[b] == cells[b]);
        } else if hl == 1 && b == nb0 {
            assert(c3[b] == (x, y, true));
        } else {
            assert(c3[b] == (x, y, false));
        }
    }
}

/// Reading digit cell (x, y) lists its bridge from the left for row `y`.
proof fn lemma_horz_step(rows: Seq<Seq<char>>, h0: Seq<Seq<ID>>, h3: Seq<Seq<ID>>, x: int, y: int)
    requires
        0 <= y < rows.len(),
        0 <= x < rows[y].len(),
        h0.len() == rows.len(),
        forall|r: int| 0 <= r < rows.len() ==> #[trigger] h0[r] == horz_expected(rows, r, x, y),
        h3.len() == h0.len(),
        forall|r: int| 0 <= r < h0.len() && r != y ==> #[trigger] h3[r] == h0[r],
        h3[y] == (if h_link(rows, x, y) == 1 {
            h0[y].push(h_index(rows, x, y) as ID)
        } else {
            h0[y]
        }),
    ensures
        forall|r: int| 0 <= r < rows.len() ==> #[trigger] h3[r] == horz_expected(rows, r, x + 1, y),
{
    assert forall|r: int| 0 <= r < rows.len() implies #[trigger] h3[r] == horz_expected(rows, r, x + 1, y) by {
        if r != y {
            assert(h3[r] == h0[r]);
            assert(h0[r] == horz_expected(rows, r, x, y));
        } else {
            assert(h0[y] == horz_expected(rows, y, x, y));
        }
    }
}

/// Appending a new bridge to the list of one row keeps the lists apart.
proof fn lemma_lists_push(h0: Seq<Seq<ID>>, h2: Seq<Seq<ID>>, y: int, nb: ID)
    requires
        lists_ok(h0, nb as nat),
        0 <= y < h0.len(),
        h2.len() == h0.len(),
        forall|r: int| 0 <= r < h0.len() && r != y ==> #[trigger] h2[r] == h0[r],
        h2[y] == h0[y].push(nb),
    ensures
        lists_ok(h2, (nb + 1) as nat),
        lists_sorted(h0) && (forall|r: int| y < r < h0.len() ==> #[trigger] h0[r].len() == 0) ==> lists_sorted(h2),
{
    if lists_sorted(h0) && (forall|r: int| y < r < h0.len() ==> #[trigger] h0[r].len() == 0) {
        assert forall|r1: int, i: int, r2: int, j: int|
            0 <= r1 < h2.len() && 0 <= i < h2[r1].len() && 0 <= r2 < h2.len() && 0 <= j < h2[r2].len() && (r1 < r2 || (
            r1 == r2 && i < j)) implies #[trigger] h2[r1][i] < #[trigger] h2[r2][j] by {
            if r1 != y {
                assert(h2[r1] == h0[r1]);
            }
            if r2 != y {
                assert(h2[r2] == h0[r2]);
            }
            if r2 > y {
                assert(h0[r2].len() == 0);
            }
            if r2 == y && j == h0[y].len() {
                assert(h0[r1][i] < nb);
            } else if r1 == y && i == h0[y].len() {
                assert(false);
            } else {
                assert(h0[r1][i] < h0[r2][j]);
            }
        }
    }
    assert forall|r: int, i: int| 0 <= r < h2.len() && 0 <= i < h2[r].len() implies #[trigger] h2[r][i] < nb + 1 by {
        if r != y {
            assert(h2[r] == h0[r]);
            assert(h0[r][i] < nb);
        } else if i < h0[y].len() {
            assert(h0[y][i] < nb);
        }
    }
    assert forall|r1: int, i: int, r2: int, j: int|
        0 <= r1 < h2.len() && 0 <= i < h2[r1].len() && 0 <= r2 < h2.len() && 0 <= j < h2[r2].len()
            && #[trigger] h2[r1][i] == #[trigger] h2[r2][j] implies r1 == r2 && i == j by {
        let last1 = r1 == y && i == h0[y].len();
        let last2 = r2 == y && j == h0[y].len();
        if !last1 {
            if r1 != y {
                assert(h2[r1] == h0[r1]);
            }
            assert(h2[r1][i] == h0[r1][i]);
            assert(h0[r1][i] < nb);
        }
        if !last2 {
            if r2 != y {
                assert(h2[r2] == h0[r2]);
            }
            assert(h2[r2][j] == h0[r2][j]);
            assert(h0[r2][j] < nb);
        }
        if !last1 && !last2 {
            assert(h0[r1][i] == h0[r2][j]);
        }
    }
}

/// No listed bridge is a bridge added after the lists were made.
proof fn lemma_not_listed(h: Seq<Seq<ID>>, nb: nat, c: ID, lo: int, hi: int)
    requires
        lists_ok(h, nb),
        0 <= lo,
        hi <= h.len(),
        c >= nb,
    ensures
        !listed_in_rows(h, c, lo, hi),
{
    if listed_in_rows(h, c, lo, hi) {
        let r = choose|r: int| lo <= r < hi && #[trigger] h[r].contains(c);
        let i = choose|i: int| 0 <= i < h[r].len() && h[r][i] == c;
        assert(h[r][i] < nb);
    }
}


/// A cell without a digit changes nothing of the reading.
proof fn lemma_skip_cell(
    rows: Seq<Seq<char>>,
    g: HashiGraph,
    horz: Seq<Seq<ID>>,
    cells: Seq<(int, int, bool)>,
    oldys: Seq<Option<ID>>,
    x: int,
    y: int,
)
    requires
        read_ok(rows, g, horz, cells, oldys, x, y),
        0 <= y < rows.len(),
        0 <= x < rows[y].len(),
        !digit_at(rows, x, y),
    ensures
        read_ok(rows, g, horz, cells, oldys, x + 1, y),
        left_of(rows, x + 1, y) == left_of(rows, x, y),
{
    assert(rank(rows, x + 1, y) == rank(rows, x, y));
    assert(lrank(rows, x + 1, y) == lrank(rows, x, y));
    assert forall|x1: int, y1: int| #[trigger] cell_read(rows, x1, y1, x + 1, y) implies cell_read(rows, x1, y1, x, y)
        && node_read(rows, x1, y1, x + 1, y) == node_read(rows, x1, y1, x, y) by {
        lemma_right_of_props(rows, x1, y1);
        lemma_down_of_props(rows, x1, y1);
    }
    assert forall|x1: int, y1: int| #[trigger] cell_read(rows, x1, y1, x, y) implies cell_read(rows, x1, y1, x + 1, y) by {}
    assert forall|r: int| 0 <= r < rows.len() implies #[trigger] horz[r] == horz_expected(rows, r, x + 1, y) by {
        assert(horz[r] == horz_expected(rows, r, x, y));
    }
    assert forall|c: int| 0 <= c < oldys.len() implies #[trigger] oldys[c] == node_in_col(
        rows,
        c,
        col_last(rows, c, x + 1, y),
    ) by {
        assert(oldys[c] == node_in_col(rows, c, col_last(rows, c, x, y)));
    }
}

/// The end of a row is the start of the next.
proof fn lemma_row_end(
    rows: Seq<Seq<char>>,
    g: HashiGraph,
    horz: Seq<Seq<ID>>,
    cells: Seq<(int, int, bool)>,
    oldys: Seq<Option<ID>>,
    y: int,
)
    requires
        0 <= y < rows.len(),
        read_ok(rows, g, horz, cells, oldys, rows[y].len() as int, y),
    ensures
        read_ok(rows, g, horz, cells, oldys, 0, y + 1),
{
    let w = rows[y].len() as int;
    assert(rank(rows, 0, y + 1) == rank(rows, w, y));
    assert(lrank(rows, 0, y + 1) == lrank(rows, w, y));
    assert forall|x1: int, y1: int| #[trigger] cell_read(rows, x1, y1, 0, y + 1) implies cell_read(rows, x1, y1, w, y)
        && node_read(rows, x1, y1, 0, y + 1) == node_read(rows, x1, y1, w, y) by {
        lemma_right_of_props(rows, x1, y1);
        lemma_down_of_props(rows, x1, y1);
    }
    assert forall|x1: int, y1: int| #[trigger] cell_read(rows, x1, y1, w, y) implies cell_read(rows, x1, y1, 0, y + 1) by {}
    assert forall|r: int| 0 <= r < rows.len() implies #[trigger] horz[r] == horz_expected(rows, r, 0, y + 1) by {
        assert(horz[r] == horz_expected(rows, r, w, y));
    }
    assert forall|c: int| 0 <= c < oldys.len() implies #[trigger] oldys[c] == node_in_col(
        rows,
        c,
        col_last(rows, c, 0, y + 1),
    ) by {
        assert(oldys[c] == node_in_col(rows, c, col_last(rows, c, w, y)));
    }
}

/// Appending an element above all others keeps a list increasing.
proof fn lemma_push_increasing(s: Seq<ID>, v: ID)
    requires
        increasing(s),
        forall|k: int| 0 <= k < s.len() ==> #[trigger] s[k] < v,
    ensures
        increasing(s.push(v)),
{
    assert forall|i: int, j: int| 0 <= i < j < s.push(v).len() implies s.push(v)[i] < s.push(v)[j] by {
        assert(s.push(v)[i] == s[i]);
    }
}

/// The bridges of an increasing list that span a column are increasing.
proof fn lemma_spanning_sorted(g: HashiGraph, s: Seq<ID>, x: u32)
    requires
        increasing(s),
    ensures
        increasing(spanning(g, s, x)),
    decreases s.len(),
{
    if s.len() > 0 {
        let t = s.drop_last();
        assert(increasing(t)) by {
            assert forall|i: int, j: int| 0 <= i < j < t.len() implies t[i] < t[j] by {
                assert(t[i] == s[i] && t[j] == s[j]);
            }
        }
        lemma_spanning_sorted(g, t, x);
        lemma_spanning_sub(g, t, x);
        let r = spanning(g, t, x);
        assert forall|k: int| 0 <= k < r.len() implies #[trigger] r[k] < s.last() by {
            let i = choose|i: int| 0 <= i < t.len() && #[trigger] t[i] == r[k];
            assert(s[i] == t[i]);
        }
        if spans(g, s.last(), x) {
            lemma_push_increasing(r, s.last());
        }
    }
}

/// The listed bridges of rows `lo` to `hi - 1` that span a column come in increasing
/// order.
proof fn lemma_cross_rows_sorted(g: HashiGraph, horz: Seq<Seq<ID>>, x: u32, lo: int, hi: int)
    requires
        lists_sorted(horz),
        0 <= lo,
        hi <= horz.len(),
    ensures
        increasing(cross_rows(g, horz, x, lo, hi)),
    decreases hi - lo,
{
    if hi > lo {
        lemma_cross_rows_sorted(g, horz, x, lo, hi - 1);
        let row = horz[hi - 1];
        assert(increasing(row)) by {
            assert forall|i: int, j: int| 0 <= i < j < row.len() implies row[i] < row[j] by {
                assert(horz[hi - 1][i] < horz[hi - 1][j]);
            }
        }
        lemma_spanning_sorted(g, row, x);
        lemma_spanning_sub(g, row, x);
        let a = cross_rows(g, horz, x, lo, hi - 1);
        let b = spanning(g, row, x);
        assert forall|i: int, j: int| 0 <= i < j < (a + b).len() implies (a + b)[i] < (a + b)[j] by {
            if j >= a.len() && i < a.len() {
                let c = a[i];
                assert(a.contains(c));
                lemma_cross_rows_member(g, horz, x, lo, hi - 1, c);
                let r = choose|r: int| lo <= r < hi - 1 && #[trigger] horz[r].contains(c);
                let i2 = choose|i2: int| 0 <= i2 < horz[r].len() && horz[r][i2] == c;
                let j2 = choose|j2: int| 0 <= j2 < row.len() && #[trigger] row[j2] == b[j - a.len()];
                assert(horz[r][i2] < horz[hi - 1][j2]);
                assert((a + b)[j] == b[j - a.len()]);
            } else if i >= a.len() {
                assert((a + b)[i] == b[i - a.len()]);
                assert((a + b)[j] == b[j - a.len()]);
            }
        }
    }
}

impl HashiGraph {
    /// Reads the digit cell (x, y): adds its node, its bridge from the left and its
    /// bridge from above.
    fn read_digit(
        &mut self,
        horz: &mut Vec<Vec<ID>>,
        oldys: &mut Vec<Option<ID>>,
        oldx: Option<ID>,
        x: usize,
        y: usize,
        d: u32,
        Ghost(rows): Ghost<Seq<Seq<char>>>,
        Ghost(cells): Ghost<Seq<(int, int, bool)>>,
    ) -> (new: ID)
        requires
            read_ok(rows, *old(self), lists_view(old(horz)@), cells, old(oldys)@, x as int, y as int),
            y < rows.len(),
            x < rows[y as int].len(),
            digit_at(rows, x as int, y as int),
            d == digit_value(rows[y as int][x as int]),
            oldx == node_in_row(rows, left_of(rows, x as int, y as int), y as int),
        ensures
            read_ok(
                rows,
                *final(self),
                lists_view(final(horz)@),
                cells + new_cells(rows, x as int, y as int),
                final(oldys)@,
                x + 1,
                y as int,
            ),
            new == rank(rows, x as int, y as int),
    {
        let ghost g0 = *self;
        let ghost h0 = lists_view(horz@);
        let ghost (xi, yi) = (x as int, y as int);
        let ghost nb0 = g0.bridges@.len() as int;
        let ghost hl = h_link(rows, xi, yi) as int;
        let ghost vl = v_link(rows, xi, yi) as int;
        let ghost lx = left_of(rows, xi, yi)->0;
        let ghost uy = up_of(rows, xi, yi)->0;
        proof {
            lemma_left_of(rows, xi, yi);
            lemma_up_of(rows, xi, yi);
            lemma_right_of_props(rows, xi, yi);
            lemma_down_of_props(rows, xi, yi);
            assert(rows[yi].len() <= u32::MAX);
            if hl == 1 {
                assert(cell_read(rows, lx, yi, xi, yi));
                lemma_cell_before(rows, lx, yi, xi, yi);
                lemma_right_of(rows, lx, xi, yi);
            }
            if vl == 1 {
                assert(cell_read(rows, xi, uy, xi, yi));
                lemma_cell_before(rows, xi, uy, xi, yi);
                lemma_down_of(rows, xi, uy, yi);
                assert(oldys@[xi] == node_in_col(rows, xi, col_last(rows, xi, xi, yi)));
            } else {
                assert(oldys@[xi] == node_in_col(rows, xi, col_last(rows, xi, xi, yi)));
            }
            if hl == 1 && vl == 1 {
                if rank(rows, lx, yi) == rank(rows, xi, uy) {
                    lemma_rank_unique(rows, lx, yi, xi, uy);
                }
            }
        }
        let new = self._add_node((x as u32, y as u32), d);
        let ghost g1 = *self;
        if let Some(l) = oldx {
            self.link_left(horz, l, new, y);
        }
        let ghost g2 = *self;
        let ghost h2 = lists_view(horz@);
        proof {
            if hl == 1 {
                assert forall|r: int| yi < r < h0.len() implies #[trigger] h0[r].len() == 0 by {
                    assert(h0[r] == horz_expected(rows, r, xi, yi));
                }
                lemma_lists_push(h0, h2, yi, nb0 as ID);
            }
        }
        let up = oldys[x];
        if let Some(u) = up {
            self.link_up(horz, u, new);
        }
        let ghost g3 = *self;
        let ghost h3 = lists_view(horz@);
        oldys.set(x, Some(new));
        // the numbers of nodes and bridges fit a usize
        let n_nodes = self.nodes.len();
        let n_bridges = self.bridges.len();
        proof {
            assert(n_nodes == g3.nodes@.len() && n_bridges == g3.bridges@.len());
            assert(h3 == h2);
            assert(g3.bridges@.len() == nb0 + hl + vl);
            // the nodes
            assert(g3.nodes@[new as int] == node_read(rows, xi, yi, xi + 1, yi));
            assert forall|k: int|
                0 <= k < g0.nodes@.len() && node_in_row(rows, left_of(rows, xi, yi), yi) != Some(k as ID) && node_in_col(
                    rows,
                    xi,
                    up_of(rows, xi, yi),
                ) != Some(k as ID) implies #[trigger] g3.nodes@[k] == g0.nodes@[k] by {
                assert(g1.nodes@[k] == g0.nodes@[k]);
                assert(g2.nodes@[k] == g1.nodes@[k]);
            }
            lemma_nodes_step(rows, g0, g3, xi, yi);
            // the bridges
            assert forall|c: int| 0 <= c < nb0 implies (#[trigger] g3.bridges@[c]).nodes == g0.bridges@[c].nodes
                && g3.bridges@[c].domain == g0.bridges@[c].domain by {
                assert(g2.bridges@[c] == g0.bridges@[c]);
            }
            lemma_bridges_step(rows, g0, g3, xi, yi);
            lemma_cells_step(rows, cells, xi, yi);
            // the lists of rows
            assert forall|r: int| 0 <= r < h0.len() && r != yi implies #[trigger] h3[r] == h0[r] by {
                if hl == 1 {
                    assert(h2[r] == h0[r]);
                }
            }
            lemma_horz_step(rows, h0, h3, xi, yi);
            // the crossings
            assert forall|c: int|
                0 <= c < nb0 implies (#[trigger] g3.bridges@[c]).crosses@ == (if vl == 1 && listed_in_rows(
                    h2,
                    c as ID,
                    uy + 1,
                    yi,
                ) && spans(g2, c as ID, x as u32) {
                    g0.bridges@[c].crosses@.push((nb0 + hl) as ID)
                } else {
                    g0.bridges@[c].crosses@
                }) by {
                assert(g2.bridges@[c] == g0.bridges@[c]);
            }
            if hl == 1 && vl == 1 {
                lemma_not_listed(h0, nb0 as nat, nb0 as ID, uy + 1, yi);
                if listed_in_rows(h2, nb0 as ID, uy + 1, yi) {
                    let r = choose|r: int| uy + 1 <= r < yi && #[trigger] h2[r].contains(nb0 as ID);
                    assert(h2[r] == h0[r]);
                    assert(uy + 1 <= r < yi && h0[r].contains(nb0 as ID));
                }
            }
            lemma_crossings_step(rows, g0, g2, g3, h0, h2, cells, xi, yi);
            // the crossing lists stay increasing
            assert forall|c: int| 0 <= c < g3.bridges@.len() implies increasing(#[trigger] g3.bridges@[c].crosses@) by {
                if c < nb0 {
                    assert(increasing(g0.bridges@[c].crosses@));
                    assert(crate::graph::bridge_ok(g0.bridges@[c], c, g0.nodes@.len(), g0.bridges@.len()));
                    if g3.bridges@[c].crosses@ != g0.bridges@[c].crosses@ {
                        lemma_push_increasing(g0.bridges@[c].crosses@, (nb0 + hl) as ID);
                    }
                } else if hl == 1 && c == nb0 {
                } else {
                    lemma_cross_rows_sorted(g2, h2, x as u32, uy + 1, yi);
                }
            }
            // the islands
            assert forall|i: int| 0 <= i < g3.islands@.len() implies (#[trigger] g3.islands@[i] matches IslandSlot::Isl(
                isl,
            ) && isl.nodes@ == seq![i as ID] && isl.ext_bridges@ == Seq::<ID>::empty() && isl.id == i) by {
                if i < g0.islands@.len() {
                    assert(g3.islands@[i] == g0.islands@[i]);
                }
            }
            // the last node of each column
            assert forall|c: int| 0 <= c < oldys@.len() implies #[trigger] oldys@[c] == node_in_col(
                rows,
                c,
                col_last(rows, c, xi + 1, yi),
            ) by {
                if c != xi {
                    assert(old(oldys)@[c] == node_in_col(rows, c, col_last(rows, c, xi, yi)));
                }
            }
        }
        new
    }
}


/// A graph read from the rows of a puzzle: a node for each digit cell in reading order,
/// a bridge between each pair of neighbouring digits in a row or a column, each listing
/// the bridges it crosses, every count still possible, and one island per node.
pub open spec fn graph_of(rows: Seq<Seq<char>>, g: HashiGraph) -> bool {
    &&& nodes_read(rows, g, 0, rows.len() as int)
    &&& bridges_read(rows, g, 0, rows.len() as int)
    &&& crossings_read(g)
    &&& crossings_sorted(g)
    &&& islands_fresh(g)
}

/// The rows of the puzzle all have the same length in bytes.
pub open spec fn rectangular(puzzle: Seq<&str>) -> bool {
    forall|y: int| 0 <= y < puzzle.len() ==> (#[trigger] puzzle[y]).spec_bytes().len() == puzzle[0].spec_bytes().len()
}

impl HashiGraph {
    /// Builds the graph of a puzzle given as rows of cells, each a digit or another
    /// character; queues every node, the first node last.
    pub fn new(puzzle: &[&str]) -> (g: Self)
        requires
            puzzle@.len() > 0,
            rectangular(puzzle@),
            grid_fits(rows_of(puzzle@)),
        ensures
            g.wf(),
            graph_of(rows_of(puzzle@), g),
            forall|b: int| 0 <= b < g.bridges@.len() ==> (#[trigger] g.bridges@[b]).crosses@.no_duplicates(),
            islands_ok(layout(g)),
            g.node_queue@ == Seq::new(g.nodes@.len(), |i: int| (g.nodes@.len() - 1 - i) as ID),
    {
        let ghost rows = rows_of(puzzle@);
        let height = puzzle.len();
        let mut width: usize = 0;
        let mut horz: Vec<Vec<ID>> = Vec::new();
        let mut k: usize = 0;
        while k < height
            invariant
                height == puzzle@.len(),
                rows == rows_of(puzzle@),
                k <= height,
                forall|j: int| 0 <= j < k ==> #[trigger] rows[j].len() <= width,
                horz@.len() == k,
                forall|j: int| 0 <= j < k ==> (#[trigger] horz@[j])@ == Seq::<ID>::empty(),
            decreases height - k,
        {
            let w = puzzle[k].unicode_len();
            if w > width {
                width = w;
            }
            horz.push(Vec::new());
            k = k + 1;
        }
        let mut oldys: Vec<Option<ID>> = Vec::new();
        let mut c: usize = 0;
        while c < width
            invariant
                c <= width,
                oldys@ == Seq::new(c as nat, |i: int| None::<ID>),
            decreases width - c,
        {
            oldys.push(None);
            c = c + 1;
        }
        let mut graph = HashiGraph { nodes: Vec::new(), bridges: Vec::new(), islands: Vec::new(), node_queue: Vec::new() };
        let ghost mut cells: Seq<(int, int, bool)> = Seq::empty();
        proof {
            assert forall|r: int| 0 <= r < rows.len() implies #[trigger] lists_view(horz@)[r] == horz_expected(rows, r, 0, 0) by {
                assert(horz@[r]@ == Seq::<ID>::empty());
            }
            assert forall|cc: int| 0 <= cc < oldys@.len() implies #[trigger] oldys@[cc] == node_in_col(
                rows,
                cc,
                col_last(rows, cc, 0, 0),
            ) by {
                assert(oldys@[cc] == None::<ID>);
            }
            assert(lists_view(horz@).len() == rows.len());
        }
        let mut y: usize = 0;
        while y < height
            invariant
                height == puzzle@.len(),
                rows == rows_of(puzzle@),
                y <= height,
                read_ok(rows, graph, lists_view(horz@), cells, oldys@, 0, y as int),
            decreases height - y,
        {
            let line = puzzle[y];
            let n = line.unicode_len();
            let mut oldx: Option<ID> = None;
            let mut x: usize = 0;
            while x < n
                invariant
                    rows == rows_of(puzzle@),
                    y < height,
                    height == puzzle@.len(),
                    line@ == rows[y as int],
                    n == rows[y as int].len(),
                    x <= n,
                    read_ok(rows, graph, lists_view(horz@), cells, oldys@, x as int, y as int),
                    oldx == node_in_row(rows, left_of(rows, x as int, y as int), y as int),
                decreases n - x,
            {
                let ch = line.get_char(x);
                if '0' <= ch && ch <= '9' {
                    let d = (ch as u32) - ('0' as u32);
                    let new = graph.read_digit(&mut horz, &mut oldys, oldx, x, y, d, Ghost(rows), Ghost(cells));
                    proof {
                        cells = cells + new_cells(rows, x as int, y as int);
                    }
                    oldx = Some(new);
                } else {
                    proof {
                        lemma_skip_cell(rows, graph, lists_view(horz@), cells, oldys@, x as int, y as int);
                    }
                }
                x = x + 1;
            }
            proof {
                lemma_row_end(rows, graph, lists_view(horz@), cells, oldys@, y as int);
            }
            y = y + 1;
        }
        let ghost g_read = graph;
        let nn = graph.nodes.len();
        let mut i: usize = nn;
        while i > 0
            invariant
                i <= nn,
                nn == graph.nodes@.len(),
                graph.nodes == g_read.nodes,
                graph.bridges == g_read.bridges,
                graph.islands == g_read.islands,
                graph.node_queue@ == Seq::new((nn - i) as nat, |j: int| (nn - 1 - j) as ID),
            decreases i,
        {
            i = i - 1;
            graph.node_queue.push(i);
        }
        proof {
            assert(g_read.wf());
            assert forall|k: int| 0 <= k < graph.node_queue@.len() implies #[trigger] graph.node_queue@[k] < graph.nodes@.len() by {}
            assert(graph_of(rows, g_read));
            let lay = layout(graph);
            assert forall|j: int| live(lay, j) implies {
                &&& (#[trigger] isl(lay, j)).nodes@.no_duplicates()
                &&& isl(lay, j).ext_bridges@.no_duplicates()
                &&& forall|k: int| 0 <= k < isl(lay, j).ext_bridges@.len() ==> #[trigger] isl(lay, j).ext_bridges@[k] < lay.ends.len()
            } by {
                assert(graph.islands@[j] matches IslandSlot::Isl(i) && i.nodes@ == seq![j as ID] && i.ext_bridges@
                    == Seq::<ID>::empty());
            }
            assert forall|b: int| 0 <= b < graph.bridges@.len() implies (#[trigger] graph.bridges@[b]).crosses@.no_duplicates() by {
                let c = graph.bridges@[b].crosses@;
                assert(increasing(c));
                assert forall|i: int, j: int| 0 <= i < c.len() && 0 <= j < c.len() && i != j implies c[i] != c[j] by {
                    if i < j {
                        assert(c[i] < c[j]);
                    } else {
                        assert(c[j] < c[i]);
                    }
                }
            }
        }
        graph
    }
}


/// Crossing is mutual: a bridge lists another exactly when the other lists it.
pub proof fn lemma_crossings_mutual(g: HashiGraph, b: ID, c: ID)
    requires
        crossings_read(g),
        b < g.bridges@.len(),
        c < g.bridges@.len(),
    ensures
        g.bridges@[b as int].crosses@.contains(c) <==> g.bridges@[c as int].crosses@.contains(b),
{
    assert(g.bridges@[b as int].crosses@.contains(c) <==> bridges_cross(g, b as int, c as int));
    assert(g.bridges@[c as int].crosses@.contains(b) <==> bridges_cross(g, c as int, b as int));
}

} // verus!
