//! The mathematical model of a grid and of each solving step.
//!
//! A grid is a `Seq<CellView>` of `NUM_ELEMENTS` cells in row-major order.

use vstd::prelude::*;

use crate::element::{all_values, lemma_all_values_finite, CellView, GROUP_SIZE};

verus! {

/// The number of cells in the grid.
pub const NUM_ELEMENTS: usize = 81;

/// The three kinds of group a cell belongs to.
#[derive(PartialEq, Eq, Structural, Clone, Copy, Debug)]
pub enum Group {
    Row,
    Column,
    Block,
}

pub open spec fn is_cell(i: int) -> bool {
    0 <= i < NUM_ELEMENTS
}

pub open spec fn row_of(i: int) -> int {
    i / 9
}

pub open spec fn col_of(i: int) -> int {
    i % 9
}

/// The block of a cell, numbered row-major from 0.
pub open spec fn sqr_of(i: int) -> int {
    (row_of(i) / 3) * 3 + col_of(i) / 3
}

/// The position of a cell within its block, row-major from 0.
pub open spec fn sqr_index_of(i: int) -> int {
    (row_of(i) % 3) * 3 + col_of(i) % 3
}

pub open spec fn in_group(k: Group, i: int, j: int) -> bool {
    match k {
        Group::Row => row_of(i) == row_of(j),
        Group::Column => col_of(i) == col_of(j),
        Group::Block => sqr_of(i) == sqr_of(j),
    }
}

/// Two distinct cells that share a row, a column or a block.
pub open spec fn peers(i: int, j: int) -> bool {
    &&& i != j
    &&& (in_group(Group::Row, i, j) || in_group(Group::Column, i, j) || in_group(Group::Block, i, j))
}

/// The cell a scan of kind `k` visits at step `p`.
pub open spec fn visit(k: Group, p: int) -> int {
    match k {
        Group::Row => p,
        Group::Column => (p % 9) * 9 + p / 9,
        Group::Block => ((p / 9) / 3 * 3 + (p % 9) / 3) * 9 + (p / 9) % 3 * 3 + (p % 9) % 3,
    }
}

/// The grid with cell `i` finalized to `v`, and `v` removed from each peer.
pub open spec fn place(g: Seq<CellView>, i: int, v: usize) -> Seq<CellView> {
    Seq::new(
        g.len(),
        |j: int|
            if j == i {
                CellView::fixed(v)
            } else if peers(i, j) {
                g[j].without(v)
            } else {
                g[j]
            },
    )
}

pub open spec fn cells_wf(g: Seq<CellView>) -> bool {
    &&& g.len() == NUM_ELEMENTS
    &&& forall|i: int| is_cell(i) ==> (#[trigger] g[i]).wf()
}

/// A final cell has no candidate but its value.
pub open spec fn final_within(g: Seq<CellView>) -> bool {
    forall|i: int|
        is_cell(i) ==> ((#[trigger] g[i]).resolved matches Some(v) ==> g[i].possible.subset_of(
            set![v],
        ))
}

/// When a final cell's value is still a candidate of a peer, the final
/// cell itself has lost it: two peers that share a final value leave a
/// trace in the candidates.
pub open spec fn excludes_peers(g: Seq<CellView>) -> bool {
    forall|i: int, j: int, v: usize|
        #![trigger g[i].resolved, g[j].possible.contains(v), peers(i, j)]
        is_cell(i) && is_cell(j) && peers(i, j) && g[i].resolved == Some(v)
            && g[j].possible.contains(v) ==> !g[i].possible.contains(v)
}

/// What every grid the solver builds satisfies.
pub open spec fn sound(g: Seq<CellView>) -> bool {
    &&& cells_wf(g)
    &&& final_within(g)
    &&& excludes_peers(g)
}

/// No cell has run out of candidates.
pub open spec fn consistent(g: Seq<CellView>) -> bool {
    forall|i: int| is_cell(i) ==> (#[trigger] g[i]).possible != Set::<usize>::empty()
}

/// Every cell is final.
pub open spec fn complete(g: Seq<CellView>) -> bool {
    forall|i: int| is_cell(i) ==> (#[trigger] g[i]).is_final()
}

/// From `g1` to `g2` candidates were only removed, final values kept, and
/// each cell that became final took one of its candidates.
pub open spec fn shrinks(g1: Seq<CellView>, g2: Seq<CellView>) -> bool {
    &&& g1.len() == g2.len()
    &&& forall|i: int|
        is_cell(i) ==> {
            &&& (#[trigger] g2[i]).possible.subset_of(g1[i].possible)
            &&& (g1[i].is_final() ==> g2[i].resolved == g1[i].resolved)
            &&& (!g1[i].is_final() && g2[i].is_final() ==> g1[i].possible.contains(
                g2[i].resolved.unwrap(),
            ))
        }
}

/// The number of cells that are not final.
pub open spec fn count_open(g: Seq<CellView>) -> nat
    decreases g.len(),
{
    if g.len() == 0 {
        0
    } else {
        count_open(g.drop_last()) + if g.last().is_final() {
            0nat
        } else {
            1nat
        }
    }
}

// ---- naked singles ----

/// Finalize cell `i` when it is open with a single candidate.
pub open spec fn basic_step(g: Seq<CellView>, i: int) -> Seq<CellView> {
    match g[i].single() {
        Some(v) => place(g, i, v),
        None => g,
    }
}

/// The first `n` steps of one row-major sweep for naked singles.
pub open spec fn sweep_upto(g: Seq<CellView>, n: nat) -> Seq<CellView>
    decreases n,
{
    if n == 0 {
        g
    } else {
        basic_step(sweep_upto(g, (n - 1) as nat), n - 1)
    }
}

pub open spec fn sweep(g: Seq<CellView>) -> Seq<CellView> {
    sweep_upto(g, NUM_ELEMENTS as nat)
}

/// Sweeps repeated until one changes nothing (at most `fuel` of them).
pub open spec fn settle_basic(g: Seq<CellView>, fuel: nat) -> Seq<CellView>
    decreases fuel,
{
    if fuel == 0 || sweep(g) == g {
        g
    } else {
        settle_basic(sweep(g), (fuel - 1) as nat)
    }
}

/// The grid once no naked single is left.
pub open spec fn basic_closure(g: Seq<CellView>) -> Seq<CellView> {
    settle_basic(g, NUM_ELEMENTS as nat + 1)
}

// ---- hidden singles ----

/// The candidates of the other cells of the `k` group of cell `i`.
pub open spec fn others(g: Seq<CellView>, k: Group, i: int) -> Set<usize> {
    Set::new(
        |v: usize|
            exists|j: int|
                #![trigger g[j].possible.contains(v)]
                is_cell(j) && j != i && in_group(k, i, j) && g[j].possible.contains(v),
    )
}

/// The candidates of cell `i` that no other cell of its `k` group has.
pub open spec fn lone(g: Seq<CellView>, k: Group, i: int) -> Set<usize> {
    g[i].possible.difference(others(g, k, i))
}

/// Cell `i` is open and exactly one of its candidates fits nowhere else in
/// its `k` group.
pub open spec fn hidden_single(g: Seq<CellView>, k: Group, i: int) -> bool {
    !g[i].is_final() && lone(g, k, i).len() == 1
}

pub open spec fn scan_step(g: Seq<CellView>, k: Group, i: int) -> Seq<CellView> {
    if hidden_single(g, k, i) {
        place(g, i, lone(g, k, i).choose())
    } else {
        g
    }
}

/// The first `n` steps of a scan of kind `k`.
pub open spec fn scan_upto(g: Seq<CellView>, k: Group, n: nat) -> Seq<CellView>
    decreases n,
{
    if n == 0 {
        g
    } else {
        scan_step(scan_upto(g, k, (n - 1) as nat), k, visit(k, n - 1))
    }
}

pub open spec fn scan(g: Seq<CellView>, k: Group) -> Seq<CellView> {
    scan_upto(g, k, NUM_ELEMENTS as nat)
}

/// No cell is a hidden single of kind `k`.
pub open spec fn scan_fixed(g: Seq<CellView>, k: Group) -> bool {
    forall|i: int| is_cell(i) ==> !#[trigger] hidden_single(g, k, i)
}

// ---- rounds ----

/// One round: naked singles to their fixed point, then one row, column and
/// block scan.
pub open spec fn round(g: Seq<CellView>) -> Seq<CellView> {
    scan(scan(scan(basic_closure(g), Group::Row), Group::Column), Group::Block)
}

/// The solver stops before a round on a grid that is inconsistent or
/// complete.
pub open spec fn halts(g: Seq<CellView>) -> bool {
    !consistent(g) || complete(g)
}

/// Rounds run until the grid halts or a round changes nothing: the final
/// grid, and the number of rounds that changed it.
pub open spec fn run(g: Seq<CellView>, fuel: nat) -> (Seq<CellView>, nat)
    decreases fuel,
{
    if fuel == 0 || halts(g) || round(g) == g {
        (g, 0)
    } else {
        let (h, n) = run(round(g), (fuel - 1) as nat);
        (h, n + 1)
    }
}

/// The `t`-th member of the `k` group of cell `i`.
pub open spec fn member(k: Group, i: int, t: int) -> int {
    match k {
        Group::Row => row_of(i) * 9 + t,
        Group::Column => t * 9 + col_of(i),
        Group::Block => block_cell(sqr_of(i), t),
    }
}

/// The position of cell `j` in its `k` group.
pub open spec fn member_index(k: Group, j: int) -> int {
    match k {
        Group::Row => col_of(j),
        Group::Column => row_of(j),
        Group::Block => sqr_index_of(j),
    }
}

/// The candidates of the cells listed in `idx`.
pub open spec fn union_at(g: Seq<CellView>, idx: Seq<usize>) -> Set<usize> {
    Set::new(
        |v: usize|
            exists|t: int| 0 <= t < idx.len() && #[trigger] g[idx[t] as int].possible.contains(v),
    )
}

/// A grid where nothing is known yet.
pub open spec fn fresh_grid() -> Seq<CellView> {
    Seq::new(NUM_ELEMENTS as nat, |i: int| CellView::fresh())
}

/// The grid after each clue `(row, col, value)`, value from 1, was
/// finalized in turn, starting from a fresh grid.
pub open spec fn load(clues: Seq<(usize, usize, usize)>) -> Seq<CellView>
    decreases clues.len(),
{
    if clues.len() == 0 {
        fresh_grid()
    } else {
        let (r, c, v) = clues.last();
        place(load(clues.drop_last()), r * 9 + c, (v - 1) as usize)
    }
}

/// Each clue names a cell and a value from 1 to `GROUP_SIZE`.
pub open spec fn clues_valid(clues: Seq<(usize, usize, usize)>) -> bool {
    forall|t: int|
        0 <= t < clues.len() ==> (#[trigger] clues[t]).0 < GROUP_SIZE && clues[t].1 < GROUP_SIZE
            && 1 <= clues[t].2 <= GROUP_SIZE
}

/// Cell `i` is the first, row-major, with no candidate left.
pub open spec fn first_empty(g: Seq<CellView>, i: int) -> bool {
    &&& is_cell(i)
    &&& g[i].possible == Set::<usize>::empty()
    &&& forall|j: int| 0 <= j < i ==> (#[trigger] g[j]).possible != Set::<usize>::empty()
}

/// No peer of a final cell holds its value, final or as a candidate.
#[verifier::opaque]
pub open spec fn apart(g: Seq<CellView>) -> bool {
    forall|i: int, j: int|
        #![trigger g[i], g[j]]
        is_cell(i) && is_cell(j) && peers(i, j) && g[i].is_final() ==> {
            &&& !g[j].possible.contains(g[i].resolved.unwrap())
            &&& g[j].resolved != g[i].resolved
        }
}

/// The cell a clue names.
pub open spec fn clue_cell(c: (usize, usize, usize)) -> int {
    c.0 * 9 + c.1
}

/// No two clues name one cell, and no two clues on peer cells share a
/// value.
pub open spec fn clues_agree(clues: Seq<(usize, usize, usize)>) -> bool {
    forall|s: int, t: int|
        #![trigger clues[s], clues[t]]
        0 <= s < t < clues.len() ==> {
            &&& clue_cell(clues[s]) != clue_cell(clues[t])
            &&& (peers(clue_cell(clues[s]), clue_cell(clues[t])) ==> clues[s].2 != clues[t].2)
        }
}

// ---- lemmas ----

/// Finalizing an open cell to one of its candidates keeps final values
/// apart from their peers.
pub proof fn lemma_place_apart(g: Seq<CellView>, i: int, v: usize)
    requires
        g.len() == NUM_ELEMENTS,
        apart(g),
        is_cell(i),
        !g[i].is_final(),
        g[i].possible.contains(v),
    ensures
        apart(place(g, i, v)),
{
    reveal(apart);
    let h = place(g, i, v);
    assert forall|a: int, b: int|
        #![trigger h[a], h[b]]
        is_cell(a) && is_cell(b) && peers(a, b) && h[a].is_final() implies {
        &&& !h[b].possible.contains(h[a].resolved.unwrap())
        &&& h[b].resolved != h[a].resolved
    } by {
        if a == i {
            if g[b].resolved == Some(v) {
                assert(g[b].is_final() && peers(b, a));
                assert(!g[i].possible.contains(g[b].resolved.unwrap()));
            }
        } else if b == i {
            assert(g[a].is_final());
            assert(!g[i].possible.contains(g[a].resolved.unwrap()));
        } else {
            assert(g[a].is_final());
            assert(!g[b].possible.contains(g[a].resolved.unwrap()));
        }
    }
}

/// Loading clues that agree keeps final values apart, and every clue still
/// to come finds its cell open with its value possible.
proof fn lemma_load_agree(clues: Seq<(usize, usize, usize)>, n: int)
    requires
        clues_valid(clues),
        clues_agree(clues),
        0 <= n <= clues.len(),
    ensures
        load(clues.take(n)).len() == NUM_ELEMENTS,
        apart(load(clues.take(n))),
        forall|t: int|
            n <= t < clues.len() ==> {
                let c = #[trigger] clues[t];
                &&& !load(clues.take(n))[clue_cell(c)].is_final()
                &&& load(clues.take(n))[clue_cell(c)].possible.contains((c.2 - 1) as usize)
            },
    decreases n,
{
    if n == 0 {
        reveal(apart);
        assert(clues.take(0) =~= seq![]);
        assert forall|t: int| 0 <= t < clues.len() implies {
            let c = #[trigger] clues[t];
            &&& !load(clues.take(0))[clue_cell(c)].is_final()
            &&& load(clues.take(0))[clue_cell(c)].possible.contains((c.2 - 1) as usize)
        } by {
            lemma_coords(clues[t].0 as int, clues[t].1 as int);
        }
    } else {
        lemma_load_agree(clues, n - 1);
        let h = load(clues.take(n - 1));
        let c = clues[n - 1];
        assert(clues.take(n).drop_last() =~= clues.take(n - 1));
        assert(clues.take(n).last() == c);
        lemma_coords(c.0 as int, c.1 as int);
        lemma_place_apart(h, clue_cell(c), (c.2 - 1) as usize);
        assert forall|t: int| n <= t < clues.len() implies {
            let d = #[trigger] clues[t];
            &&& !load(clues.take(n))[clue_cell(d)].is_final()
            &&& load(clues.take(n))[clue_cell(d)].possible.contains((d.2 - 1) as usize)
        } by {
            let d = clues[t];
            assert(clue_cell(c) != clue_cell(d) && (peers(clue_cell(c), clue_cell(d)) ==> c.2 != d.2));
            lemma_coords(d.0 as int, d.1 as int);
        }
    }
}

/// Clues that agree load into a grid whose final values are apart.
pub proof fn lemma_load_apart(clues: Seq<(usize, usize, usize)>)
    requires
        clues_valid(clues),
        clues_agree(clues),
    ensures
        apart(load(clues)),
{
    lemma_load_agree(clues, clues.len() as int);
    assert(clues.take(clues.len() as int) =~= clues);
}

pub proof fn lemma_member(k: Group, i: int, t: int)
    requires
        is_cell(i),
        0 <= t < 9,
    ensures
        is_cell(member(k, i, t)),
        in_group(k, i, member(k, i, t)),
        member_index(k, member(k, i, t)) == t,
{
    match k {
        Group::Row => lemma_coords(row_of(i), t),
        Group::Column => lemma_coords(t, col_of(i)),
        Group::Block => lemma_block_cell(sqr_of(i), t),
    }
}

pub proof fn lemma_member_cover(k: Group, i: int, j: int)
    requires
        is_cell(i),
        is_cell(j),
        in_group(k, i, j),
    ensures
        j == member(k, i, member_index(k, j)),
        0 <= member_index(k, j) < 9,
{
    assert(j == row_of(j) * 9 + col_of(j));
    if k == Group::Block {
        lemma_block_cover(j);
        lemma_block_cell(sqr_of(j), sqr_index_of(j));
    }
}

pub proof fn lemma_union_step(g: Seq<CellView>, idx: Seq<usize>, t: int)
    requires
        0 <= t < idx.len(),
    ensures
        union_at(g, idx.take(t + 1)) == union_at(g, idx.take(t)).union(g[idx[t] as int].possible),
{
    let a = idx.take(t + 1);
    let b = idx.take(t);
    let last = g[idx[t] as int].possible;
    assert forall|v: usize| union_at(g, a).contains(v) implies #[trigger] union_at(g, b).union(
        last,
    ).contains(v) by {
        let s = choose|s: int| 0 <= s < a.len() && #[trigger] g[a[s] as int].possible.contains(v);
        if s < t {
            assert(b[s] == a[s]);
            assert(g[b[s] as int].possible.contains(v));
            assert(union_at(g, b).contains(v));
        } else {
            assert(a[s] == idx[t]);
        }
    }
    assert forall|v: usize| #[trigger] union_at(g, b).union(last).contains(v) implies union_at(
        g,
        a,
    ).contains(v) by {
        if union_at(g, b).contains(v) {
            let s = choose|s: int| 0 <= s < b.len() && #[trigger] g[b[s] as int].possible.contains(v);
            assert(a[s] == b[s]);
            assert(g[a[s] as int].possible.contains(v));
        } else {
            assert(a[t] == idx[t]);
            assert(g[a[t] as int].possible.contains(v));
        }
    }
    assert(union_at(g, a) =~= union_at(g, b).union(last));
}

pub proof fn lemma_union_others(g: Seq<CellView>, k: Group, i: int, idx: Seq<usize>)
    requires
        forall|t: int| 0 <= t < idx.len() ==> (#[trigger] idx[t]) < NUM_ELEMENTS,
        forall|j: usize|
            j < NUM_ELEMENTS ==> (#[trigger] idx.contains(j) <==> (j != i && in_group(
                k,
                i,
                j as int,
            ))),
    ensures
        union_at(g, idx) == others(g, k, i),
{
    assert forall|v: usize| #[trigger] union_at(g, idx).contains(v) == others(g, k, i).contains(
        v,
    ) by {
        if union_at(g, idx).contains(v) {
            let t = choose|t: int| 0 <= t < idx.len() && #[trigger] g[idx[t] as int].possible.contains(v);
            assert(idx.contains(idx[t]));
            let j = idx[t] as int;
            assert(is_cell(j) && j != i && in_group(k, i, j) && g[j].possible.contains(v));
        }
        if others(g, k, i).contains(v) {
            let j = choose|j: int|
                #![trigger g[j].possible.contains(v)]
                is_cell(j) && j != i && in_group(k, i, j) && g[j].possible.contains(v);
            assert(idx.contains(j as usize));
            let t = choose|t: int| 0 <= t < idx.len() && idx[t] == j as usize;
            assert(g[idx[t] as int].possible.contains(v));
        }
    }
    assert(union_at(g, idx) =~= others(g, k, i));
}

pub proof fn lemma_visit_cell(k: Group, p: int)
    requires
        0 <= p < NUM_ELEMENTS,
    ensures
        is_cell(visit(k, p)),
{
}

pub proof fn lemma_coords(r: int, c: int)
    requires
        0 <= r < 9,
        0 <= c < 9,
    ensures
        row_of(r * 9 + c) == r,
        col_of(r * 9 + c) == c,
        is_cell(r * 9 + c),
{
    assert((r * 9 + c) / 9 == r && (r * 9 + c) % 9 == c) by (nonlinear_arith)
        requires
            0 <= r < 9,
            0 <= c < 9,
    ;
}

/// The cell at position `k` of block `s`.
pub open spec fn block_cell(s: int, k: int) -> int {
    ((s / 3) * 3 + k / 3) * 9 + (s % 3) * 3 + k % 3
}

pub proof fn lemma_block_cell(s: int, k: int)
    requires
        0 <= s < 9,
        0 <= k < 9,
    ensures
        is_cell(block_cell(s, k)),
        row_of(block_cell(s, k)) == (s / 3) * 3 + k / 3,
        col_of(block_cell(s, k)) == (s % 3) * 3 + k % 3,
        sqr_of(block_cell(s, k)) == s,
        sqr_index_of(block_cell(s, k)) == k,
{
    let r = (s / 3) * 3 + k / 3;
    let c = (s % 3) * 3 + k % 3;
    lemma_coords(r, c);
    assert(block_cell(s, k) == r * 9 + c);
}

pub proof fn lemma_block_cover(t: int)
    requires
        is_cell(t),
    ensures
        t == block_cell(sqr_of(t), sqr_index_of(t)),
{
    lemma_block_cell(sqr_of(t), sqr_index_of(t));
    assert(t == row_of(t) * 9 + col_of(t));
}

pub proof fn lemma_place_sound(g: Seq<CellView>, i: int, v: usize)
    requires
        sound(g),
        is_cell(i),
        v < GROUP_SIZE,
    ensures
        sound(place(g, i, v)),
        place(g, i, v)[i] == CellView::fixed(v),
{
    let h = place(g, i, v);
    assert forall|j: int| is_cell(j) implies (#[trigger] h[j]).wf() by {
        assert(g[j].wf());
        if j == i {
            assert(set![v].subset_of(all_values()));
        }
    }
    assert forall|a: int| is_cell(a) implies ((#[trigger] h[a]).resolved matches Some(w)
        ==> h[a].possible.subset_of(set![w])) by {
        assert(g[a].wf());
    }
    assert forall|a: int, b: int, w: usize|
        #![trigger h[a].resolved, h[b].possible.contains(w), peers(a, b)]
        is_cell(a) && is_cell(b) && peers(a, b) && h[a].resolved == Some(w) && h[
            b
        ].possible.contains(w) implies !h[a].possible.contains(w) by {
        if a == i {
        } else if b == i {
            assert(w == v);
        } else {
            assert(g[a].resolved == Some(w));
            assert(g[b].possible.contains(w));
        }
    }
}

pub proof fn lemma_place_shrinks(g: Seq<CellView>, i: int, v: usize)
    requires
        g.len() == NUM_ELEMENTS,
        is_cell(i),
        !g[i].is_final(),
        g[i].possible.contains(v),
    ensures
        shrinks(g, place(g, i, v)),
{
}

pub proof fn lemma_shrinks_trans(g1: Seq<CellView>, g2: Seq<CellView>, g3: Seq<CellView>)
    requires
        shrinks(g1, g2),
        shrinks(g2, g3),
    ensures
        shrinks(g1, g3),
{
    assert forall|i: int| is_cell(i) implies {
        &&& (#[trigger] g3[i]).possible.subset_of(g1[i].possible)
        &&& (g1[i].is_final() ==> g3[i].resolved == g1[i].resolved)
        &&& (!g1[i].is_final() && g3[i].is_final() ==> g1[i].possible.contains(
            g3[i].resolved.unwrap(),
        ))
    } by {
        assert(g2[i].possible.subset_of(g1[i].possible));
        assert(g3[i].possible.subset_of(g2[i].possible));
    }
}

pub proof fn lemma_shrinks_refl(g: Seq<CellView>)
    ensures
        shrinks(g, g),
{
}

pub proof fn lemma_fresh_sound()
    ensures
        sound(fresh_grid()),
        !complete(fresh_grid()),
{
    lemma_all_values_finite();
    assert(fresh_grid()[0].resolved.is_none());
}

pub proof fn lemma_load_sound(clues: Seq<(usize, usize, usize)>)
    requires
        clues_valid(clues),
    ensures
        sound(load(clues)),
    decreases clues.len(),
{
    if clues.len() == 0 {
        lemma_fresh_sound();
    } else {
        let (r, c, v) = clues.last();
        assert(clues_valid(clues.drop_last())) by {
            assert forall|t: int| 0 <= t < clues.len() - 1 implies #[trigger] clues.drop_last()[t]
                == clues[t] by {}
        }
        assert(clues[clues.len() - 1] == clues.last());
        lemma_load_sound(clues.drop_last());
        lemma_coords(r as int, c as int);
        lemma_place_sound(load(clues.drop_last()), r * 9 + c, (v - 1) as usize);
    }
}

pub proof fn lemma_count_bound(g: Seq<CellView>)
    ensures
        count_open(g) <= g.len(),
    decreases g.len(),
{
    if g.len() > 0 {
        lemma_count_bound(g.drop_last());
    }
}

/// Turning one open cell final, and no other, lowers the count by one.
pub proof fn lemma_count_one(g1: Seq<CellView>, g2: Seq<CellView>, i: int)
    requires
        g1.len() == g2.len(),
        0 <= i < g1.len(),
        !g1[i].is_final(),
        g2[i].is_final(),
        forall|j: int| 0 <= j < g1.len() && j != i ==> g1[j].is_final() == g2[j].is_final(),
    ensures
        count_open(g2) + 1 == count_open(g1),
    decreases g1.len(),
{
    if i == g1.len() - 1 {
        lemma_count_same(g1.drop_last(), g2.drop_last());
    } else {
        lemma_count_one(g1.drop_last(), g2.drop_last(), i);
    }
}

pub proof fn lemma_count_same(g1: Seq<CellView>, g2: Seq<CellView>)
    requires
        g1.len() == g2.len(),
        forall|j: int| 0 <= j < g1.len() ==> g1[j].is_final() == g2[j].is_final(),
    ensures
        count_open(g2) == count_open(g1),
    decreases g1.len(),
{
    if g1.len() > 0 {
        lemma_count_same(g1.drop_last(), g2.drop_last());
    }
}

pub proof fn lemma_count_place(g: Seq<CellView>, i: int, v: usize)
    requires
        g.len() == NUM_ELEMENTS,
        is_cell(i),
        !g[i].is_final(),
    ensures
        count_open(place(g, i, v)) + 1 == count_open(g),
{
    lemma_count_one(g, place(g, i, v), i);
}

/// A scan of kind `k` leaves a grid with no hidden single of that kind as
/// it is.
pub proof fn lemma_scan_upto_fixed(g: Seq<CellView>, k: Group, n: nat)
    requires
        scan_fixed(g, k),
        n <= NUM_ELEMENTS,
    ensures
        scan_upto(g, k, n) == g,
    decreases n,
{
    if n > 0 {
        lemma_scan_upto_fixed(g, k, (n - 1) as nat);
        lemma_visit_cell(k, n - 1);
        assert(!hidden_single(g, k, visit(k, n - 1)));
    }
}

} // verus!
