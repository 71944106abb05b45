//! The evolution coordinator: applies the changes that the scanner found for
//! every sub-region to a fresh copy of the grid, giving the next generation.

use vstd::prelude::*;
use crate::board::{copy_board, is_binary, set_cell, shaped, Board};
use crate::partition::{covered, region_holds, regions_cover, regions_inside, SubRegion};
use crate::scan::{
    capture_moves, cell_change, life_next, region_changes, row_changes, CellChange,
};

verus! {

/// `g` with the single change `m` written into it.
pub open spec fn apply_change(g: Seq<Seq<u8>>, m: CellChange) -> Seq<Seq<u8>> {
    g.update(m.0 as int, g[m.0 as int].update(m.1 as int, m.2))
}

/// `g` with the changes `ms` written into it in order.
pub open spec fn apply_changes(g: Seq<Seq<u8>>, ms: Seq<CellChange>) -> Seq<Seq<u8>>
    decreases ms.len(),
{
    if ms.len() == 0 {
        g
    } else {
        apply_change(apply_changes(g, ms.drop_last()), ms.last())
    }
}

/// `g` with each batch of changes written into it in order.
pub open spec fn apply_all(g: Seq<Seq<u8>>, batches: Seq<Seq<CellChange>>) -> Seq<Seq<u8>>
    decreases batches.len(),
{
    if batches.len() == 0 {
        g
    } else {
        apply_changes(apply_all(g, batches.drop_last()), batches.last())
    }
}

/// Each change of `ms` names a cell of `g`.
pub open spec fn changes_in(g: Seq<Seq<u8>>, ms: Seq<CellChange>) -> bool {
    forall|k: int|
        0 <= k < ms.len() ==> {
            &&& (#[trigger] ms[k]).0 < g.len()
            &&& ms[k].1 < g[ms[k].0 as int].len()
        }
}

/// The next generation of the `rows` x `cols` grid `g`.
pub open spec fn life_step(g: Seq<Seq<u8>>, rows: int, cols: int) -> Seq<Seq<u8>> {
    Seq::new(rows as nat, |r: int| Seq::new(cols as nat, |c: int| life_next(g, rows, cols, r, c)))
}

/// The changes found in each of `regions`, all read against `g`.
pub open spec fn region_batches(g: Seq<Seq<u8>>, rows: int, cols: int, regions: Seq<SubRegion>) -> Seq<
    Seq<CellChange>,
> {
    regions.map_values(
        |reg: SubRegion|
            region_changes(g, rows, cols, reg.0 as int, reg.1 as int, reg.2 as int, reg.3 as int),
    )
}

/// One generation computed region by region: every region scanned against
/// `g`, then all the changes applied.
pub open spec fn partitioned_step(g: Seq<Seq<u8>>, rows: int, cols: int, regions: Seq<SubRegion>) -> Seq<
    Seq<u8>,
> {
    apply_all(g, region_batches(g, rows, cols, regions))
}

/// `g` after `n` generations.
pub open spec fn life_run(g: Seq<Seq<u8>>, rows: int, cols: int, n: nat) -> Seq<Seq<u8>>
    decreases n,
{
    if n == 0 {
        g
    } else {
        life_step(life_run(g, rows, cols, (n - 1) as nat), rows, cols)
    }
}

/// `g` after `n` generations, each computed region by region.
pub open spec fn partitioned_run(
    g: Seq<Seq<u8>>,
    rows: int,
    cols: int,
    regions: Seq<SubRegion>,
    n: nat,
) -> Seq<Seq<u8>>
    decreases n,
{
    if n == 0 {
        g
    } else {
        partitioned_step(partitioned_run(g, rows, cols, regions, (n - 1) as nat), rows, cols, regions)
    }
}

/// The cells of rows `r0 .. r1` and columns `c0 .. c1`.
spec fn rect(r0: int, r1: int, c0: int, c1: int) -> Set<(int, int)> {
    Set::new(|p: (int, int)| r0 <= p.0 < r1 && c0 <= p.1 < c1)
}

/// The cells that lie in some region of `regions`.
spec fn covered_set(regions: Seq<SubRegion>) -> Set<(int, int)> {
    Set::new(|p: (int, int)| covered(regions, p.0, p.1))
}

/// `h` holds the next value of `g` on the cells of `done`, and the value of
/// `g` on the others.
spec fn agrees(h: Seq<Seq<u8>>, g: Seq<Seq<u8>>, rows: int, cols: int, done: Set<(int, int)>) -> bool {
    &&& shaped(h, rows, cols)
    &&& forall|r: int, c: int|
        0 <= r < rows && 0 <= c < cols ==> #[trigger] h[r][c] == if done.contains((r, c)) {
            life_next(g, rows, cols, r, c)
        } else {
            g[r][c]
        }
}

proof fn lemma_apply_concat(g: Seq<Seq<u8>>, a: Seq<CellChange>, b: Seq<CellChange>)
    ensures
        apply_changes(g, a + b) == apply_changes(apply_changes(g, a), b),
    decreases b.len(),
{
    if b.len() == 0 {
        assert(a + b =~= a);
    } else {
        assert((a + b).drop_last() =~= a + b.drop_last());
        assert((a + b).last() == b.last());
        lemma_apply_concat(g, a, b.drop_last());
    }
}

proof fn lemma_apply_cell(h: Seq<Seq<u8>>, g: Seq<Seq<u8>>, rows: int, cols: int, done: Set<(int, int)>, r: int, c: int)
    requires
        shaped(g, rows, cols),
        agrees(h, g, rows, cols, done),
        0 <= r < rows,
        0 <= c < cols,
        rows <= usize::MAX,
        cols <= usize::MAX,
    ensures
        agrees(apply_changes(h, cell_change(g, rows, cols, r, c)), g, rows, cols, done.insert((r, c))),
{
    let ms = cell_change(g, rows, cols, r, c);
    if ms.len() > 0 {
        assert(ms.drop_last() =~= Seq::<CellChange>::empty());
        assert(apply_changes(h, ms.drop_last()) == h);
        assert(apply_changes(h, ms) == apply_change(h, ms.last()));
    }
}

proof fn lemma_apply_row(
    h: Seq<Seq<u8>>,
    g: Seq<Seq<u8>>,
    rows: int,
    cols: int,
    done: Set<(int, int)>,
    r: int,
    c0: int,
    c1: int,
)
    requires
        shaped(g, rows, cols),
        agrees(h, g, rows, cols, done),
        0 <= r < rows,
        0 <= c0,
        c1 <= cols,
        rows <= usize::MAX,
        cols <= usize::MAX,
    ensures
        agrees(apply_changes(h, row_changes(g, rows, cols, r, c0, c1)), g, rows, cols, done.union(rect(r, r + 1, c0, c1))),
    decreases c1 - c0,
{
    if c1 <= c0 {
        assert(done.union(rect(r, r + 1, c0, c1)) =~= done);
    } else {
        let front = row_changes(g, rows, cols, r, c0, c1 - 1);
        lemma_apply_row(h, g, rows, cols, done, r, c0, c1 - 1);
        lemma_apply_concat(h, front, cell_change(g, rows, cols, r, c1 - 1));
        let d1 = done.union(rect(r, r + 1, c0, c1 - 1));
        lemma_apply_cell(apply_changes(h, front), g, rows, cols, d1, r, c1 - 1);
        assert(d1.insert((r, c1 - 1)) =~= done.union(rect(r, r + 1, c0, c1)));
    }
}

proof fn lemma_apply_region(
    h: Seq<Seq<u8>>,
    g: Seq<Seq<u8>>,
    rows: int,
    cols: int,
    done: Set<(int, int)>,
    r0: int,
    r1: int,
    c0: int,
    c1: int,
)
    requires
        shaped(g, rows, cols),
        agrees(h, g, rows, cols, done),
        0 <= r0,
        r1 <= rows,
        0 <= c0,
        c1 <= cols,
        rows <= usize::MAX,
        cols <= usize::MAX,
    ensures
        agrees(
            apply_changes(h, region_changes(g, rows, cols, r0, r1, c0, c1)),
            g,
            rows,
            cols,
            done.union(rect(r0, r1, c0, c1)),
        ),
    decreases r1 - r0,
{
    if r1 <= r0 {
        assert(done.union(rect(r0, r1, c0, c1)) =~= done);
    } else {
        let front = region_changes(g, rows, cols, r0, r1 - 1, c0, c1);
        lemma_apply_region(h, g, rows, cols, done, r0, r1 - 1, c0, c1);
        lemma_apply_concat(h, front, row_changes(g, rows, cols, r1 - 1, c0, c1));
        let d1 = done.union(rect(r0, r1 - 1, c0, c1));
        lemma_apply_row(apply_changes(h, front), g, rows, cols, d1, r1 - 1, c0, c1);
        assert(d1.union(rect(r1 - 1, r1, c0, c1)) =~= done.union(rect(r0, r1, c0, c1)));
    }
}

proof fn lemma_batches_prefix(g: Seq<Seq<u8>>, rows: int, cols: int, regions: Seq<SubRegion>, k: int)
    requires
        shaped(g, rows, cols),
        regions_inside(regions, rows, cols),
        0 <= k <= regions.len(),
        rows <= usize::MAX,
        cols <= usize::MAX,
    ensures
        agrees(
            apply_all(g, region_batches(g, rows, cols, regions).take(k)),
            g,
            rows,
            cols,
            covered_set(regions.take(k)),
        ),
    decreases k,
{
    let batches = region_batches(g, rows, cols, regions);
    if k == 0 {
        assert(covered_set(regions.take(0)) =~= Set::<(int, int)>::empty());
    } else {
        lemma_batches_prefix(g, rows, cols, regions, k - 1);
        assert(batches.take(k).drop_last() =~= batches.take(k - 1));
        let reg = regions[k - 1];
        let h = apply_all(g, batches.take(k - 1));
        let d = covered_set(regions.take(k - 1));
        lemma_apply_region(h, g, rows, cols, d, reg.0 as int, reg.1 as int, reg.2 as int, reg.3 as int);
        assert forall|p: (int, int)| #[trigger] covered_set(regions.take(k)).contains(p) == d.union(
            rect(reg.0 as int, reg.1 as int, reg.2 as int, reg.3 as int),
        ).contains(p) by {
            if covered(regions.take(k), p.0, p.1) {
                let j = choose|j: int| 0 <= j < k && #[trigger] region_holds(regions.take(k)[j], p.0, p.1);
                if j < k - 1 {
                    assert(region_holds(regions.take(k - 1)[j], p.0, p.1));
                }
            }
            if d.contains(p) {
                let j = choose|j: int| 0 <= j < k - 1 && #[trigger] region_holds(regions.take(k - 1)[j], p.0, p.1);
                assert(region_holds(regions.take(k)[j], p.0, p.1));
            }
            if region_holds(reg, p.0, p.1) {
                assert(region_holds(regions.take(k)[k - 1], p.0, p.1));
            }
        }
        assert(covered_set(regions.take(k)) =~= d.union(rect(reg.0 as int, reg.1 as int, reg.2 as int, reg.3 as int)));
    }
}

/// Computing one generation region by region gives the Life step, whatever
/// regions are used, as long as they lie inside the grid and cover it: each
/// region is scanned against the same grid, so the order in which the
/// regions' changes are applied does not matter.
pub proof fn lemma_partitioned_step(g: Seq<Seq<u8>>, rows: usize, cols: usize, regions: Seq<SubRegion>)
    requires
        shaped(g, rows as int, cols as int),
        regions_inside(regions, rows as int, cols as int),
        regions_cover(regions, rows as int, cols as int),
    ensures
        partitioned_step(g, rows as int, cols as int, regions) == life_step(g, rows as int, cols as int),
{
    let (nr, nc) = (rows as int, cols as int);
    let batches = region_batches(g, nr, nc, regions);
    lemma_batches_prefix(g, nr, nc, regions, regions.len() as int);
    assert(regions.take(regions.len() as int) =~= regions);
    assert(batches.take(batches.len() as int) =~= batches);
    let h = partitioned_step(g, nr, nc, regions);
    let s = life_step(g, nr, nc);
    assert forall|r: int| 0 <= r < nr implies #[trigger] h[r] =~= s[r] by {
        assert forall|c: int| 0 <= c < nc implies #[trigger] h[r][c] == s[r][c] by {
            assert(covered(regions, r, c));
            assert(covered_set(regions).contains((r, c)));
        }
    }
    assert(h =~= s);
}

/// Running any number of generations region by region, over regions that lie
/// inside the grid and cover it, gives the same grid at every generation as
/// running them one whole step at a time.
pub proof fn lemma_partitioned_run(g: Seq<Seq<u8>>, rows: usize, cols: usize, regions: Seq<SubRegion>, n: nat)
    requires
        shaped(g, rows as int, cols as int),
        regions_inside(regions, rows as int, cols as int),
        regions_cover(regions, rows as int, cols as int),
    ensures
        partitioned_run(g, rows as int, cols as int, regions, n) == life_run(g, rows as int, cols as int, n),
        shaped(life_run(g, rows as int, cols as int, n), rows as int, cols as int),
    decreases n,
{
    if n > 0 {
        lemma_partitioned_run(g, rows, cols, regions, (n - 1) as nat);
        lemma_partitioned_step(life_run(g, rows as int, cols as int, (n - 1) as nat), rows, cols, regions);
    }
}

proof fn lemma_life_step_binary(g: Seq<Seq<u8>>, rows: int, cols: int)
    requires
        is_binary(g, rows, cols),
    ensures
        is_binary(life_step(g, rows, cols), rows, cols),
{
    assert forall|r: int, c: int| 0 <= r < rows && 0 <= c < cols implies #[trigger] life_step(g, rows, cols)[r][c] <= 1 by {
        assert(g[r][c] <= 1);
    }
}

/// Writes the changes into the board, in order.
pub fn apply_moves(brd: &mut Board, moves: &Vec<CellChange>)
    requires
        changes_in(old(brd)@, moves@),
    ensures
        final(brd)@ == apply_changes(old(brd)@, moves@),
{
    let ghost g = brd@;
    let mut i: usize = 0;
    while i < moves.len()
        invariant
            i <= moves@.len(),
            changes_in(g, moves@),
            brd@ == apply_changes(g, moves@.take(i as int)),
            brd@.len() == g.len(),
            forall|r: int| 0 <= r < g.len() ==> #[trigger] brd@[r].len() == g[r].len(),
        decreases moves@.len() - i,
    {
        let (r, c, v) = moves[i];
        proof {
            assert(moves@.take(i + 1).drop_last() =~= moves@.take(i as int));
        }
        set_cell(brd, r, c, v);
        i = i + 1;
    }
    assert(moves@.take(i as int) =~= moves@);
}

/// Applies each batch of changes, in order, to a copy of the board.
pub fn merge_moves(brd: &Board, batches: &Vec<Vec<CellChange>>) -> (next: Board)
    requires
        forall|k: int| 0 <= k < batches@.len() ==> changes_in(brd@, #[trigger] batches@[k]@),
    ensures
        next@ == apply_all(brd@, batches@.map_values(|b: Vec<CellChange>| b@)),
{
    let ghost g = brd@;
    let ghost views = batches@.map_values(|b: Vec<CellChange>| b@);
    let mut next = copy_board(brd);
    let mut k: usize = 0;
    while k < batches.len()
        invariant
            k <= batches@.len(),
            views == batches@.map_values(|b: Vec<CellChange>| b@),
            forall|j: int| 0 <= j < batches@.len() ==> changes_in(g, #[trigger] batches@[j]@),
            next@ == apply_all(g, views.take(k as int)),
            next@.len() == g.len(),
            forall|r: int| 0 <= r < g.len() ==> #[trigger] next@[r].len() == g[r].len(),
        decreases batches@.len() - k,
    {
        proof {
            assert(views.take(k + 1).drop_last() =~= views.take(k as int));
            lemma_apply_keeps_shape(next@, batches@[k as int]@);
        }
        apply_moves(&mut next, &batches[k]);
        k = k + 1;
    }
    assert(views.take(k as int) =~= views);
    next
}

proof fn lemma_apply_keeps_shape(g: Seq<Seq<u8>>, ms: Seq<CellChange>)
    requires
        changes_in(g, ms),
    ensures
        apply_changes(g, ms).len() == g.len(),
        forall|r: int| 0 <= r < g.len() ==> #[trigger] apply_changes(g, ms)[r].len() == g[r].len(),
    decreases ms.len(),
{
    if ms.len() > 0 {
        lemma_apply_keeps_shape(g, ms.drop_last());
    }
}

/// Computes the next generation of the binary `rows` x `cols` board: every
/// region of `extents` is scanned against the board as it stands, and all the
/// changes found are then written into a copy of it. The regions must lie
/// inside the grid and together cover it.
pub fn advance(brd: &Board, rows: usize, cols: usize, extents: &Vec<SubRegion>) -> (next: Board)
    requires
        shaped(brd@, rows as int, cols as int),
        is_binary(brd@, rows as int, cols as int),
        regions_inside(extents@, rows as int, cols as int),
        regions_cover(extents@, rows as int, cols as int),
    ensures
        next@ == life_step(brd@, rows as int, cols as int),
        is_binary(next@, rows as int, cols as int),
{
    let ghost g = brd@;
    let ghost (nr, nc) = (rows as int, cols as int);
    let ghost batches = region_batches(g, nr, nc, extents@);
    let mut next = copy_board(brd);
    let mut k: usize = 0;
    while k < extents.len()
        invariant
            g == brd@,
            nr == rows && nc == cols,
            shaped(g, nr, nc),
            is_binary(g, nr, nc),
            regions_inside(extents@, nr, nc),
            batches == region_batches(g, nr, nc, extents@),
            k <= extents@.len(),
            next@ == apply_all(g, batches.take(k as int)),
        decreases extents@.len() - k,
    {
        proof {
            lemma_batches_prefix(g, nr, nc, extents@, k as int);
            assert(batches.take(k + 1).drop_last() =~= batches.take(k as int));
        }
        let (r0, r1, c0, c1) = extents[k];
        let moves = capture_moves(brd, &rows, &cols, &r0, &r1, &c0, &c1);
        apply_moves(&mut next, &moves);
        k = k + 1;
    }
    proof {
        assert(batches.take(k as int) =~= batches);
        lemma_partitioned_step(g, rows, cols, extents@);
        lemma_life_step_binary(g, nr, nc);
    }
    next
}

} // verus!
