//! The partitioner: splits the rows and the columns of a grid into near-equal
//! contiguous groups and pairs them into rectangular sub-regions.

use vstd::prelude::*;
use vstd::arithmetic::div_mod::{
    lemma_fundamental_div_mod,
    lemma_fundamental_div_mod_converse_div,
    lemma_fundamental_div_mod_converse_mod,
};

verus! {

/// A half-open rectangle `(row_start, row_stop, col_start, col_stop)`.
pub type SubRegion = (usize, usize, usize, usize);

/// The number of row groups used by `get_subgrids`.
pub const NUM_ROW_GROUPS: usize = 3;

/// The number of column groups used by `get_subgrids`.
pub const NUM_COL_GROUPS: usize = 3;

/// The size of group `i` when `n` is split into `g` groups: `n / g`, plus one
/// for each of the first `n % g` groups.
pub open spec fn group_size(n: int, g: int, i: int) -> int {
    n / g + if i < n % g {
        1int
    } else {
        0int
    }
}

/// The first index of group `i` when `n` is split into `g` groups.
pub open spec fn group_start(n: int, g: int, i: int) -> int {
    i * (n / g) + if i < n % g {
        i
    } else {
        n % g
    }
}

/// The sub-region pairing row group `i` with column group `j`.
pub open spec fn region_at(rows: int, cols: int, rg: int, cg: int, i: int, j: int) -> SubRegion {
    (
        group_start(rows, rg, i) as usize,
        group_start(rows, rg, i + 1) as usize,
        group_start(cols, cg, j) as usize,
        group_start(cols, cg, j + 1) as usize,
    )
}

/// All sub-regions, row groups outer and column groups inner.
pub open spec fn region_seq(rows: int, cols: int, rg: int, cg: int) -> Seq<SubRegion> {
    Seq::new((rg * cg) as nat, |k: int| region_at(rows, cols, rg, cg, k / cg, k % cg))
}

/// Counts for which every group is non-empty.
pub open spec fn valid_config(rows: int, cols: int, rg: int, cg: int) -> bool {
    rg >= 1 && cg >= 1 && rows >= rg && cols >= cg
}

/// The cell `(r, c)` lies in `reg`.
pub open spec fn region_holds(reg: SubRegion, r: int, c: int) -> bool {
    reg.0 <= r < reg.1 && reg.2 <= c < reg.3
}

/// Every region lies inside the `rows` x `cols` grid.
pub open spec fn regions_inside(regions: Seq<SubRegion>, rows: int, cols: int) -> bool {
    forall|k: int| 0 <= k < regions.len() ==> (#[trigger] regions[k]).1 <= rows && regions[k].3 <= cols
}

/// The cell `(r, c)` lies in some region of `regions`.
pub open spec fn covered(regions: Seq<SubRegion>, r: int, c: int) -> bool {
    exists|k: int| 0 <= k < regions.len() && #[trigger] region_holds(regions[k], r, c)
}

/// Every cell of the `rows` x `cols` grid lies in some region.
pub open spec fn regions_cover(regions: Seq<SubRegion>, rows: int, cols: int) -> bool {
    forall|r: int, c: int| 0 <= r < rows && 0 <= c < cols ==> #[trigger] covered(regions, r, c)
}

/// No cell lies in two regions.
pub open spec fn regions_disjoint(regions: Seq<SubRegion>) -> bool {
    forall|k1: int, k2: int, r: int, c: int|
        0 <= k1 < regions.len() && 0 <= k2 < regions.len() && #[trigger] region_holds(regions[k1], r, c)
            && #[trigger] region_holds(regions[k2], r, c) ==> k1 == k2
}

/// The regions split the `rows` x `cols` grid exactly: each is a non-empty
/// rectangle inside the grid, and each cell of the grid lies in exactly one.
pub open spec fn is_partition(regions: Seq<SubRegion>, rows: int, cols: int) -> bool {
    &&& regions_inside(regions, rows, cols)
    &&& regions_cover(regions, rows, cols)
    &&& regions_disjoint(regions)
    &&& forall|k: int|
        0 <= k < regions.len() ==> (#[trigger] regions[k]).0 < regions[k].1 && regions[k].2
            < regions[k].3
}

/// Why a partition was refused.
#[derive(Debug, Clone, Copy, PartialEq, Eq, Structural)]
pub enum ConfigError {
    /// The grid has no rows or no columns.
    EmptyGrid,
    /// A group count is zero.
    NoGroups,
    /// A group count exceeds the number of rows or of columns.
    TooManyGroups,
}

proof fn lemma_group_step(n: int, g: int, i: int)
    requires
        n >= 0,
        g >= 1,
        i >= 0,
    ensures
        group_start(n, g, i + 1) == group_start(n, g, i) + group_size(n, g, i),
        group_size(n, g, i) >= 0,
        n >= g ==> group_size(n, g, i) >= 1,
{
    let q = n / g;
    assert((i + 1) * q == i * q + q) by (nonlinear_arith);
    lemma_fundamental_div_mod(n, g);
    assert(q >= 0) by (nonlinear_arith)
        requires
            n >= 0,
            g >= 1,
            q == n / g,
    ;
    if n >= g {
        assert(q >= 1) by (nonlinear_arith)
            requires
                n >= g,
                g >= 1,
                n == g * q + n % g,
                n % g < g,
        ;
    }
}

proof fn lemma_group_ends(n: int, g: int)
    requires
        n >= 0,
        g >= 1,
    ensures
        group_start(n, g, 0) == 0,
        group_start(n, g, g) == n,
{
    lemma_fundamental_div_mod(n, g);
    assert(g * (n / g) == (n / g) * g) by (nonlinear_arith);
}

proof fn lemma_group_mono(n: int, g: int, a: int, b: int)
    requires
        n >= 0,
        g >= 1,
        0 <= a <= b,
    ensures
        group_start(n, g, a) <= group_start(n, g, b),
        n >= g && a < b ==> group_start(n, g, a) < group_start(n, g, b),
    decreases b - a,
{
    if a < b {
        lemma_group_mono(n, g, a, b - 1);
        lemma_group_step(n, g, b - 1);
    }
}

proof fn lemma_group_unique(n: int, g: int, a: int, b: int, x: int)
    requires
        n >= 0,
        g >= 1,
        a >= 0,
        b >= 0,
        group_start(n, g, a) <= x < group_start(n, g, a + 1),
        group_start(n, g, b) <= x < group_start(n, g, b + 1),
    ensures
        a == b,
{
    if a < b {
        lemma_group_mono(n, g, a + 1, b);
    } else if b < a {
        lemma_group_mono(n, g, b + 1, a);
    }
}

proof fn lemma_group_find(n: int, g: int, k: int, x: int) -> (i: int)
    requires
        n >= 0,
        g >= 1,
        0 <= k <= g,
        0 <= x < group_start(n, g, k),
    ensures
        0 <= i < k,
        group_start(n, g, i) <= x < group_start(n, g, i + 1),
    decreases k,
{
    lemma_group_ends(n, g);
    if x < group_start(n, g, k - 1) {
        lemma_group_find(n, g, k - 1, x)
    } else {
        k - 1
    }
}

/// Splits `num` into `num_groups` contiguous groups as evenly as possible:
/// every group has `num / num_groups` elements, and the first
/// `num % num_groups` groups one more.
pub fn get_groups(num: u64, num_groups: u64) -> (sizes: Vec<usize>)
    requires
        num_groups >= 1,
        num <= usize::MAX,
    ensures
        sizes@.len() == num_groups,
        forall|i: int| 0 <= i < num_groups ==> #[trigger] sizes@[i] == group_size(num as int, num_groups as int, i),
{
    let ghost (n, g) = (num as int, num_groups as int);
    let base: u64 = num / num_groups;
    proof {
        lemma_fundamental_div_mod(n, g);
        assert(num_groups * base <= num) by (nonlinear_arith)
            requires
                n == g * (n / g) + n % g,
                n % g >= 0,
                base == n / g,
                n == num,
                g == num_groups,
        ;
    }
    let mut rem: u64 = num - num_groups * base;
    let mut ret: Vec<usize> = Vec::new();
    let mut i: u64 = 0;
    while i < num_groups
        invariant
            n == num && g == num_groups && g >= 1,
            num <= usize::MAX,
            base == n / g,
            n == g * base + n % g,
            0 <= n % g < g,
            i <= num_groups,
            rem == if i < n % g {
                n % g - i
            } else {
                0
            },
            ret@.len() == i,
            forall|k: int| 0 <= k < i ==> #[trigger] ret@[k] == group_size(n, g, k),
        decreases num_groups - i,
    {
        proof {
            assert(base <= num) by (nonlinear_arith)
                requires
                    n == g * base + n % g,
                    n % g >= 0,
                    g >= 1,
                    base >= 0,
                    n == num,
            ;
        }
        let mut len: usize = base as usize;
        if rem > 0 {
            proof {
                assert(base + 1 <= num) by (nonlinear_arith)
                    requires
                        n == g * base + n % g,
                        n % g >= 1,
                        g >= 1,
                        base >= 0,
                        n == num,
                ;
            }
            len = len + 1;
            rem = rem - 1;
        }
        ret.push(len);
        i = i + 1;
    }
    ret
}

/// Splits the `rows` x `cols` grid into `row_groups` x `col_groups`
/// rectangles, row groups outer and column groups inner. Refuses counts that
/// would leave a group empty.
pub fn partition(rows: usize, cols: usize, row_groups: usize, col_groups: usize) -> (r: Result<
    Vec<SubRegion>,
    ConfigError,
>)
    ensures
        rows == 0 || cols == 0 ==> r == Err::<Vec<SubRegion>, ConfigError>(ConfigError::EmptyGrid),
        rows > 0 && cols > 0 && (row_groups == 0 || col_groups == 0) ==> r == Err::<
            Vec<SubRegion>,
            ConfigError,
        >(ConfigError::NoGroups),
        rows > 0 && cols > 0 && row_groups > 0 && col_groups > 0 && (row_groups > rows || col_groups
            > cols) ==> r == Err::<Vec<SubRegion>, ConfigError>(ConfigError::TooManyGroups),
        r is Ok <==> valid_config(rows as int, cols as int, row_groups as int, col_groups as int),
        r matches Ok(v) ==> v@ == region_seq(rows as int, cols as int, row_groups as int, col_groups as int),
{
    if rows == 0 || cols == 0 {
        return Err(ConfigError::EmptyGrid);
    }
    if row_groups == 0 || col_groups == 0 {
        return Err(ConfigError::NoGroups);
    }
    if row_groups > rows || col_groups > cols {
        return Err(ConfigError::TooManyGroups);
    }
    let ghost (nr, nc, rg, cg) = (rows as int, cols as int, row_groups as int, col_groups as int);
    let row_sizes = get_groups(rows as u64, row_groups as u64);
    let col_sizes = get_groups(cols as u64, col_groups as u64);
    proof {
        lemma_group_ends(nr, rg);
        lemma_group_ends(nc, cg);
    }
    let mut extents: Vec<SubRegion> = Vec::new();
    let mut row_first_idx: usize = 0;
    let mut i: usize = 0;
    while i < row_groups
        invariant
            nr == rows && nc == cols && rg == row_groups && cg == col_groups,
            valid_config(nr, nc, rg, cg),
            group_start(nr, rg, rg) == nr,
            group_start(nc, cg, cg) == nc,
            row_sizes@.len() == rg,
            col_sizes@.len() == cg,
            forall|k: int| 0 <= k < rg ==> #[trigger] row_sizes@[k] == group_size(nr, rg, k),
            forall|k: int| 0 <= k < cg ==> #[trigger] col_sizes@[k] == group_size(nc, cg, k),
            i <= rg,
            row_first_idx == group_start(nr, rg, i as int),
            extents@.len() == i * cg,
            forall|k: int| 0 <= k < extents@.len() ==> #[trigger] extents@[k] == region_at(nr, nc, rg, cg, k / cg, k % cg),
        decreases rg - i,
    {
        let r_len = row_sizes[i];
        proof {
            lemma_group_step(nr, rg, i as int);
            lemma_group_mono(nr, rg, i + 1, rg);
        }
        let row_stop = row_first_idx + r_len;
        let mut col_first_idx: usize = 0;
        let mut j: usize = 0;
        while j < col_groups
            invariant
                nr == rows && nc == cols && rg == row_groups && cg == col_groups,
                valid_config(nr, nc, rg, cg),
                group_start(nc, cg, cg) == nc,
                col_sizes@.len() == cg,
                forall|k: int| 0 <= k < cg ==> #[trigger] col_sizes@[k] == group_size(nc, cg, k),
                i < rg,
                j <= cg,
                row_first_idx == group_start(nr, rg, i as int),
                row_stop == group_start(nr, rg, i + 1),
                col_first_idx == group_start(nc, cg, j as int),
                extents@.len() == i * cg + j,
                forall|k: int| 0 <= k < extents@.len() ==> #[trigger] extents@[k] == region_at(nr, nc, rg, cg, k / cg, k % cg),
            decreases cg - j,
        {
            let c_len = col_sizes[j];
            proof {
                lemma_group_step(nc, cg, j as int);
                lemma_group_mono(nc, cg, j + 1, cg);
                lemma_fundamental_div_mod_converse_div(i * cg + j, cg, i as int, j as int);
                lemma_fundamental_div_mod_converse_mod(i * cg + j, cg, i as int, j as int);
            }
            let col_stop = col_first_idx + c_len;
            extents.push((row_first_idx, row_stop, col_first_idx, col_stop));
            col_first_idx = col_stop;
            j = j + 1;
        }
        row_first_idx = row_stop;
        i = i + 1;
        proof {
            assert((i - 1) * cg + cg == i * cg) by (nonlinear_arith);
        }
    }
    proof {
        assert(extents@ =~= region_seq(nr, nc, rg, cg));
    }
    Ok(extents)
}

/// Splits the `rows` x `cols` grid into `NUM_ROW_GROUPS` x `NUM_COL_GROUPS`
/// sub-regions, returned as `(row_start, row_stop, col_start, col_stop)`.
pub fn get_subgrids(rows: usize, cols: usize) -> (extents: Vec<SubRegion>)
    requires
        rows >= NUM_ROW_GROUPS,
        cols >= NUM_COL_GROUPS,
    ensures
        extents@ == region_seq(rows as int, cols as int, NUM_ROW_GROUPS as int, NUM_COL_GROUPS as int),
{
    match partition(rows, cols, NUM_ROW_GROUPS, NUM_COL_GROUPS) {
        Ok(v) => v,
        Err(_) => {
            proof {
                assert(false);
            }
            Vec::new()
        },
    }
}

proof fn lemma_region_facts(rows: int, cols: int, rg: int, cg: int, k: int)
    requires
        valid_config(rows, cols, rg, cg),
        rows <= usize::MAX,
        cols <= usize::MAX,
        0 <= k < rg * cg,
    ensures
        0 <= k / cg < rg,
        0 <= k % cg < cg,
        k == (k / cg) * cg + k % cg,
        region_seq(rows, cols, rg, cg)[k].0 == group_start(rows, rg, k / cg),
        region_seq(rows, cols, rg, cg)[k].1 == group_start(rows, rg, k / cg + 1),
        region_seq(rows, cols, rg, cg)[k].2 == group_start(cols, cg, k % cg),
        region_seq(rows, cols, rg, cg)[k].3 == group_start(cols, cg, k % cg + 1),
        region_seq(rows, cols, rg, cg)[k].0 < region_seq(rows, cols, rg, cg)[k].1 <= rows,
        region_seq(rows, cols, rg, cg)[k].2 < region_seq(rows, cols, rg, cg)[k].3 <= cols,
{
    let i = k / cg;
    let j = k % cg;
    lemma_fundamental_div_mod(k, cg);
    assert(0 <= i < rg) by (nonlinear_arith)
        requires
            k == cg * i + j,
            0 <= j < cg,
            0 <= k < rg * cg,
    ;
    assert(k == i * cg + j) by (nonlinear_arith)
        requires
            k == cg * i + j,
    ;
    lemma_group_ends(rows, rg);
    lemma_group_ends(cols, cg);
    lemma_group_mono(rows, rg, 0, i);
    lemma_group_mono(rows, rg, i, i + 1);
    lemma_group_mono(rows, rg, i + 1, rg);
    lemma_group_mono(cols, cg, 0, j);
    lemma_group_mono(cols, cg, j, j + 1);
    lemma_group_mono(cols, cg, j + 1, cg);
}

/// The sub-regions of a valid configuration split the grid exactly: there
/// are `row_groups * col_groups` of them, each a non-empty rectangle inside
/// the grid, and every cell of the grid lies in exactly one of them.
pub proof fn lemma_partition_exact(rows: usize, cols: usize, row_groups: usize, col_groups: usize)
    requires
        valid_config(rows as int, cols as int, row_groups as int, col_groups as int),
    ensures
        region_seq(rows as int, cols as int, row_groups as int, col_groups as int).len() == row_groups
            * col_groups,
        is_partition(region_seq(rows as int, cols as int, row_groups as int, col_groups as int), rows as int, cols as int),
{
    let (nr, nc, rg, cg) = (rows as int, cols as int, row_groups as int, col_groups as int);
    let regions = region_seq(nr, nc, rg, cg);
    assert(rg * cg >= 0) by (nonlinear_arith)
        requires
            rg >= 1,
            cg >= 1,
    ;
    assert forall|k: int| 0 <= k < regions.len() implies (#[trigger] regions[k]).1 <= nr && regions[k].3
        <= nc && regions[k].0 < regions[k].1 && regions[k].2 < regions[k].3 by {
        lemma_region_facts(nr, nc, rg, cg, k);
    }
    assert forall|r: int, c: int| 0 <= r < nr && 0 <= c < nc implies #[trigger] covered(regions, r, c) by {
        lemma_group_ends(nr, rg);
        lemma_group_ends(nc, cg);
        let i = lemma_group_find(nr, rg, rg, r);
        let j = lemma_group_find(nc, cg, cg, c);
        let k = i * cg + j;
        assert(0 <= k < rg * cg) by (nonlinear_arith)
            requires
                0 <= i < rg,
                0 <= j < cg,
                k == i * cg + j,
        ;
        lemma_fundamental_div_mod_converse_div(k, cg, i, j);
        lemma_fundamental_div_mod_converse_mod(k, cg, i, j);
        lemma_region_facts(nr, nc, rg, cg, k);
        assert(region_holds(regions[k], r, c));
    }
    assert forall|k1: int, k2: int, r: int, c: int|
        0 <= k1 < regions.len() && 0 <= k2 < regions.len() && #[trigger] region_holds(regions[k1], r, c)
            && #[trigger] region_holds(regions[k2], r, c) implies k1 == k2 by {
        lemma_region_facts(nr, nc, rg, cg, k1);
        lemma_region_facts(nr, nc, rg, cg, k2);
        lemma_group_unique(nr, rg, k1 / cg, k2 / cg, r);
        lemma_group_unique(nc, cg, k1 % cg, k2 % cg, c);
    }
}

} // verus!
