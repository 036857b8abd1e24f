use vstd::prelude::*;

use crate::geometry::BoundingBox;

verus! {

// ------------------------------------------------------------------
// The pyramid layout.
//
// The tree has 8 levels, 0 (root) through 7 (finest); level `l` has
// `4^l` cells, and all levels live in one flat array. `level_base(l)`
// is the starting offset of level `l`, i.e. the sum of the sizes of
// all coarser levels; `level_base(8)` is the fully expanded capacity.
// ------------------------------------------------------------------

pub open spec fn level_base(l: int) -> int
    decreases l,
{
    if l <= 0 {
        0
    } else {
        4 * level_base(l - 1) + 1
    }
}

pub proof fn lemma_level_base_values()
    ensures
        level_base(0) == 0,
        level_base(1) == 1,
        level_base(2) == 5,
        level_base(3) == 21,
        level_base(4) == 85,
        level_base(5) == 341,
        level_base(6) == 1365,
        level_base(7) == 5461,
        level_base(8) == 21845,
{
    reveal_with_fuel(level_base, 10);
}

pub proof fn lemma_level_base_nonneg(l: int)
    ensures
        0 <= level_base(l),
    decreases l,
{
    if l > 0 {
        lemma_level_base_nonneg(l - 1);
    }
}

/// `level_base` grows strictly with the level.
pub proof fn lemma_level_base_increases(a: int, b: int)
    requires
        0 <= a <= b,
    ensures
        level_base(a) <= level_base(b),
        a < b ==> level_base(a) < level_base(b),
    decreases b - a,
{
    if a < b {
        lemma_level_base_increases(a, b - 1);
        lemma_level_base_nonneg(b - 1);
    }
}

/// Powers of two, for the cell arithmetic of the home-index formula.
pub open spec fn pow2(i: int) -> int
    decreases i,
{
    if i <= 0 {
        1
    } else {
        2 * pow2(i - 1)
    }
}

pub proof fn lemma_pow2_values()
    ensures
        pow2(0) == 1,
        pow2(1) == 2,
        pow2(2) == 4,
        pow2(3) == 8,
        pow2(4) == 16,
        pow2(5) == 32,
        pow2(6) == 64,
        pow2(7) == 128,
{
    reveal_with_fuel(pow2, 9);
}

/// The tag an item carries when its home is the header cell of level `l`.
pub open spec fn tag_of_level(l: int) -> u16 {
    level_base(l) as u16
}

/// The exact offsets, as executable values.
pub fn level_base_u16(l: u8) -> (r: u16)
    requires
        l <= 8,
    ensures
        r as int == level_base(l as int),
{
    proof {
        lemma_level_base_values();
    }
    match l {
        0 => 0,
        1 => 1,
        2 => 5,
        3 => 21,
        4 => 85,
        5 => 341,
        6 => 1365,
        7 => 5461,
        _ => 21845,
    }
}

// ------------------------------------------------------------------
// Level selection.
//
// An 8-bit grid interval `[x0, x1]` fits inside one cell of level `l`
// exactly when the coordinates agree on their topmost `l` bits. The
// position of the highest bit where `x0` and `x1` differ therefore
// tells the finest level whose cells still contain the whole
// interval.
// ------------------------------------------------------------------

/// Index of the highest set bit of `d` (0 when `d` is 0).
pub open spec fn spec_bsr(d: u8) -> u8 {
    if d >= 128 {
        7
    } else if d >= 64 {
        6
    } else if d >= 32 {
        5
    } else if d >= 16 {
        4
    } else if d >= 8 {
        3
    } else if d >= 4 {
        2
    } else if d >= 2 {
        1
    } else {
        0
    }
}

/// Bit scan reverse: position of the highest set bit.
pub fn bsr(d: u8) -> (r: u8)
    ensures
        r == spec_bsr(d),
{
    if d >= 128 {
        7
    } else if d >= 64 {
        6
    } else if d >= 32 {
        5
    } else if d >= 16 {
        4
    } else if d >= 8 {
        3
    } else if d >= 4 {
        2
    } else if d >= 2 {
        1
    } else {
        0
    }
}

/// The finest level at which an axis interval with difference mask `d`
/// still lies inside a single cell.
pub open spec fn axis_level(d: u8) -> u8 {
    if d == 0 {
        7
    } else {
        (7 - spec_bsr(d)) as u8
    }
}

/// The natural level of a grid bounding box: the finest level at which
/// the whole box lies inside a single cell.
pub open spec fn grid_level(b: BoundingBox<u8>) -> u8 {
    let xl = axis_level(b.x0 ^ b.x1);
    let yl = axis_level(b.y0 ^ b.y1);
    if xl <= yl {
        xl
    } else {
        yl
    }
}

/// Whether coordinates `a` and `c` fall into the same cell at level `l`
/// (cells at level `l` span `2^(8-l)` grid units on each axis).
pub open spec fn same_cell(a: u8, c: u8, l: int) -> bool {
    if l <= 0 {
        true
    } else {
        a >> ((8 - l) as u8) == c >> ((8 - l) as u8)
    }
}

/// Whether the box lies inside a single cell at level `l`.
pub open spec fn fits_level(b: BoundingBox<u8>, l: int) -> bool {
    same_cell(b.x0, b.x1, l) && same_cell(b.y0, b.y1, l)
}

/// A coordinate pair that shares a cell at some level also shares the
/// (coarser) cell at every lower level.
proof fn lemma_same_cell_coarser(a: u8, c: u8, s1: u8, s2: u8)
    requires
        s1 <= s2,
        a >> s1 == c >> s1,
    ensures
        a >> s2 == c >> s2,
{
    assert(a >> s2 == c >> s2) by (bit_vector)
        requires
            s1 <= s2,
            a >> s1 == c >> s1,
    ;
}

/// On one axis, the interval fits in a single cell at `axis_level` and
/// straddles a cell boundary one level finer.
proof fn lemma_axis_containment(a: u8, c: u8)
    ensures
        same_cell(a, c, axis_level(a ^ c) as int),
        axis_level(a ^ c) == 7 || !same_cell(a, c, axis_level(a ^ c) + 1),
{
    assert((a ^ c) >= 128 ==> (a >> 7) != (c >> 7)) by (bit_vector);
    assert(64 <= (a ^ c) && (a ^ c) < 128 ==> (a >> 7) == (c >> 7) && (a >> 6) != (c >> 6))
        by (bit_vector);
    assert(32 <= (a ^ c) && (a ^ c) < 64 ==> (a >> 6) == (c >> 6) && (a >> 5) != (c >> 5))
        by (bit_vector);
    assert(16 <= (a ^ c) && (a ^ c) < 32 ==> (a >> 5) == (c >> 5) && (a >> 4) != (c >> 4))
        by (bit_vector);
    assert(8 <= (a ^ c) && (a ^ c) < 16 ==> (a >> 4) == (c >> 4) && (a >> 3) != (c >> 3))
        by (bit_vector);
    assert(4 <= (a ^ c) && (a ^ c) < 8 ==> (a >> 3) == (c >> 3) && (a >> 2) != (c >> 2))
        by (bit_vector);
    assert(2 <= (a ^ c) && (a ^ c) < 4 ==> (a >> 2) == (c >> 2) && (a >> 1) != (c >> 1))
        by (bit_vector);
    assert((a ^ c) < 2 ==> (a >> 1) == (c >> 1)) by (bit_vector);
}

/// Containment of level selection: the chosen level `grid_level(b)` is
/// one whose cell grid fully contains the box, and the box straddles a
/// cell boundary one level finer (unless the finest level was chosen).
pub proof fn lemma_level_containment(b: BoundingBox<u8>)
    ensures
        grid_level(b) <= 7,
        fits_level(b, grid_level(b) as int),
        grid_level(b) == 7 || !fits_level(b, grid_level(b) + 1),
{
    let xl = axis_level(b.x0 ^ b.x1);
    let yl = axis_level(b.y0 ^ b.y1);
    let l = grid_level(b);
    lemma_axis_containment(b.x0, b.x1);
    lemma_axis_containment(b.y0, b.y1);
    // Both axes fit at the coarser of the two axis levels.
    if l > 0 {
        lemma_same_cell_coarser(b.x0, b.x1, (8 - xl) as u8, (8 - l) as u8);
        lemma_same_cell_coarser(b.y0, b.y1, (8 - yl) as u8, (8 - l) as u8);
    }
    // One level finer, the tighter axis already straddles a boundary.
    if l < 7 {
        if xl <= yl {
            assert(!same_cell(b.x0, b.x1, l + 1));
        } else {
            assert(!same_cell(b.y0, b.y1, l + 1));
        }
    }
}

} // verus!
