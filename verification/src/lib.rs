//! A two-dimensional spatial index for interactive placement: items
//! carrying an 8-bit grid bounding box are stored in an 8-level
//! pyramidal grid kept in one flat array, and insertion can be guarded
//! by a collision predicate that rejects the new item when it conflicts
//! with one already stored.

pub mod geometry;
pub mod level;
pub mod slots;

pub use crate::geometry::{intersects, BoundingBox, Intersection};

use crate::level::{
    bsr, grid_level, lemma_level_base_increases, lemma_level_base_nonneg, lemma_level_base_values,
    lemma_pow2_values, level_base, level_base_u16, pow2, tag_of_level,
};
use crate::slots::{
    is_tagged, lemma_probe_seen_missing, lemma_probe_seen_step, lemma_tcb_agree, lemma_tcb_bounds,
    lemma_tcb_none_region, lemma_tcb_update, probe_first_free, probe_pos, probe_seen,
    probe_visited, slot_item, slot_tagged, tag_count,
};
use vstd::prelude::*;

verus! {

/// A cell of the flat pyramid array. `count` is meaningful only at
/// cell-header positions, where it tracks how many stored items carry
/// that header's tag; `item` is the slot content, an item together
/// with the tag of the header it belongs to.
struct Node<T> {
    count: u16,
    item: Option<(u16, T)>,
}

/// The index: a grow-only flat array of nodes covering the pyramid
/// levels materialized so far.
pub struct Tree<T> {
    nodes: Vec<Node<T>>,
}

// ------------------------------------------------------------------
// Spec-level views and predicates.
// ------------------------------------------------------------------

/// `post` extends `pre` with empty slots and changes nothing else.
pub open spec fn grown<T>(pre: Seq<Option<(u16, T)>>, post: Seq<Option<(u16, T)>>) -> bool {
    &&& pre.len() <= post.len()
    &&& forall|k: int| 0 <= k < pre.len() ==> post[k] == pre[k]
    &&& forall|k: int| pre.len() <= k < post.len() ==> post[k] is None
}

/// Whether `n` is the size of some whole number of levels: a prefix
/// sum of the level sizes.
pub open spec fn whole_levels(n: int) -> bool {
    exists|l: int| 0 <= l <= 8 && n == level_base(l)
}

/// The array shape the store keeps: filled to the end of some level,
/// and every slot past that point was appended by a commit that found
/// the array full, so it holds an item.
pub open spec fn well_shaped<T>(s: Seq<Option<(u16, T)>>) -> bool {
    exists|m: int|
        0 <= m <= s.len() && #[trigger] whole_levels(m) && (forall|k: int|
            m <= k < s.len() ==> s[k] is Some)
}

/// The smallest whole-level size exceeding `length`, searching upward
/// from level `l`.
pub open spec fn grow_target_from(l: int, length: int) -> int
    decreases 8 - l,
{
    if l >= 8 || level_base(l) > length {
        level_base(l)
    } else {
        grow_target_from(l + 1, length)
    }
}

/// The smallest whole-level size exceeding `length`.
pub open spec fn grow_target(length: int) -> int {
    grow_target_from(0, length)
}

proof fn lemma_grow_target_from(l: int, length: int)
    requires
        0 <= l <= 8,
        length < 21845,
    ensures
        whole_levels(grow_target_from(l, length)),
        grow_target_from(l, length) <= 21845,
        grow_target_from(l, length) > length,
        forall|lv: int|
            l <= lv <= 8 && level_base(lv) > length ==> grow_target_from(l, length) <= level_base(
                lv,
            ),
    decreases 8 - l,
{
    lemma_level_base_values();
    if l >= 8 || level_base(l) > length {
        assert(whole_levels(level_base(l)));
        lemma_level_base_increases(l, 8);
        assert forall|lv: int|
            l <= lv <= 8 && level_base(lv) > length implies grow_target_from(l, length)
            <= level_base(lv) by {
            lemma_level_base_increases(l, lv);
        }
    } else {
        lemma_grow_target_from(l + 1, length);
        assert forall|lv: int|
            l <= lv <= 8 && level_base(lv) > length implies grow_target_from(l, length)
            <= level_base(lv) by {
            if lv == l {
            } else {
                assert(l + 1 <= lv <= 8);
            }
        }
    }
}

/// Whole-level growth: the grown size is a whole number of levels, it
/// exceeds the requested index, and it is the least such size.
pub proof fn lemma_grow_target(length: int)
    requires
        0 <= length < 21845,
    ensures
        whole_levels(grow_target(length)),
        length < grow_target(length) <= 21845,
        forall|l: int|
            0 <= l <= 8 && level_base(l) > length ==> grow_target(length) <= level_base(l),
{
    lemma_grow_target_from(0, length);
}

/// What growth for index `length` does to the slots: nothing when the
/// array already covers the index, otherwise extension with empty
/// slots to exactly the smallest whole-level size exceeding it.
pub open spec fn spec_grow<T>(s: Seq<Option<(u16, T)>>, length: int) -> Seq<Option<(u16, T)>> {
    if s.len() > length {
        s
    } else {
        s + Seq::new((grow_target(length) - s.len()) as nat, |k: int| None)
    }
}

/// The home index of the cell probed at level `i` for box `b`: the
/// array offset the insertion must have materialized before probing.
pub open spec fn home_index(b: BoundingBox<u8>, i: int) -> int {
    if i <= 0 {
        0
    } else {
        let gl = grid_level(b) as int;
        let sh = (8 - gl) as u8;
        level_base(gl) + (b.y0 >> sh) * pow2(i) + (b.x0 >> sh)
    }
}

/// The slots after the probe's descent has grown the array for every
/// level from the box's natural level down to `i`.
pub open spec fn grown_to_level<T>(
    b: BoundingBox<u8>,
    s: Seq<Option<(u16, T)>>,
    i: int,
) -> Seq<Option<(u16, T)>>
    decreases grid_level(b) as int - i,
{
    if i >= grid_level(b) as int {
        spec_grow(s, home_index(b, grid_level(b) as int))
    } else {
        spec_grow(grown_to_level(b, s, i + 1), home_index(b, i))
    }
}

/// The slot a commit fills: the first empty position on the probe path
/// from the header `k0`, or the array's end when every slot is taken.
pub open spec fn commit_slot<T>(s: Seq<Option<(u16, T)>>, k0: int) -> int {
    match probe_first_free(s, k0, 0) {
        Some(j) => j,
        None => s.len() as int,
    }
}

/// What a commit does to the slots: `item` goes, under `tag`, into the
/// first free probe position from the tag's header, or into one node
/// appended to the full array.
pub open spec fn spec_place<T>(
    s: Seq<Option<(u16, T)>>,
    tag: u16,
    item: T,
) -> Seq<Option<(u16, T)>> {
    let j = commit_slot(s, tag as int);
    if j < s.len() {
        s.update(j, Some((tag, item)))
    } else {
        s.push(Some((tag, item)))
    }
}

/// `post` is `pre`, possibly extended with empty slots, with `item`
/// placed under `tag` in the one slot `j` that was free.
pub open spec fn committed_at<T>(
    pre: Seq<Option<(u16, T)>>,
    post: Seq<Option<(u16, T)>>,
    tag: u16,
    item: T,
    j: int,
) -> bool {
    &&& pre.len() <= post.len()
    &&& 0 <= j < post.len()
    &&& (j < pre.len() ==> pre[j] is None)
    &&& post[j] == Some((tag, item))
    &&& forall|k: int| 0 <= k < pre.len() && k != j ==> post[k] == pre[k]
    &&& forall|k: int| pre.len() <= k < post.len() && k != j ==> post[k] is None
}

/// `post` is `pre` with exactly one new stored item, tagged `tag`.
pub open spec fn committed<T>(
    pre: Seq<Option<(u16, T)>>,
    post: Seq<Option<(u16, T)>>,
    tag: u16,
    item: T,
) -> bool {
    exists|j: int| committed_at(pre, post, tag, item, j)
}

/// Some call of the predicate on `(item, x)` returned false.
pub open spec fn accepted<T, F: Fn(&T, &T) -> bool>(f: F, item: T, x: T) -> bool {
    call_ensures(f, (&item, &x), false)
}

/// Some call of the predicate on `(item, x)` returned true.
pub open spec fn rejected<T, F: Fn(&T, &T) -> bool>(f: F, item: T, x: T) -> bool {
    call_ensures(f, (&item, &x), true)
}

/// Every item stored under a level tag between `lo` and `hi` has been
/// accepted by the predicate when paired with `item`.
pub open spec fn levels_accepted<T, F: Fn(&T, &T) -> bool>(
    s: Seq<Option<(u16, T)>>,
    f: F,
    item: T,
    lo: int,
    hi: int,
) -> bool {
    forall|k: int, l: int|
        lo <= l <= hi && #[trigger] slot_tagged(s, k, tag_of_level(l)) ==> accepted(
            f,
            item,
            slot_item(s, k),
        )
}

/// No item stored under a level tag up to `lmax` conflicts with `item`,
/// by the payload type's own collision relation.
pub open spec fn clear_of_conflicts<T: Intersection>(
    s: Seq<Option<(u16, T)>>,
    item: T,
    lmax: int,
) -> bool {
    forall|k: int, l: int|
        0 <= l <= lmax && #[trigger] slot_tagged(s, k, tag_of_level(l)) ==> !item.conflicts(
            slot_item(s, k),
        )
}

/// Growth composes: extending with empty slots twice is extending with
/// empty slots.
pub proof fn lemma_grown_trans<T>(
    a: Seq<Option<(u16, T)>>,
    b: Seq<Option<(u16, T)>>,
    c: Seq<Option<(u16, T)>>,
)
    requires
        grown(a, b),
        grown(b, c),
    ensures
        grown(a, c),
{
}

impl<T> Tree<T> {
    /// The slot contents of the flat array, in order.
    pub closed spec fn slots(self) -> Seq<Option<(u16, T)>> {
        Seq::new(self.nodes@.len() as nat, |k: int| self.nodes@[k].item)
    }

    /// Every stored tag points into the array, and each materialized
    /// cell header counts exactly the stored items that carry its tag.
    closed spec fn counts_ok(self) -> bool {
        &&& (forall|k: int|
            0 <= k < self.nodes@.len() && (#[trigger] self.nodes@[k].item) is Some
                ==> self.nodes@[k].item.unwrap().0 < self.nodes@.len())
        &&& (forall|l: int|
            0 <= l < 8 && level_base(l) < self.nodes@.len() ==> (#[trigger] self.nodes@[level_base(
                l,
            )].count) as int == tag_count(self.slots(), tag_of_level(l)))
    }

    /// Well-formedness: tags in range, header counters consistent, and
    /// the array shaped as whole levels plus commit-appended stored
    /// slots.
    pub closed spec fn wf(self) -> bool {
        self.counts_ok() && well_shaped(self.slots())
    }

    /// Number of slots the flat array currently holds.
    pub fn len(&self) -> (n: usize)
        ensures
            n == self.slots().len(),
    {
        self.nodes.len()
    }

    /// A fresh, empty index.
    pub fn new() -> (t: Tree<T>)
        ensures
            t.wf(),
            t.slots().len() == 0,
    {
        let t = Tree::<T> { nodes: Vec::new() };
        proof {
            assert(t.nodes@.len() == 0);
            assert forall|l: int| 0 <= l < 8 implies level_base(l) >= 0 by {
                lemma_level_base_nonneg(l);
            }
            lemma_level_base_values();
            assert(whole_levels(0));
        }
        t
    }

    /// Grows the array in whole-level steps until it covers `length`,
    /// and returns the array's length.
    fn resize(&mut self, length: usize) -> (r: usize)
        requires
            old(self).wf(),
            length < 21845,
        ensures
            final(self).wf(),
            r == final(self).slots().len(),
            length < r,
            grown(old(self).slots(), final(self).slots()),
            final(self).slots() == spec_grow(old(self).slots(), length as int),
            old(self).slots().len() > length ==> *final(self) == *old(self) && r == old(
                self,
            ).slots().len(),
            old(self).slots().len() <= length ==> r == grow_target(length as int),
            final(self).slots().len() <= 21845 || final(self).slots().len() <= old(
                self,
            ).slots().len(),
    {
        let ghost s0 = old(self).slots();
        let cur_length: usize = self.nodes.len();
        if cur_length > length {
            return cur_length;
        }
        let mut new_length: usize = 0;
        let mut l: u8 = 0;
        while new_length <= length
            invariant
                l <= 8,
                new_length == level_base(l as int),
                length < 21845,
                grow_target(length as int) == grow_target_from(l as int, length as int),
            decreases 8 - l,
        {
            proof {
                lemma_level_base_values();
                lemma_level_base_increases(l as int, 7);
            }
            new_length = new_length * 4 + 1;
            l = l + 1;
        }
        proof {
            lemma_level_base_values();
            lemma_level_base_increases(l as int, 8);
            assert(new_length == grow_target(length as int));
            assert(self.slots() =~= s0 + Seq::new((self.nodes@.len() - s0.len()) as nat, |k: int| None));
        }
        while self.nodes.len() < new_length
            invariant
                self.counts_ok(),
                grown(s0, self.slots()),
                new_length <= 21845,
                self.nodes@.len() <= new_length,
                s0.len() <= self.nodes@.len(),
                self.slots() == s0 + Seq::new((self.nodes@.len() - s0.len()) as nat, |k: int| None),
            decreases new_length - self.nodes@.len(),
        {
            let ghost sp = self.slots();
            let ghost n: int = self.nodes@.len() as int;
            self.nodes.push(Node { count: 0, item: None });
            proof {
                let sn = self.slots();
                assert(sn =~= sp.push(None));
                assert forall|lv: int|
                    0 <= lv < 8 && level_base(lv) < self.nodes@.len() implies (
                #[trigger] self.nodes@[level_base(lv)].count) as int == tag_count(
                    self.slots(),
                    tag_of_level(lv),
                ) by {
                    lemma_level_base_values();
                    lemma_level_base_nonneg(lv);
                    if level_base(lv) < n {
                        lemma_tcb_agree(sn, sp, tag_of_level(lv), n);
                    } else {
                        // A header materialized just now: nothing can
                        // carry its tag yet.
                        assert forall|k: int| 0 <= k < sn.len() implies !is_tagged(
                            sn[k],
                            tag_of_level(lv),
                        ) by {
                            if k < n && sn[k] is Some {
                                assert(sn[k] == sp[k]);
                            }
                        }
                        lemma_tcb_none_region(sn, tag_of_level(lv), 0, sn.len() as int);
                    }
                }
                assert(self.slots() =~= s0 + Seq::new(
                    (self.nodes@.len() - s0.len()) as nat,
                    |k: int| None,
                ));
            }
        }
        proof {
            lemma_grow_target(length as int);
            assert(self.nodes@.len() == new_length);
            assert(whole_levels(new_length as int));
            assert(well_shaped(self.slots()));
            assert(self.slots() =~= spec_grow(s0, length as int));
        }
        self.nodes.len()
    }

    /// Inserts `item` under its grid bounding box, with an optional
    /// collision predicate.
    ///
    /// Without a predicate the item is always placed, at the natural
    /// level of its box. With a predicate, the probe descends from the
    /// natural level to the root, asks the predicate about every stored
    /// item whose tag belongs to a probed level, rejects (returning
    /// false, with the store unchanged but for whole-level growth) as
    /// soon as one call returns true, and otherwise places the item
    /// under the root tag and returns true. A placed item goes into
    /// the first empty slot of the probe path from its header, or into
    /// one node appended to a full array; the array grows only to
    /// whole-level sizes, as `spec_grow` and `spec_place` state.
    #[verifier::rlimit(100)]
    pub fn insert_checked<F: Fn(&T, &T) -> bool>(
        &mut self,
        item: T,
        bbox: &BoundingBox<u8>,
        check: Option<&F>,
    ) -> (r: bool)
        requires
            old(self).wf(),
            old(self).slots().len() < 0xffff,
            check matches Some(f) ==> forall|a: &T, b: &T| #[trigger] call_requires(*f, (a, b)),
        ensures
            final(self).wf(),
            final(self).slots().len() <= 21846 || final(self).slots().len() <= old(
                self,
            ).slots().len() + 1,
            check is None ==> r,
            r ==> committed(
                old(self).slots(),
                final(self).slots(),
                tag_of_level(
                    if check is Some {
                        0int
                    } else {
                        grid_level(*bbox) as int
                    },
                ),
                item,
            ),
            !r ==> grown(old(self).slots(), final(self).slots()),
            r ==> final(self).slots() == spec_place(
                grown_to_level(
                    *bbox,
                    old(self).slots(),
                    if check is Some {
                        0int
                    } else {
                        grid_level(*bbox) as int
                    },
                ),
                tag_of_level(
                    if check is Some {
                        0int
                    } else {
                        grid_level(*bbox) as int
                    },
                ),
                item,
            ),
            !r ==> exists|i: int|
                0 <= i <= grid_level(*bbox) as int && final(self).slots() == #[trigger]
                grown_to_level(*bbox, old(self).slots(), i),
            check matches Some(f) ==> (r ==> levels_accepted(
                old(self).slots(),
                *f,
                item,
                0,
                grid_level(*bbox) as int,
            )),
            check matches Some(f) ==> (!r ==> exists|k: int, l: int|
                0 <= l <= grid_level(*bbox) as int && #[trigger] slot_tagged(
                    old(self).slots(),
                    k,
                    tag_of_level(l),
                ) && rejected(*f, item, slot_item(old(self).slots(), k))),
    {
        let ghost s0 = old(self).slots();
        // Natural level of the box: the finest level at which it still
        // fits inside one cell, found per axis from the highest bit
        // where the bounds differ.
        let dx: u8 = bbox.x0 ^ bbox.x1;
        let xl: u8 = if dx == 0 {
            7
        } else {
            7 - bsr(dx)
        };
        let dy: u8 = bbox.y0 ^ bbox.y1;
        let yl: u8 = if dy == 0 {
            7
        } else {
            7 - bsr(dy)
        };
        let lstar: u8 = if xl < yl {
            xl
        } else {
            yl
        };
        assert(lstar == grid_level(*bbox));
        let base: u16 = level_base_u16(lstar);

        let mut li: u8 = lstar + 1;
        while li > 0
            invariant
                s0 == old(self).slots(),
                self.slots().len() <= 21845 || self.slots().len() <= s0.len(),
                1 <= li <= lstar + 1,
                lstar == grid_level(*bbox),
                lstar <= 7,
                base as int == level_base(lstar as int),
                self.wf(),
                grown(s0, self.slots()),
                s0.len() < 0xffff,
                check is None ==> li == lstar + 1,
                li == lstar + 1 ==> self.slots() == s0,
                li <= lstar ==> self.slots() == grown_to_level(*bbox, s0, li as int),
                check matches Some(f) ==> forall|a: &T, b: &T| #[trigger] call_requires(
                    *f,
                    (a, b),
                ),
                check matches Some(f) ==> levels_accepted(s0, *f, item, li as int, lstar as int),
            decreases li,
        {
            let i: u8 = li - 1;
            // Home index of the target cell, used to size the array.
            let index: u16 = if i == 0 {
                0
            } else {
                let sh: u8 = 8 - lstar;
                let sz: u16 = 1u16 << i;
                let bx: u8 = bbox.x0;
                let by: u8 = bbox.y0;
                let xq: u16 = (bx >> sh) as u16;
                let yq: u16 = (by >> sh) as u16;
                proof {
                    lemma_level_base_values();
                    lemma_level_base_increases(lstar as int, 7);
                    assert(bx >> sh < 128 && by >> sh < 128) by (bit_vector)
                        requires
                            sh >= 1,
                    ;
                    assert(sz <= 128) by (bit_vector)
                        requires
                            sz == 1u16 << i,
                            i <= 7,
                    ;
                    assert(yq * sz <= 127 * 128) by (nonlinear_arith)
                        requires
                            yq <= 127,
                            0 <= sz <= 128,
                    ;
                    lemma_pow2_values();
                    assert((i == 1 ==> sz == 2) && (i == 2 ==> sz == 4) && (i == 3 ==> sz == 8) && (
                    i == 4 ==> sz == 16) && (i == 5 ==> sz == 32) && (i == 6 ==> sz == 64) && (i
                        == 7 ==> sz == 128)) by (bit_vector)
                        requires
                            sz == 1u16 << i,
                            1 <= i && i <= 7,
                    ;
                    assert(sz as int == pow2(i as int));
                }
                let idx: u16 = base + yq * sz + xq;
                proof {
                    assert(idx as int == home_index(*bbox, i as int));
                }
                idx
            };
            assert(index as int == home_index(*bbox, i as int));
            proof {
                lemma_level_base_values();
                lemma_level_base_increases(lstar as int, 7);
                lemma_level_base_increases(i as int, lstar as int);
                lemma_level_base_nonneg(i as int);
            }
            let ghost s_before = self.slots();
            let length: usize = self.resize(index as usize);
            proof {
                lemma_grown_trans(s0, s_before, self.slots());
                if li == lstar + 1 {
                    assert(self.slots() == spec_grow(s0, home_index(*bbox, lstar as int)));
                    assert(self.slots() == grown_to_level(*bbox, s0, i as int));
                } else {
                    assert(s_before == grown_to_level(*bbox, s0, i as int + 1));
                    assert(self.slots() == grown_to_level(*bbox, s0, i as int));
                }
            }

            let k0: u16 = level_base_u16(i);
            let ghost tag: u16 = k0;
            let mut k: usize = k0 as usize;
            let count: u16 = self.nodes[k].count;
            let mut remaining: u16 = count;
            let mut slot: Option<usize> = None;
            let mut t: usize = 0;
            let ghost s = self.slots();

            while t < length
                invariant
                    s0 == old(self).slots(),
                    length <= 21845 || length <= s0.len(),
                    t <= length,
                    length == self.nodes@.len(),
                    length == s.len(),
                    s == self.slots(),
                    self.wf(),
                    grown(s0, s),
                    s0.len() < 0xffff,
                    i < 8,
                    i as int <= lstar as int,
                    lstar == grid_level(*bbox),
                    k0 as int == level_base(i as int),
                    tag == k0,
                    (k0 as int) < length,
                    k < length,
                    k as int == probe_pos(k0 as int, length as int, t as int),
                    count as int == tag_count(s, tag),
                    remaining as int == count - probe_seen(s, tag, k0 as int, t as int),
                    s == grown_to_level(*bbox, s0, i as int),
                    slot matches Some(j) ==> j < length && s[j as int] is None
                        && probe_first_free(s, k0 as int, 0) == Some(j as int),
                    slot is None ==> probe_first_free(s, k0 as int, t as int) == probe_first_free(
                        s,
                        k0 as int,
                        0,
                    ),
                    check matches Some(f) ==> forall|a: &T, b: &T| #[trigger] call_requires(
                        *f,
                        (a, b),
                    ),
                    check matches Some(f) ==> forall|jj: int|
                        probe_visited(k0 as int, length as int, t as int, jj) && #[trigger]
                        is_tagged(s[jj], tag) ==> accepted(*f, item, slot_item(s, jj)),
                ensures
                    s == self.slots(),
                    self.wf(),
                    length == self.nodes@.len(),
                    slot matches Some(j) ==> j < length && s[j as int] is None
                        && probe_first_free(s, k0 as int, 0) == Some(j as int),
                    slot is None ==> probe_first_free(s, k0 as int, 0) is None,
                    check matches Some(f) ==> forall|jj: int|
                        0 <= jj < length && #[trigger] is_tagged(s[jj], tag) ==> accepted(
                            *f,
                            item,
                            slot_item(s, jj),
                        ),
                decreases length - t,
            {
                proof {
                    lemma_probe_seen_step(s, tag, k0 as int, t as int);
                }
                match &self.nodes[k].item {
                    Some(p) => {
                        if p.0 == k0 {
                            if let Some(f) = check {
                                if f(&item, &p.1) {
                                    proof {
                                        assert(s[k as int] is Some);
                                        assert((k as int) < s0.len());
                                        assert(s0[k as int] == s[k as int]);
                                        assert(slot_tagged(s0, k as int, tag_of_level(i as int)));
                                        assert(rejected(*f, item, slot_item(s0, k as int)));
                                        assert(self.slots() == grown_to_level(
                                            *bbox,
                                            s0,
                                            i as int,
                                        ));
                                    }
                                    return false;
                                }
                                proof {
                                    assert(is_tagged(s[k as int], tag));
                                    assert(accepted(*f, item, slot_item(s, k as int)));
                                }
                            }
                            proof {
                                lemma_probe_seen_missing(s, tag, k0 as int, t as int, k as int);
                            }
                            remaining = remaining - 1;
                        }
                    },
                    None => {
                        if slot.is_none() {
                            proof {
                                assert(probe_first_free(s, k0 as int, t as int) == Some(k as int));
                            }
                            slot = Some(k);
                        }
                        if remaining == 0 {
                            if let Some(f) = check {
                                proof {
                                    assert forall|jj: int|
                                        0 <= jj < length && #[trigger] is_tagged(s[jj], tag)
                                        implies accepted(*f, item, slot_item(s, jj)) by {
                                        if !probe_visited(k0 as int, length as int, t as int, jj) {
                                            lemma_probe_seen_missing(
                                                s,
                                                tag,
                                                k0 as int,
                                                t as int,
                                                jj,
                                            );
                                        }
                                    }
                                }
                            }
                            break;
                        }
                    },
                }
                k = k + 1;
                if k == length {
                    k = 0;
                }
                t = t + 1;
                proof {
                    if slot is None {
                        assert(s[probe_pos(k0 as int, length as int, (t - 1) as int)] is Some);
                        assert(probe_first_free(s, k0 as int, (t - 1) as int) == probe_first_free(
                            s,
                            k0 as int,
                            t as int,
                        ));
                    }
                    if check is Some {
                        let f = check.unwrap();
                        assert forall|jj: int|
                            probe_visited(k0 as int, length as int, t as int, jj) && #[trigger]
                            is_tagged(s[jj], tag) implies accepted(*f, item, slot_item(s, jj)) by {
                            if !probe_visited(k0 as int, length as int, (t - 1) as int, jj) {
                                assert(jj == probe_pos(k0 as int, length as int, (t - 1) as int));
                            }
                        }
                    }
                }
            }

            if li == 1 || check.is_none() {
                proof {
                    // Bound the header count before bumping it.
                    lemma_tcb_none_region(s, tag, s0.len() as int, length as int);
                    lemma_tcb_bounds(s, tag, s0.len() as int);
                }
                let ghost n_probe = self.nodes@;
                let j: usize = match slot {
                    Some(jv) => jv,
                    None => {
                        self.nodes.push(Node { count: 0, item: None });
                        length
                    },
                };
                let ghost n1 = self.nodes@;
                let ghost s1 = self.slots();
                proof {
                    if slot is None {
                        assert(s1 =~= s.push(None));
                    }
                    assert(s1[j as int] is None);
                    assert(j as int == commit_slot(s, k0 as int));
                }
                self.nodes[j].item = Some((k0, item));
                let ghost n2 = self.nodes@;
                let ghost s2 = self.slots();
                proof {
                    assert(s2 =~= s1.update(j as int, Some((k0, item))));
                }
                let hc: u16 = count + 1;
                self.nodes[k0 as usize].count = hc;
                proof {
                    let n3 = self.nodes@;
                    let s3 = self.slots();
                    assert(s3 =~= s2);
                    lemma_level_base_values();
                    // Witness for the committed shape.
                    assert(committed_at(s0, s3, tag, item, j as int));
                    if check is Some {
                        assert(i == 0);
                        assert(tag == tag_of_level(0));
                    } else {
                        assert(i == lstar);
                        assert(tag == tag_of_level(grid_level(*bbox) as int));
                    }
                    // Tag bounds still hold.
                    assert forall|kk: int|
                        0 <= kk < n3.len() && (#[trigger] n3[kk].item) is Some implies n3[kk]
                        .item.unwrap().0 < n3.len() by {
                        assert(n3[kk].item == s3[kk]);
                        if kk != j as int {
                            assert(s3[kk] == s1[kk]);
                            if kk < length {
                                assert(s1[kk] == s[kk]);
                                assert(s[kk] == n_probe[kk].item);
                            }
                        }
                    }
                    // Header counts.
                    assert forall|l: int|
                        0 <= l < 8 && level_base(l) < n3.len() implies (#[trigger] n3[level_base(
                        l,
                    )].count) as int == tag_count(s3, tag_of_level(l)) by {
                        lemma_level_base_nonneg(l);
                        let hb = level_base(l);
                        let tl = tag_of_level(l);
                        if slot is None {
                            lemma_tcb_agree(s1, s, tl, length as int);
                        }
                        assert(tag_count(s1, tl) == tag_count(s, tl));
                        lemma_tcb_update(s1, j as int, Some((k0, item)), tl, s1.len() as int);
                        if l == i as int {
                            assert(is_tagged(Some((k0, item)), tl));
                            assert(tag_count(s3, tl) == tag_count(s, tl) + 1);
                        } else {
                            if l < i as int {
                                lemma_level_base_increases(l, i as int);
                            } else {
                                lemma_level_base_increases(i as int, l);
                            }
                            assert(hb != k0 as int);
                            lemma_level_base_increases(l, 7);
                            assert(tl != tag);
                            assert(!is_tagged(Some((k0, item)), tl));
                            assert(tag_count(s3, tl) == tag_count(s, tl));
                            if hb < length {
                                // Untouched header: its count and the
                                // number of items under its tag both
                                // carry over.
                                assert(n3[hb].count == n_probe[hb].count);
                            } else {
                                // A header materialized by an appending
                                // commit: nothing carries its tag.
                                assert(hb == j as int);
                                assert(n3[hb].count == 0);
                                assert forall|kk: int| 0 <= kk < s.len() implies !is_tagged(
                                    s[kk],
                                    tl,
                                ) by {
                                    if s[kk] is Some {
                                        assert(s[kk] == n_probe[kk].item);
                                    }
                                }
                                lemma_tcb_none_region(s, tl, 0, s.len() as int);
                            }
                        }
                    }
                    // The array shape survives the commit: the one
                    // touched slot holds an item afterwards.
                    let m = choose|m: int|
                        0 <= m <= s.len() && #[trigger] whole_levels(m) && (forall|k: int|
                            m <= k < s.len() ==> s[k] is Some);
                    assert forall|k: int| m <= k < s3.len() implies s3[k] is Some by {
                        if k != j as int {
                            assert(s3[k] == s1[k]);
                            if k < s.len() {
                                assert(s1[k] == s[k]);
                            }
                        }
                    }
                    assert(well_shaped(s3));
                    // The commit is exactly the specified placement.
                    if slot is None {
                        assert(s3 =~= s.push(Some((k0, item))));
                    }
                    assert(s3 =~= spec_place(s, k0, item));
                    assert(s == grown_to_level(*bbox, s0, i as int));
                    // All probed levels were cleared by the predicate.
                    if check is Some {
                        let f = check.unwrap();
                        assert forall|kk: int, l: int|
                            0 <= l <= lstar as int && #[trigger] slot_tagged(
                                s0,
                                kk,
                                tag_of_level(l),
                            ) implies accepted(*f, item, slot_item(s0, kk)) by {
                            if l == 0 {
                                assert(s[kk] == s0[kk]);
                                assert(is_tagged(s[kk], tag));
                                assert(slot_item(s, kk) == slot_item(s0, kk));
                            }
                        }
                    }
                }
                return true;
            }
            proof {
                if check is Some {
                    let f = check.unwrap();
                    assert forall|kk: int, l: int|
                        (li - 1) as int <= l <= lstar as int && #[trigger] slot_tagged(
                            s0,
                            kk,
                            tag_of_level(l),
                        ) implies accepted(*f, item, slot_item(s0, kk)) by {
                        if l == i as int {
                            assert(s[kk] == s0[kk]);
                            assert(is_tagged(s[kk], tag));
                            assert(slot_item(s, kk) == slot_item(s0, kk));
                        }
                    }
                }
            }
            li = li - 1;
        }
        false
    }

    /// Unconditional insertion: the item is always placed, at the
    /// natural level of its grid bounding box.
    pub fn insert(&mut self, item: T, bbox: &BoundingBox<u8>)
        requires
            old(self).wf(),
            old(self).slots().len() < 0xffff,
        ensures
            final(self).wf(),
            final(self).slots().len() <= 21846 || final(self).slots().len() <= old(
                self,
            ).slots().len() + 1,
            committed(
                old(self).slots(),
                final(self).slots(),
                tag_of_level(grid_level(*bbox) as int),
                item,
            ),
            final(self).slots() == spec_place(
                grown_to_level(*bbox, old(self).slots(), grid_level(*bbox) as int),
                tag_of_level(grid_level(*bbox) as int),
                item,
            ),
    {
        // The predicate value exists only to give `None` a type.
        let cl = |a: &T, b: &T| -> bool { false };
        let mut none_check = Some(&cl);
        none_check = None;
        self.insert_checked(item, bbox, none_check);
    }

    /// Inserts `item` unless it collides, by the payload type's own
    /// collision relation, with an item already stored at a probed
    /// level; returns whether insertion occurred. Success is owed
    /// exactly when no stored item at a level up to the box's natural
    /// level conflicts with the new one.
    pub fn insert_unless_intersecting(&mut self, item: T, bbox: &BoundingBox<u8>) -> (r: bool) where
        T: Intersection,

        requires
            old(self).wf(),
            old(self).slots().len() < 0xffff,
        ensures
            final(self).wf(),
            final(self).slots().len() <= 21846 || final(self).slots().len() <= old(
                self,
            ).slots().len() + 1,
            r == clear_of_conflicts(old(self).slots(), item, grid_level(*bbox) as int),
            r ==> committed(old(self).slots(), final(self).slots(), tag_of_level(0), item),
            r ==> final(self).slots() == spec_place(
                grown_to_level(*bbox, old(self).slots(), 0),
                tag_of_level(0),
                item,
            ),
            !r ==> grown(old(self).slots(), final(self).slots()),
            !r ==> exists|i: int|
                0 <= i <= grid_level(*bbox) as int && final(self).slots() == #[trigger]
                grown_to_level(*bbox, old(self).slots(), i),
    {
        let ghost s0 = old(self).slots();
        let ghost gitem = item;
        let cl = |a: &T, b: &T| -> (c: bool)
            ensures
                c == a.conflicts(*b),
            { a.intersects(b) };
        let r = self.insert_checked(item, bbox, Some(&cl));
        proof {
            let lm: int = grid_level(*bbox) as int;
            if r {
                assert forall|k: int, l: int|
                    0 <= l <= lm && #[trigger] slot_tagged(s0, k, tag_of_level(l)) implies !gitem
                    .conflicts(slot_item(s0, k)) by {
                    assert(accepted(cl, gitem, slot_item(s0, k)));
                }
            } else {
                let (k, l): (int, int) = choose|k: int, l: int|
                    0 <= l <= lm && #[trigger] slot_tagged(s0, k, tag_of_level(l)) && rejected(
                        cl,
                        gitem,
                        slot_item(s0, k),
                    );
                assert(gitem.conflicts(slot_item(s0, k)));
            }
        }
        r
    }
}

/// Idempotent rejection: once a checked insert has committed `item`
/// (always under the root tag), a store in which `item` conflicts with
/// itself can no longer be clear of conflicts for it, whatever level
/// bound a second identical insert probes with — so that second insert
/// cannot report success.
pub proof fn lemma_idempotent_rejection<T: Intersection>(
    pre: Seq<Option<(u16, T)>>,
    post: Seq<Option<(u16, T)>>,
    item: T,
    lmax: int,
)
    requires
        committed(pre, post, tag_of_level(0), item),
        item.conflicts(item),
        0 <= lmax,
    ensures
        !clear_of_conflicts(post, item, lmax),
{
    let j: int = choose|j: int| committed_at(pre, post, tag_of_level(0), item, j);
    assert(slot_tagged(post, j, tag_of_level(0)));
    assert(slot_item(post, j) == item);
}

} // verus!
