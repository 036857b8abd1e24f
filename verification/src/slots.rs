use vstd::prelude::*;

verus! {

// ------------------------------------------------------------------
// The slot model.
//
// A slot of the flat node array either is empty or holds an item
// together with the tag of the cell header it belongs to. The lemmas
// here count, over a sequence of slots, how many carry a given tag;
// the probe proofs in the tree build on them.
// ------------------------------------------------------------------

/// Whether slot content `o` holds an item tagged `tag`.
pub open spec fn is_tagged<T>(o: Option<(u16, T)>, tag: u16) -> bool {
    o is Some && o.unwrap().0 == tag
}

/// Whether position `k` of `s` holds an item tagged `tag`.
pub open spec fn slot_tagged<T>(s: Seq<Option<(u16, T)>>, k: int, tag: u16) -> bool {
    0 <= k < s.len() && is_tagged(s[k], tag)
}

/// The item held at position `k` of `s`.
pub open spec fn slot_item<T>(s: Seq<Option<(u16, T)>>, k: int) -> T {
    s[k].unwrap().1
}

/// Number of slots among `s[0], ..., s[hi - 1]` tagged `tag`.
pub open spec fn tag_count_below<T>(s: Seq<Option<(u16, T)>>, tag: u16, hi: int) -> int
    decreases hi,
{
    if hi <= 0 {
        0
    } else {
        tag_count_below(s, tag, hi - 1) + if is_tagged(s[hi - 1], tag) {
            1int
        } else {
            0int
        }
    }
}

/// Number of slots of `s` tagged `tag`.
pub open spec fn tag_count<T>(s: Seq<Option<(u16, T)>>, tag: u16) -> int {
    tag_count_below(s, tag, s.len() as int)
}

pub proof fn lemma_tcb_bounds<T>(s: Seq<Option<(u16, T)>>, tag: u16, hi: int)
    ensures
        0 <= tag_count_below(s, tag, hi),
        hi >= 0 ==> tag_count_below(s, tag, hi) <= hi,
    decreases hi,
{
    if hi > 0 {
        lemma_tcb_bounds(s, tag, hi - 1);
    }
}

pub proof fn lemma_tcb_mono<T>(s: Seq<Option<(u16, T)>>, tag: u16, lo: int, hi: int)
    requires
        lo <= hi,
    ensures
        tag_count_below(s, tag, lo) <= tag_count_below(s, tag, hi),
    decreases hi - lo,
{
    if lo < hi {
        lemma_tcb_mono(s, tag, lo, hi - 1);
    }
}

/// The count only looks at positions below `hi`.
pub proof fn lemma_tcb_agree<T>(
    s1: Seq<Option<(u16, T)>>,
    s2: Seq<Option<(u16, T)>>,
    tag: u16,
    hi: int,
)
    requires
        forall|k: int| 0 <= k < hi ==> s1[k] == s2[k],
    ensures
        tag_count_below(s1, tag, hi) == tag_count_below(s2, tag, hi),
    decreases hi,
{
    if hi > 0 {
        lemma_tcb_agree(s1, s2, tag, hi - 1);
    }
}

/// A region without the tag contributes nothing to the count.
pub proof fn lemma_tcb_none_region<T>(s: Seq<Option<(u16, T)>>, tag: u16, lo: int, hi: int)
    requires
        0 <= lo <= hi,
        forall|k: int| lo <= k < hi ==> !is_tagged(s[k], tag),
    ensures
        tag_count_below(s, tag, hi) == tag_count_below(s, tag, lo),
    decreases hi - lo,
{
    if lo < hi {
        lemma_tcb_none_region(s, tag, lo, hi - 1);
    }
}

/// How filling one slot moves the counts.
pub proof fn lemma_tcb_update<T>(
    s: Seq<Option<(u16, T)>>,
    j: int,
    v: Option<(u16, T)>,
    tag: u16,
    hi: int,
)
    requires
        0 <= j < s.len(),
        hi <= s.len(),
    ensures
        tag_count_below(s.update(j, v), tag, hi) == tag_count_below(s, tag, hi) + if j < hi {
            (if is_tagged(v, tag) {
                1int
            } else {
                0int
            }) - (if is_tagged(s[j], tag) {
                1int
            } else {
                0int
            })
        } else {
            0int
        },
    decreases hi,
{
    if hi > 0 {
        lemma_tcb_update(s, j, v, tag, hi - 1);
    }
}

// ------------------------------------------------------------------
// The probe path.
//
// A probe at a level starts at the header position `k0` and walks the
// whole array of length `len`, wrapping at the end. After `t` steps it
// stands at `probe_pos(k0, len, t)`, and `probe_visited` says which
// positions it has already passed.
// ------------------------------------------------------------------

pub open spec fn probe_pos(k0: int, len: int, t: int) -> int {
    if k0 + t < len {
        k0 + t
    } else {
        k0 + t - len
    }
}

pub open spec fn probe_visited(k0: int, len: int, t: int, j: int) -> bool {
    (k0 <= j < len && j - k0 < t) || (0 <= j < k0 && j + len - k0 < t)
}

/// The first empty position on the probe path from `k0`, starting the
/// search at step `t`: the slot an insertion reuses.
pub open spec fn probe_first_free<T>(s: Seq<Option<(u16, T)>>, k0: int, t: int) -> Option<int>
    decreases s.len() - t,
{
    if t < 0 || t >= s.len() {
        None
    } else if s[probe_pos(k0, s.len() as int, t)] is None {
        Some(probe_pos(k0, s.len() as int, t))
    } else {
        probe_first_free(s, k0, t + 1)
    }
}

/// Number of tagged slots the probe has passed after `t` steps.
pub open spec fn probe_seen<T>(s: Seq<Option<(u16, T)>>, tag: u16, k0: int, t: int) -> int {
    let len = s.len() as int;
    if t <= len - k0 {
        tag_count_below(s, tag, k0 + t) - tag_count_below(s, tag, k0)
    } else {
        (tag_count_below(s, tag, len) - tag_count_below(s, tag, k0)) + tag_count_below(
            s,
            tag,
            t - (len - k0),
        )
    }
}

/// One probe step adds the slot it stands on to what it has seen.
pub proof fn lemma_probe_seen_step<T>(s: Seq<Option<(u16, T)>>, tag: u16, k0: int, t: int)
    requires
        0 <= k0 < s.len(),
        0 <= t < s.len(),
    ensures
        probe_seen(s, tag, k0, t + 1) == probe_seen(s, tag, k0, t) + if is_tagged(
            s[probe_pos(k0, s.len() as int, t)],
            tag,
        ) {
            1int
        } else {
            0int
        },
        !probe_visited(k0, s.len() as int, t, probe_pos(k0, s.len() as int, t)),
        forall|j: int|
            probe_visited(k0, s.len() as int, t + 1, j) <==> (probe_visited(
                k0,
                s.len() as int,
                t,
                j,
            ) || j == probe_pos(k0, s.len() as int, t)),
{
    let len = s.len() as int;
    if t + 1 <= len - k0 {
        assert(tag_count_below(s, tag, k0 + t + 1) == tag_count_below(s, tag, k0 + t) + if is_tagged(
            s[k0 + t],
            tag,
        ) {
            1int
        } else {
            0int
        });
    } else if t <= len - k0 {
        assert(tag_count_below(s, tag, 1) == tag_count_below(s, tag, 0) + if is_tagged(s[0], tag) {
            1int
        } else {
            0int
        });
    } else {
        let tp = t - (len - k0);
        assert(tag_count_below(s, tag, tp + 1) == tag_count_below(s, tag, tp) + if is_tagged(
            s[tp],
            tag,
        ) {
            1int
        } else {
            0int
        });
    }
}

/// A tagged slot the probe has not passed keeps the seen count short of
/// the total.
pub proof fn lemma_probe_seen_missing<T>(
    s: Seq<Option<(u16, T)>>,
    tag: u16,
    k0: int,
    t: int,
    j: int,
)
    requires
        0 <= k0 < s.len(),
        0 <= t <= s.len(),
        0 <= j < s.len(),
        !probe_visited(k0, s.len() as int, t, j),
        is_tagged(s[j], tag),
    ensures
        probe_seen(s, tag, k0, t) < tag_count(s, tag),
{
    let len = s.len() as int;
    assert(tag_count_below(s, tag, j + 1) == tag_count_below(s, tag, j) + 1);
    if t <= len - k0 {
        if j >= k0 + t {
            lemma_tcb_mono(s, tag, k0 + t, j);
            lemma_tcb_mono(s, tag, j + 1, len);
            lemma_tcb_bounds(s, tag, k0);
        } else {
            lemma_tcb_mono(s, tag, j + 1, k0);
            lemma_tcb_bounds(s, tag, j);
            lemma_tcb_mono(s, tag, k0 + t, len);
        }
    } else {
        let tp = t - (len - k0);
        lemma_tcb_mono(s, tag, tp, j);
        lemma_tcb_mono(s, tag, j + 1, k0);
    }
}

} // verus!
