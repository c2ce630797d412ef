//! The chunking heuristic: group the address-ordered action stream into
//! function-like ranges by splitting on bare terminators, then merging any
//! ranges whose label sets meet, until all remaining groups' label sets are
//! pairwise disjoint.
use vstd::prelude::*;

use crate::stcm2::{Action, Parameter};

verus! {

/// The labels an action contributes: its own address and every address an
/// `ActionRef` operand of it targets.
pub open spec fn act_has_label(e: (u32, Action), x: u32) -> bool {
    e.0 == x || exists|j: int|
        0 <= j < e.1.params@.len() && e.1.params@[j] == Parameter::ActionRef(x)
}

/// The label set of the actions in `[lo, hi)`.
pub open spec fn labels_of(acts: Seq<(u32, Action)>, lo: int, hi: int) -> Set<u32> {
    Set::new(|x: u32| exists|k: int| lo <= k < hi && act_has_label(#[trigger] acts[k], x))
}

/// The two ranges' label sets share no element.
pub open spec fn labels_disjoint(
    acts: Seq<(u32, Action)>,
    a: (usize, usize),
    b: (usize, usize),
) -> bool {
    forall|x: u32|
        !(labels_of(acts, a.0 as int, a.1 as int).contains(x) && labels_of(
            acts,
            b.0 as int,
            b.1 as int,
        ).contains(x))
}

/// A bare terminator: a non-call action with opcode zero.
pub open spec fn is_terminator(e: (u32, Action)) -> bool {
    !e.1.call && e.1.opcode == 0
}

/// Every chunk but the last ends right after a bare terminator: boundaries
/// are only ever placed there, and merging only removes them.
pub open spec fn boundaries_at_terminators(acts: Seq<(u32, Action)>, r: Seq<(usize, usize)>) -> bool {
    forall|k: int|
        0 <= k < r.len() - 1 ==> is_terminator(acts[(#[trigger] r[k]).1 - 1])
}

/// A chunk list partitions the whole stream: contiguous, nonempty ranges
/// from the first action to the last.
pub open spec fn is_partition(acts: Seq<(u32, Action)>, r: Seq<(usize, usize)>) -> bool {
    if acts.len() == 0 {
        r.len() == 0
    } else {
        &&& r.len() > 0
        &&& r[0].0 == 0
        &&& r[r.len() - 1].1 == acts.len()
        &&& forall|k: int| 0 <= k < r.len() ==> (#[trigger] r[k]).0 < r[k].1 <= acts.len()
        &&& forall|k: int| 0 <= k < r.len() - 1 ==> (#[trigger] r[k]).1 == r[k + 1].0
    }
}

/// Does an action carry label `x`?
fn has_label(e: &(u32, Action), x: u32) -> (r: bool)
    ensures
        r == act_has_label(*e, x),
{
    if e.0 == x {
        return true;
    }
    let mut j: usize = 0;
    while j < e.1.params.len()
        invariant
            j <= e.1.params@.len(),
            forall|t: int| 0 <= t < j ==> #[trigger] e.1.params@[t] != Parameter::ActionRef(x),
        decreases e.1.params@.len() - j,
    {
        match e.1.params[j] {
            Parameter::ActionRef(t) => {
                if t == x {
                    return true;
                }
            },
            _ => (),
        }
        j = j + 1;
    }
    false
}

/// Does the range `[lo, hi)` carry label `x`?
fn range_has_label(acts: &Vec<(u32, Action)>, lo: usize, hi: usize, x: u32) -> (r: bool)
    requires
        lo <= hi <= acts@.len(),
    ensures
        r == labels_of(acts@, lo as int, hi as int).contains(x),
{
    let mut k: usize = lo;
    while k < hi
        invariant
            lo <= k <= hi <= acts@.len(),
            forall|t: int| lo <= t < k ==> !act_has_label(#[trigger] acts@[t], x),
        decreases hi - k,
    {
        if has_label(&acts[k], x) {
            return true;
        }
        k = k + 1;
    }
    false
}

/// Do the two ranges' label sets meet?
fn ranges_meet(acts: &Vec<(u32, Action)>, a: (usize, usize), b: (usize, usize)) -> (r: bool)
    requires
        a.0 <= a.1 <= acts@.len(),
        b.0 <= b.1 <= acts@.len(),
    ensures
        r == !labels_disjoint(acts@, a, b),
{
    let mut k: usize = a.0;
    while k < a.1
        invariant
            a.0 <= k <= a.1 <= acts@.len(),
            b.0 <= b.1 <= acts@.len(),
            forall|x: u32|
                labels_of(acts@, a.0 as int, k as int).contains(x) ==> !labels_of(
                    acts@,
                    b.0 as int,
                    b.1 as int,
                ).contains(x),
        decreases a.1 - k,
    {
        if range_has_label(acts, b.0, b.1, acts[k].0) {
            proof {
                assert(act_has_label(acts@[k as int], acts@[k as int].0));
                assert(labels_of(acts@, a.0 as int, a.1 as int).contains(acts@[k as int].0));
            }
            return true;
        }
        let e = &acts[k].1;
        let mut j: usize = 0;
        while j < e.params.len()
            invariant
                a.0 <= k < a.1 <= acts@.len(),
                b.0 <= b.1 <= acts@.len(),
                e == acts@[k as int].1,
                j <= e.params@.len(),
                forall|x: u32|
                    labels_of(acts@, a.0 as int, k as int).contains(x) ==> !labels_of(
                        acts@,
                        b.0 as int,
                        b.1 as int,
                    ).contains(x),
                !labels_of(acts@, b.0 as int, b.1 as int).contains(acts@[k as int].0),
                forall|t: int|
                    0 <= t < j && (#[trigger] e.params@[t]) is ActionRef ==> !labels_of(
                        acts@,
                        b.0 as int,
                        b.1 as int,
                    ).contains(e.params@[t]->ActionRef_0),
            decreases e.params@.len() - j,
        {
            match e.params[j] {
                Parameter::ActionRef(t) => {
                    if range_has_label(acts, b.0, b.1, t) {
                        proof {
                            assert(act_has_label(acts@[k as int], t));
                            assert(labels_of(acts@, a.0 as int, a.1 as int).contains(t));
                        }
                        return true;
                    }
                },
                _ => (),
            }
            j = j + 1;
        }
        proof {
            assert forall|x: u32|
                labels_of(acts@, a.0 as int, k + 1).contains(x) implies !labels_of(
                acts@,
                b.0 as int,
                b.1 as int,
            ).contains(x) by {
                if labels_of(acts@, a.0 as int, k as int).contains(x) {
                } else {
                    let kk = choose|kk: int|
                        a.0 <= kk < k + 1 && act_has_label(#[trigger] acts@[kk], x);
                    assert(kk == k);
                    assert(act_has_label(acts@[k as int], x));
                    if acts@[k as int].0 == x {
                    } else {
                        let t = choose|t: int|
                            0 <= t < acts@[k as int].1.params@.len() && acts@[k as int].1.params@[t]
                                == Parameter::ActionRef(x);
                        assert(e.params@[t] == Parameter::ActionRef(x));
                    }
                }
            }
        }
        k = k + 1;
    }
    proof {
        assert forall|x: u32|
            !(labels_of(acts@, a.0 as int, a.1 as int).contains(x) && labels_of(
                acts@,
                b.0 as int,
                b.1 as int,
            ).contains(x)) by {
            if labels_of(acts@, a.0 as int, a.1 as int).contains(x) {
                assert(labels_of(acts@, a.0 as int, k as int).contains(x));
            }
        }
    }
    false
}

/// Split the stream into ranges ending after each bare terminator (a
/// non-call action with opcode zero), the tail forming a last range.
fn initial_split(acts: &Vec<(u32, Action)>) -> (r: Vec<(usize, usize)>)
    ensures
        is_partition(acts@, r@),
        boundaries_at_terminators(acts@, r@),
{
    let mut r: Vec<(usize, usize)> = Vec::new();
    let mut start: usize = 0;
    let mut k: usize = 0;
    while k < acts.len()
        invariant
            start <= k <= acts@.len(),
            acts@.len() > 0 && start > 0 ==> r@.len() > 0,
            r@.len() > 0 ==> r@[0].0 == 0 && r@[r@.len() - 1].1 == start,
            r@.len() == 0 ==> start == 0,
            forall|t: int| 0 <= t < r@.len() ==> (#[trigger] r@[t]).0 < r@[t].1 <= acts@.len(),
            forall|t: int| 0 <= t < r@.len() - 1 ==> (#[trigger] r@[t]).1 == r@[t + 1].0,
            forall|t: int| 0 <= t < r@.len() ==> is_terminator(acts@[(#[trigger] r@[t]).1 - 1]),
        decreases acts@.len() - k,
    {
        let is_term = !acts[k].1.call && acts[k].1.opcode == 0;
        if is_term {
            r.push((start, k + 1));
            start = k + 1;
        }
        k = k + 1;
    }
    if start < acts.len() {
        r.push((start, acts.len()));
    }
    r
}


/// Copy the chunk list with the run `cur ..= found` glued into one range.
fn build_merged(chunks: &Vec<(usize, usize)>, cur: usize, found: usize) -> (r: Vec<
    (usize, usize),
>)
    requires
        cur < found < chunks@.len(),
    ensures
        r@.len() == chunks@.len() - (found - cur),
        forall|q: int| 0 <= q < cur ==> #[trigger] r@[q] == chunks@[q],
        r@[cur as int] == (chunks@[cur as int].0, chunks@[found as int].1),
        forall|q: int| cur < q < r@.len() ==> #[trigger] r@[q] == chunks@[q + found - cur],
{
    let n = chunks.len();
    let lo = chunks[cur].0;
    let hi = chunks[found].1;
    let mut merged: Vec<(usize, usize)> = Vec::new();
    let mut t: usize = 0;
    while t < cur
        invariant
            cur < found < chunks@.len(),
            t <= cur,
            merged@.len() == t,
            forall|q: int| 0 <= q < t ==> #[trigger] merged@[q] == chunks@[q],
        decreases cur - t,
    {
        merged.push(chunks[t]);
        t = t + 1;
    }
    merged.push((lo, hi));
    let mut t2: usize = found + 1;
    while t2 < chunks.len()
        invariant
            cur < found < chunks@.len(),
            lo == chunks@[cur as int].0,
            hi == chunks@[found as int].1,
            found + 1 <= t2 <= chunks@.len(),
            merged@.len() == cur + 1 + t2 - found - 1,
            forall|q: int| 0 <= q < cur ==> #[trigger] merged@[q] == chunks@[q],
            merged@[cur as int] == (chunks@[cur as int].0, chunks@[found as int].1),
            forall|q: int|
                cur < q < merged@.len() ==> #[trigger] merged@[q] == chunks@[q + found - cur],
        decreases chunks@.len() - t2,
    {
        merged.push(chunks[t2]);
        t2 = t2 + 1;
    }
    merged
}

/// Find the furthest later chunk whose label set meets chunk `cur`'s.
fn find_meet(acts: &Vec<(u32, Action)>, chunks: &Vec<(usize, usize)>, cur: usize) -> (r: Option<
    usize,
>)
    requires
        is_partition(acts@, chunks@),
        cur + 1 < chunks@.len(),
    ensures
        match r {
            Some(found) => cur < found < chunks@.len() && !labels_disjoint(
                acts@,
                chunks@[cur as int],
                chunks@[found as int],
            ),
            None => forall|t: int|
                cur < t < chunks@.len() ==> labels_disjoint(
                    acts@,
                    chunks@[cur as int],
                    #[trigger] chunks@[t],
                ),
        },
{
    let mut i: usize = chunks.len() - 1;
    while i > cur
        invariant
            is_partition(acts@, chunks@),
            cur <= i < chunks@.len(),
            forall|t: int|
                i < t < chunks@.len() ==> labels_disjoint(
                    acts@,
                    chunks@[cur as int],
                    #[trigger] chunks@[t],
                ),
        decreases i,
    {
        if ranges_meet(acts, chunks[cur], chunks[i]) {
            return Some(i);
        }
        i = i - 1;
    }
    None
}

/// All chunks are pairwise disjoint once the scan position passes the
/// second-to-last chunk.
proof fn lemma_chunks_done(acts: Seq<(u32, Action)>, chunks: Seq<(usize, usize)>, cur: int)
    requires
        cur + 1 >= chunks.len(),
        forall|k1: int, k2: int|
            0 <= k1 < k2 < chunks.len() && k1 < cur ==> labels_disjoint(
                acts,
                #[trigger] chunks[k1],
                #[trigger] chunks[k2],
            ),
    ensures
        forall|k1: int, k2: int|
            0 <= k1 < k2 < chunks.len() ==> labels_disjoint(
                acts,
                #[trigger] chunks[k1],
                #[trigger] chunks[k2],
            ),
{
}

/// Group the action stream into function-like chunks: split on bare
/// terminators, then repeatedly merge a chunk with the furthest later chunk
/// whose label set meets its own. The result partitions the stream, and
/// the chunks' label sets are pairwise disjoint.
pub fn chunk_actions(acts: &Vec<(u32, Action)>) -> (r: Vec<(usize, usize)>)
    ensures
        is_partition(acts@, r@),
        boundaries_at_terminators(acts@, r@),
        forall|k1: int, k2: int|
            0 <= k1 < k2 < r@.len() ==> labels_disjoint(acts@, #[trigger] r@[k1], #[trigger] r@[k2]),
{
    let mut chunks = initial_split(acts);
    let mut cur: usize = 0;
    while chunks.len() - cur > 1
        invariant
            is_partition(acts@, chunks@),
            boundaries_at_terminators(acts@, chunks@),
            cur <= chunks@.len(),
            forall|k1: int, k2: int|
                0 <= k1 < k2 < chunks@.len() && k1 < cur ==> labels_disjoint(
                    acts@,
                    #[trigger] chunks@[k1],
                    #[trigger] chunks@[k2],
                ),
        decreases chunks@.len() - cur,
    {
        match find_meet(acts, &chunks, cur) {
            Some(found) => {
                let merged = build_merged(&chunks, cur, found);
                proof {
                    lemma_merge_keeps(acts@, chunks@, merged@, cur as int, found as int);
                }
                chunks = merged;
            },
            None => {
                cur = cur + 1;
            },
        }
    }
    proof {
        lemma_chunks_done(acts@, chunks@, cur as int);
    }
    chunks
}

/// Merging a contiguous run of chunks keeps the partition shape and keeps
/// every chunk before the merge point disjoint from everything after it.
#[verifier::rlimit(100)]
proof fn lemma_merge_keeps(
    acts: Seq<(u32, Action)>,
    old_c: Seq<(usize, usize)>,
    new_c: Seq<(usize, usize)>,
    cur: int,
    found: int,
)
    requires
        is_partition(acts, old_c),
        0 <= cur < found < old_c.len(),
        new_c.len() == old_c.len() - (found - cur),
        forall|q: int| 0 <= q < cur ==> #[trigger] new_c[q] == old_c[q],
        new_c[cur] == (old_c[cur].0, old_c[found].1),
        forall|q: int| cur < q < new_c.len() ==> #[trigger] new_c[q] == old_c[q + found - cur],
        forall|k1: int, k2: int|
            0 <= k1 < k2 < old_c.len() && k1 < cur ==> labels_disjoint(
                acts,
                #[trigger] old_c[k1],
                #[trigger] old_c[k2],
            ),
    ensures
        is_partition(acts, new_c),
        boundaries_at_terminators(acts, old_c) ==> boundaries_at_terminators(acts, new_c),
        forall|k1: int, k2: int|
            0 <= k1 < k2 < new_c.len() && k1 < cur ==> labels_disjoint(
                acts,
                #[trigger] new_c[k1],
                #[trigger] new_c[k2],
            ),
{
    assert(acts.len() > 0);
    lemma_partition_ordered(acts, old_c);
    assert forall|k: int| 0 <= k < new_c.len() implies (#[trigger] new_c[k]).0 < new_c[k].1
        <= acts.len() by {
        if k == cur {
            assert(old_c[cur].0 < old_c[cur].1);
            assert(old_c[cur].1 <= old_c[found].0 || cur + 1 == found);
        }
    }
    assert forall|k: int| 0 <= k < new_c.len() - 1 implies (#[trigger] new_c[k]).1 == new_c[k
        + 1].0 by {
        if k == cur {
            assert(new_c[k + 1] == old_c[found + 1]);
        } else if k == cur - 1 {
            assert(new_c[k] == old_c[k]);
        }
    }
    assert(new_c[new_c.len() - 1].1 == acts.len());
    if boundaries_at_terminators(acts, old_c) {
        assert forall|k: int|
            0 <= k < new_c.len() - 1 implies is_terminator(
            acts[(#[trigger] new_c[k]).1 - 1],
        ) by {
            if k < cur {
                assert(new_c[k] == old_c[k]);
            } else if k == cur {
                assert(new_c[k].1 == old_c[found].1);
                assert(found < old_c.len() - 1);
            } else {
                assert(new_c[k] == old_c[k + found - cur]);
            }
        }
    }
    assert forall|k1: int, k2: int|
        0 <= k1 < k2 < new_c.len() && k1 < cur implies labels_disjoint(
        acts,
        #[trigger] new_c[k1],
        #[trigger] new_c[k2],
    ) by {
        if k2 == cur {
            lemma_disjoint_glue(acts, old_c, k1, cur, found);
        } else if k2 > cur {
            assert(new_c[k2] == old_c[k2 + found - cur]);
        }
    }
}

/// In a partition the ranges sit in order.
proof fn lemma_partition_ordered(acts: Seq<(u32, Action)>, c: Seq<(usize, usize)>)
    requires
        is_partition(acts, c),
        acts.len() > 0,
    ensures
        forall|k1: int, k2: int| 0 <= k1 <= k2 < c.len() ==> (#[trigger] c[k1]).0 <= (
        #[trigger] c[k2]).0 && c[k1].1 <= c[k2].1,
{
    assert forall|k1: int, k2: int|
        0 <= k1 <= k2 < c.len() implies (#[trigger] c[k1]).0 <= (#[trigger] c[k2]).0 && c[k1].1
        <= c[k2].1 by {
        lemma_partition_ordered_step(acts, c, k1, k2);
    }
}

proof fn lemma_partition_ordered_step(
    acts: Seq<(u32, Action)>,
    c: Seq<(usize, usize)>,
    k1: int,
    k2: int,
)
    requires
        is_partition(acts, c),
        acts.len() > 0,
        0 <= k1 <= k2 < c.len(),
    ensures
        c[k1].0 <= c[k2].0,
        c[k1].1 <= c[k2].1,
    decreases k2 - k1,
{
    if k1 < k2 {
        lemma_partition_ordered_step(acts, c, k1 + 1, k2);
        assert(c[k1].1 == c[k1 + 1].0);
    }
}

/// A chunk disjoint from every piece of a contiguous run is disjoint from
/// the glued range.
proof fn lemma_disjoint_glue(
    acts: Seq<(u32, Action)>,
    old_c: Seq<(usize, usize)>,
    k1: int,
    cur: int,
    found: int,
)
    requires
        is_partition(acts, old_c),
        acts.len() > 0,
        0 <= k1 < cur < found < old_c.len(),
        forall|k2: int|
            k1 < k2 < old_c.len() ==> labels_disjoint(acts, old_c[k1], #[trigger] old_c[k2]),
    ensures
        labels_disjoint(acts, old_c[k1], (old_c[cur].0, old_c[found].1)),
{
    lemma_partition_ordered(acts, old_c);
    assert forall|x: u32|
        !(labels_of(acts, old_c[k1].0 as int, old_c[k1].1 as int).contains(x) && labels_of(
            acts,
            old_c[cur].0 as int,
            old_c[found].1 as int,
        ).contains(x)) by {
        if labels_of(acts, old_c[cur].0 as int, old_c[found].1 as int).contains(x) {
            let k = choose|k: int|
                old_c[cur].0 <= k < old_c[found].1 && act_has_label(#[trigger] acts[k], x);
            lemma_find_piece(acts, old_c, cur, found, k);
            let p = choose|p: int|
                cur <= p <= found && old_c[p].0 <= k < (#[trigger] old_c[p]).1;
            assert(labels_of(acts, old_c[p].0 as int, old_c[p].1 as int).contains(x));
            assert(labels_disjoint(acts, old_c[k1], old_c[p]));
        }
    }
}

/// Every position inside a glued run lies in one of its pieces.
proof fn lemma_find_piece(
    acts: Seq<(u32, Action)>,
    old_c: Seq<(usize, usize)>,
    cur: int,
    found: int,
    k: int,
)
    requires
        is_partition(acts, old_c),
        acts.len() > 0,
        0 <= cur <= found < old_c.len(),
        old_c[cur].0 <= k < old_c[found].1,
    ensures
        exists|p: int| cur <= p <= found && old_c[p].0 <= k < (#[trigger] old_c[p]).1,
    decreases found - cur,
{
    if k < old_c[cur].1 {
        assert(old_c[cur].0 <= k < old_c[cur].1);
    } else {
        assert(cur < found);
        assert(old_c[cur].1 == old_c[cur + 1].0);
        lemma_find_piece(acts, old_c, cur + 1, found, k);
    }
}

} // verus!
