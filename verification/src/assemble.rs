//! Merges candidate windows into the final clip list: sorted by start, no two
//! clips overlapping or touching, every candidate inside one clip.

use vstd::prelude::*;
use crate::order::{
    insert_by, is_sorted_by, lemma_insert_position, lemma_sort_of_sorted, lemma_sort_same_elements,
    lemma_sort_sorted, sort_by,
};
use crate::units::{clips_view, Clip, ClipView};

verus! {

/// What stands between the labels of merged clips.
pub open spec fn label_separator() -> Seq<char> {
    seq![',', ' ']
}

/// The key by which clips are ordered: their start.
pub open spec fn clip_start() -> spec_fn(ClipView) -> int {
    |c: ClipView| c.start
}

/// `acc` grown to take `c` in: it ends with the later of the two, and its
/// label is followed by that of `c`.
pub open spec fn absorb(acc: ClipView, c: ClipView) -> ClipView {
    ClipView {
        start: acc.start,
        end: if acc.end >= c.end {
            acc.end
        } else {
            c.end
        },
        keyword: acc.keyword + label_separator() + c.keyword,
    }
}

/// The clips of `s`, taken in order, each absorbed by the clip before it
/// where it starts no later than that clip ends.
pub open spec fn fold_merge(s: Seq<ClipView>) -> Seq<ClipView>
    decreases s.len(),
{
    if s.len() == 0 {
        Seq::empty()
    } else {
        let prev = fold_merge(s.drop_last());
        let c = s.last();
        if prev.len() > 0 && c.start <= prev.last().end {
            prev.drop_last().push(absorb(prev.last(), c))
        } else {
            prev.push(c)
        }
    }
}

/// The final clip list for the candidates `s`.
pub open spec fn merge_spec(s: Seq<ClipView>) -> Seq<ClipView> {
    fold_merge(sort_by(s, clip_start()))
}

/// Each clip ends before the next one starts.
pub open spec fn separated(s: Seq<ClipView>) -> bool {
    forall|i: int, j: int|
        0 <= i && i + 1 == j && j < s.len() ==> (#[trigger] s[i]).end < (#[trigger] s[j]).start
}

/// The time `t` lies within one of the clips of `s`.
pub open spec fn covered(s: Seq<ClipView>, t: int) -> bool {
    exists|i: int| 0 <= i < s.len() && (#[trigger] s[i]).start <= t <= s[i].end
}

/// The time range of `c` lies within that of `outer`.
pub open spec fn within(c: ClipView, outer: ClipView) -> bool {
    outer.start <= c.start && c.end <= outer.end
}

/// The time range of `c` lies within that of a clip of `s`.
pub open spec fn enclosed(s: Seq<ClipView>, c: ClipView) -> bool {
    exists|j: int| 0 <= j < s.len() && within(c, #[trigger] s[j])
}

/// A prefix of a sorted sequence is sorted.
proof fn lemma_sorted_prefix(s: Seq<ClipView>)
    requires
        is_sorted_by(s, clip_start()),
        s.len() > 0,
    ensures
        is_sorted_by(s.drop_last(), clip_start()),
        s.len() > 1 ==> s.drop_last().last().start <= s.last().start,
{
    let init = s.drop_last();
    assert forall|i: int, j: int| 0 <= i <= j < init.len() implies clip_start()(#[trigger] init[i])
        <= clip_start()(#[trigger] init[j]) by {
        assert(init[i] == s[i] && init[j] == s[j]);
    }
    if s.len() > 1 {
        assert(init.last() == s[s.len() - 2]);
        assert(clip_start()(s[s.len() - 2]) <= clip_start()(s[s.len() - 1]));
    }
}

/// Folding candidates that are sorted by start gives clips that are sorted
/// by start and apart from each other.
proof fn lemma_fold_shape(s: Seq<ClipView>)
    requires
        is_sorted_by(s, clip_start()),
    ensures
        fold_merge(s).len() <= s.len(),
        s.len() > 0 ==> fold_merge(s).len() > 0 && fold_merge(s).last().start <= s.last().start,
        is_sorted_by(fold_merge(s), clip_start()),
        separated(fold_merge(s)),
    decreases s.len(),
{
    if s.len() > 0 {
        let init = s.drop_last();
        let c = s.last();
        lemma_sorted_prefix(s);
        lemma_fold_shape(init);
        let prev = fold_merge(init);
        let out = fold_merge(s);
        assert forall|j: int| 0 <= j < prev.len() implies (#[trigger] prev[j]).start <= c.start by {
            assert(clip_start()(prev[j]) <= clip_start()(prev[prev.len() - 1]));
        }
        if prev.len() > 0 && c.start <= prev.last().end {
            assert forall|i: int, j: int| 0 <= i <= j < out.len() implies clip_start()(#[trigger] out[i])
                <= clip_start()(#[trigger] out[j]) by {
                assert(clip_start()(prev[i]) <= clip_start()(prev[j]));
            }
            assert forall|i: int, j: int| 0 <= i && i + 1 == j && j < out.len() implies (
            #[trigger] out[i]).end < (#[trigger] out[j]).start by {
                assert(prev[i].end < prev[j].start);
            }
        } else {
            let m = prev.len() as int;
            assert forall|i: int, j: int| 0 <= i <= j < out.len() implies clip_start()(#[trigger] out[i])
                <= clip_start()(#[trigger] out[j]) by {
                if j < m {
                    assert(clip_start()(prev[i]) <= clip_start()(prev[j]));
                } else if i < m {
                    assert(prev[i].start <= c.start);
                }
            }
            assert forall|i: int, j: int| 0 <= i && i + 1 == j && j < out.len() implies (
            #[trigger] out[i]).end < (#[trigger] out[j]).start by {
                if j < m {
                    assert(prev[i].end < prev[j].start);
                }
            }
        }
    }
}

/// Folding candidates that are sorted by start keeps the times they cover.
proof fn lemma_fold_cover(s: Seq<ClipView>, t: int)
    requires
        is_sorted_by(s, clip_start()),
    ensures
        covered(s, t) <==> covered(fold_merge(s), t),
    decreases s.len(),
{
    if s.len() > 0 {
        let init = s.drop_last();
        let c = s.last();
        lemma_sorted_prefix(s);
        lemma_fold_shape(init);
        lemma_fold_cover(init, t);
        let prev = fold_merge(init);
        let out = fold_merge(s);
        let m = out.len() - 1;
        let absorbed = prev.len() > 0 && c.start <= prev.last().end;
        if covered(s, t) {
            let i = choose|i: int| 0 <= i < s.len() && (#[trigger] s[i]).start <= t <= s[i].end;
            if i < init.len() {
                assert(init[i] == s[i]);
                assert(covered(init, t));
                let j = choose|j: int| 0 <= j < prev.len() && (#[trigger] prev[j]).start <= t <= prev[j].end;
                assert(out[j].start <= t <= out[j].end);
            } else {
                assert(out[m].start <= t <= out[m].end);
            }
        }
        if covered(out, t) {
            let j = choose|j: int| 0 <= j < out.len() && (#[trigger] out[j]).start <= t <= out[j].end;
            if j < m || (absorbed && t <= prev.last().end) {
                assert(prev[j].start <= t <= prev[j].end);
                assert(covered(prev, t));
                let i = choose|i: int| 0 <= i < init.len() && (#[trigger] init[i]).start <= t <= init[i].end;
                assert(s[i] == init[i]);
            } else {
                assert(s[s.len() - 1].start <= t <= s[s.len() - 1].end);
            }
        }
    }
}

/// Folding candidates that are sorted by start leaves each of them within
/// one of the clips.
proof fn lemma_fold_encloses(s: Seq<ClipView>, i: int)
    requires
        is_sorted_by(s, clip_start()),
        0 <= i < s.len(),
    ensures
        enclosed(fold_merge(s), s[i]),
    decreases s.len(),
{
    let init = s.drop_last();
    let c = s.last();
    lemma_sorted_prefix(s);
    lemma_fold_shape(init);
    let prev = fold_merge(init);
    let out = fold_merge(s);
    let m = out.len() - 1;
    if i < init.len() {
        assert(init[i] == s[i]);
        lemma_fold_encloses(init, i);
        let j = choose|j: int| 0 <= j < prev.len() && within(init[i], #[trigger] prev[j]);
        assert(within(s[i], out[j]));
    } else {
        assert(within(s[i], out[m]));
    }
}

/// Folding leaves clips alone that are already apart from each other.
proof fn lemma_fold_of_separated(s: Seq<ClipView>)
    requires
        separated(s),
    ensures
        fold_merge(s) == s,
    decreases s.len(),
{
    if s.len() > 0 {
        let init = s.drop_last();
        assert forall|i: int, j: int| 0 <= i && i + 1 == j && j < init.len() implies (
        #[trigger] init[i]).end < (#[trigger] init[j]).start by {
            assert(init[i] == s[i] && init[j] == s[j]);
        }
        lemma_fold_of_separated(init);
        if init.len() > 0 {
            assert(init.last() == s[s.len() - 2]);
            assert(s[s.len() - 2].end < s[s.len() - 1].start);
        }
        assert(init.push(s.last()) == s);
    }
}

/// The merged list is sorted by start, and each of its clips ends before the
/// next one starts.
pub proof fn lemma_merge_disjoint(clips: Seq<ClipView>)
    ensures
        is_sorted_by(merge_spec(clips), clip_start()),
        separated(merge_spec(clips)),
        merge_spec(clips).len() <= clips.len(),
{
    lemma_sort_sorted(clips, clip_start());
    lemma_fold_shape(sort_by(clips, clip_start()));
}

/// The merged clips cover the same times as the candidates: a time lies in a
/// candidate exactly when it lies in a merged clip.
pub proof fn lemma_merge_same_cover(clips: Seq<ClipView>, t: int)
    ensures
        covered(clips, t) <==> covered(merge_spec(clips), t),
{
    let sorted = sort_by(clips, clip_start());
    lemma_sort_sorted(clips, clip_start());
    lemma_sort_same_elements(clips, clip_start());
    lemma_fold_cover(sorted, t);
    if covered(clips, t) {
        let i = choose|i: int| 0 <= i < clips.len() && (#[trigger] clips[i]).start <= t <= clips[i].end;
        assert(sorted.contains(clips[i]));
        let j = choose|j: int| 0 <= j < sorted.len() && sorted[j] == clips[i];
        assert(sorted[j].start <= t <= sorted[j].end);
        assert(covered(sorted, t));
    }
    if covered(sorted, t) {
        let j = choose|j: int| 0 <= j < sorted.len() && (#[trigger] sorted[j]).start <= t <= sorted[j].end;
        assert(clips.contains(sorted[j]));
        let i = choose|i: int| 0 <= i < clips.len() && clips[i] == sorted[j];
        assert(clips[i].start <= t <= clips[i].end);
    }
}

/// Every candidate that ends no earlier than it starts lies within exactly
/// one merged clip.
pub proof fn lemma_merge_encloses(clips: Seq<ClipView>, i: int)
    requires
        0 <= i < clips.len(),
    ensures
        enclosed(merge_spec(clips), clips[i]),
        clips[i].start <= clips[i].end ==> forall|j: int, k: int|
            0 <= j < merge_spec(clips).len() && 0 <= k < merge_spec(clips).len() && within(
                clips[i],
                #[trigger] merge_spec(clips)[j],
            ) && within(clips[i], #[trigger] merge_spec(clips)[k]) ==> j == k,
{
    let sorted = sort_by(clips, clip_start());
    let out = merge_spec(clips);
    let c = clips[i];
    lemma_sort_sorted(clips, clip_start());
    lemma_sort_same_elements(clips, clip_start());
    lemma_fold_shape(sorted);
    assert(sorted.contains(clips[i]));
    let p = choose|p: int| 0 <= p < sorted.len() && sorted[p] == clips[i];
    lemma_fold_encloses(sorted, p);
    if c.start <= c.end {
        assert forall|j: int, k: int|
            0 <= j < out.len() && 0 <= k < out.len() && within(c, #[trigger] out[j]) && within(
                c,
                #[trigger] out[k],
            ) implies j == k by {
            if j < k {
                assert(out[j].end < out[j + 1].start);
                assert(clip_start()(out[j + 1]) <= clip_start()(out[k]));
            } else if k < j {
                assert(out[k].end < out[k + 1].start);
                assert(clip_start()(out[k + 1]) <= clip_start()(out[j]));
            }
        }
    }
}

/// Merging a merged list gives the same list.
pub proof fn lemma_merge_idempotent(clips: Seq<ClipView>)
    ensures
        merge_spec(merge_spec(clips)) == merge_spec(clips),
{
    let out = merge_spec(clips);
    lemma_merge_disjoint(clips);
    lemma_sort_of_sorted(out, clip_start());
    lemma_fold_of_separated(out);
}

/// Merges candidate windows.
pub struct ClipAssembler {}

impl ClipAssembler {
    /// The candidates in the order of their start; candidates with the same
    /// start stay in the order in which they came.
    pub fn sort(clips: Vec<Clip>) -> (sorted: Vec<Clip>)
        ensures
            clips_view(sorted@) == sort_by(clips_view(clips@), clip_start()),
    {
        let ghost all = clips_view(clips@);
        let mut sorted: Vec<Clip> = Vec::new();
        assert(clips_view(sorted@) == Seq::<ClipView>::empty());
        for c in it: clips
            invariant
                clips_view(it.seq()) == all,
                clips_view(sorted@) == sort_by(all.take(it.index() as int), clip_start()),
        {
            let ghost done = clips_view(sorted@);
            let mut p: usize = sorted.len();
            while p > 0 && sorted[p - 1].start > c.start
                invariant
                    p <= sorted.len(),
                    done == clips_view(sorted@),
                    forall|i: int| p <= i < done.len() ==> clip_start()(#[trigger] done[i]) > c.start,
                decreases p,
            {
                p -= 1;
            }
            proof {
                lemma_insert_position(done, clip_start(), c.start as int, p as int);
                let next = all.take(it.index() + 1);
                assert(next.drop_last() == all.take(it.index() as int));
                assert(next.last() == c@);
            }
            sorted.insert(p, c);
            assert(clips_view(sorted@) == insert_by(done, clip_start(), c@));
        }
        assert(all.take(all.len() as int) == all);
        sorted
    }

    /// Merges the candidates into the final clip list: sorted by start, each
    /// clip ending before the next one starts, and covering the same times
    /// as the candidates. Where a candidate starts no later than the clip
    /// before it ends, that clip is extended and takes the candidate's
    /// label behind its own, after a comma and a space.
    pub fn merge(clips: Vec<Clip>) -> (merged: Vec<Clip>)
        ensures
            clips_view(merged@) == merge_spec(clips_view(clips@)),
            is_sorted_by(clips_view(merged@), clip_start()),
            separated(clips_view(merged@)),
            forall|t: int| covered(clips_view(clips@), t) <==> covered(clips_view(merged@), t),
            forall|i: int|
                0 <= i < clips.len() ==> enclosed(clips_view(merged@), #[trigger] clips_view(clips@)[i]),
    {
        let ghost input = clips_view(clips@);
        let sorted = ClipAssembler::sort(clips);
        let ghost all = clips_view(sorted@);
        let mut merged: Vec<Clip> = Vec::new();
        assert(clips_view(merged@) == Seq::<ClipView>::empty());
        for c in it: sorted
            invariant
                clips_view(it.seq()) == all,
                clips_view(merged@) == fold_merge(all.take(it.index() as int)),
        {
            proof {
                let next = all.take(it.index() + 1);
                assert(next.drop_last() == all.take(it.index() as int));
                assert(next.last() == c@);
            }
            let ghost prev = clips_view(merged@);
            let n = merged.len();
            if n > 0 && c.start <= merged[n - 1].end {
                let mut last = merged.pop().unwrap();
                assert(last@ == prev.last());
                assert(clips_view(merged@) == prev.drop_last());
                if c.end > last.end {
                    last.end = c.end;
                }
                proof {
                    reveal_strlit(", ");
                    assert(", "@ == label_separator());
                }
                last.keyword.append(", ");
                last.keyword.append(c.keyword.as_str());
                assert(last@ == absorb(prev.last(), c@));
                merged.push(last);
                assert(clips_view(merged@) == prev.drop_last().push(absorb(prev.last(), c@)));
            } else {
                merged.push(c);
                assert(clips_view(merged@) == prev.push(c@));
            }
        }
        proof {
            assert(all.take(all.len() as int) == all);
            lemma_merge_disjoint(input);
            assert forall|t: int| covered(input, t) <==> covered(clips_view(merged@), t) by {
                lemma_merge_same_cover(input, t);
            }
            assert forall|i: int| 0 <= i < input.len() implies enclosed(
                clips_view(merged@),
                #[trigger] input[i],
            ) by {
                lemma_merge_encloses(input, i);
            }
        }
        merged
    }
}

} // verus!
