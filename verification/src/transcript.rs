//! Rebuilds timestamped words from the segments and tokens that a speech
//! recogniser reports.
//!
//! A segment without tokens becomes one unit, unless it repeats the text of
//! the unit before it. A segment with tokens is cut into words: token texts
//! are gathered until a token ends in a space or a newline, or is the last of
//! its segment.

use vstd::prelude::*;
use crate::order::{
    insert_by, is_sorted_by, lemma_insert_position, lemma_sort_same_elements, lemma_sort_sorted,
    sort_by,
};
use crate::text::{chars_of, is_blank, is_blank_chars, trim, trimmed};
use crate::units::{units_view, Timestamp, TimestampView};

verus! {

/// Vocabulary ids at or above this value are control tokens of the recogniser.
pub const SPECIAL_TOKEN_THRESHOLD: i32 = 50258;

/// One token of a segment, as the recogniser reports it.
#[derive(Debug, Clone)]
pub struct Token {
    /// The text of the token, with the whitespace that the recogniser attached.
    pub text: String,
    /// Vocabulary id.
    pub id: i32,
    /// Approximate time of the token, in ticks.
    pub time: i64,
}

/// Mathematical model of a [`Token`].
pub struct TokenView {
    pub text: Seq<char>,
    pub id: int,
    pub time: int,
}

impl View for Token {
    type V = TokenView;

    open spec fn view(&self) -> TokenView {
        TokenView { text: self.text@, id: self.id as int, time: self.time as int }
    }
}

/// One segment of recognised speech. A token that could not be read is `None`:
/// it is passed over, but still counts as a position of the segment.
#[derive(Debug, Clone)]
pub struct Segment {
    /// The text of the whole segment.
    pub text: String,
    /// Start time in ticks.
    pub start: i64,
    /// End time in ticks.
    pub end: i64,
    /// The tokens of the segment, in order.
    pub tokens: Vec<Option<Token>>,
}

/// Mathematical model of a [`Segment`].
pub struct SegmentView {
    pub text: Seq<char>,
    pub start: int,
    pub end: int,
    pub tokens: Seq<Option<TokenView>>,
}

/// The model of a token position.
pub open spec fn token_view(t: Option<Token>) -> Option<TokenView> {
    match t {
        Some(t) => Some(t@),
        None => None,
    }
}

impl View for Segment {
    type V = SegmentView;

    open spec fn view(&self) -> SegmentView {
        SegmentView {
            text: self.text@,
            start: self.start as int,
            end: self.end as int,
            tokens: self.tokens@.map_values(|t: Option<Token>| token_view(t)),
        }
    }
}

/// The models of a vector of segments, element by element.
pub open spec fn segments_view(v: Seq<Segment>) -> Seq<SegmentView> {
    v.map_values(|s: Segment| s@)
}

/// What the word scan carries from token to token: the units emitted so far,
/// the text gathered for the current word, and the time at which that word began.
pub struct WordState {
    pub units: Seq<TimestampView>,
    pub text: Seq<char>,
    pub word_start: Option<int>,
}

/// A token carries text when it is no control token and is not blank.
pub open spec fn is_text_token(tok: TokenView, threshold: int) -> bool {
    tok.id < threshold && !is_blank(tok.text)
}

/// A token closes the current word when its text ends in a space or a newline.
pub open spec fn ends_word(text: Seq<char>) -> bool {
    text.len() > 0 && (text.last() == ' ' || text.last() == '\n')
}

/// `units` followed by the trimmed `text` as one unit, if anything is left of
/// it after trimming.
pub open spec fn emit_word(units: Seq<TimestampView>, text: Seq<char>, start: int, end: int) -> Seq<
    TimestampView,
> {
    if trim(text).len() > 0 {
        units.push(TimestampView { start, end, text: trim(text) })
    } else {
        units
    }
}

/// The effect of one token position on the word scan. `last` tells whether
/// the position is the last of its segment.
pub open spec fn token_step(st: WordState, tok: Option<TokenView>, last: bool, threshold: int) -> WordState {
    if tok is Some && is_text_token(tok->0, threshold) {
        let t = tok->0;
        let start = match st.word_start {
            Some(w) => w,
            None => t.time,
        };
        let text = st.text + t.text;
        if last || ends_word(t.text) {
            WordState {
                units: emit_word(st.units, text, start, t.time),
                text: Seq::empty(),
                word_start: None,
            }
        } else {
            WordState { units: st.units, text, word_start: Some(start) }
        }
    } else {
        st
    }
}

/// The word scan after the first `n` token positions of `tokens`.
pub open spec fn tokens_fold(st: WordState, tokens: Seq<Option<TokenView>>, n: nat, threshold: int) -> WordState
    decreases n,
{
    if n == 0 {
        st
    } else {
        token_step(
            tokens_fold(st, tokens, (n - 1) as nat, threshold),
            tokens[n - 1],
            n == tokens.len(),
            threshold,
        )
    }
}

/// The units after one more segment.
pub open spec fn segment_step(units: Seq<TimestampView>, seg: SegmentView, threshold: int) -> Seq<
    TimestampView,
> {
    if seg.tokens.len() == 0 {
        if seg.text.len() == 0 || (units.len() > 0 && units.last().text == seg.text) {
            units
        } else {
            units.push(TimestampView { start: seg.start, end: seg.end, text: seg.text })
        }
    } else {
        let st = tokens_fold(
            WordState { units, text: Seq::empty(), word_start: None },
            seg.tokens,
            seg.tokens.len(),
            threshold,
        );
        let start = match st.word_start {
            Some(w) => w,
            None => seg.start,
        };
        emit_word(st.units, st.text, start, seg.end)
    }
}

/// The units that `segs` give when appended, segment by segment, to `units`.
pub open spec fn extend_spec(units: Seq<TimestampView>, segs: Seq<SegmentView>, threshold: int) -> Seq<
    TimestampView,
>
    decreases segs.len(),
{
    if segs.len() == 0 {
        units
    } else {
        segment_step(extend_spec(units, segs.drop_last(), threshold), segs.last(), threshold)
    }
}

/// The transcript of one source.
pub open spec fn reconstruct_spec(segs: Seq<SegmentView>, threshold: int) -> Seq<TimestampView> {
    extend_spec(Seq::empty(), segs, threshold)
}

/// Every unit ends no earlier than it starts.
pub open spec fn each_valid(units: Seq<TimestampView>) -> bool {
    forall|i: int| 0 <= i < units.len() ==> (#[trigger] units[i]).start <= units[i].end
}

/// No unit starts before one that precedes it.
pub open spec fn ordered_by_start(units: Seq<TimestampView>) -> bool {
    forall|i: int, j: int|
        0 <= i <= j < units.len() ==> (#[trigger] units[i]).start <= (#[trigger] units[j]).start
}

/// Every unit ends no earlier than it starts, and no unit starts before one
/// that precedes it.
pub open spec fn chronological(units: Seq<TimestampView>) -> bool {
    each_valid(units) && ordered_by_start(units)
}

/// Position `i` of `seg` holds a token that carries text.
pub open spec fn counts(seg: SegmentView, i: int, threshold: int) -> bool {
    0 <= i < seg.tokens.len() && seg.tokens[i] is Some && is_text_token(seg.tokens[i]->0, threshold)
}

/// The tokens of a segment that carry text lie within the segment, in time
/// order.
pub open spec fn tokens_timed(seg: SegmentView, threshold: int) -> bool {
    &&& forall|i: int| #[trigger]
        counts(seg, i, threshold) ==> seg.start <= (seg.tokens[i]->0).time <= seg.end
    &&& forall|i: int, j: int|
        #![trigger counts(seg, i, threshold), counts(seg, j, threshold)]
        counts(seg, i, threshold) && counts(seg, j, threshold) && i <= j ==> (seg.tokens[i]->0).time <= (
        seg.tokens[j]->0).time
}

/// Every segment ends no earlier than it starts, and its tokens that carry
/// text lie within it, in time order. The segments may come in any order.
pub open spec fn well_timed(segs: Seq<SegmentView>, threshold: int) -> bool {
    forall|i: int|
        0 <= i < segs.len() ==> (#[trigger] segs[i]).start <= segs[i].end && tokens_timed(
            segs[i],
            threshold,
        )
}

/// The segments come in the order of their starts, none starts before the
/// one before it has ended, and the tokens that carry text lie within their
/// segment, in time order.
pub open spec fn in_order(segs: Seq<SegmentView>, threshold: int) -> bool {
    &&& forall|i: int| 0 <= i < segs.len() ==> tokens_timed(#[trigger] segs[i], threshold)
    &&& forall|i: int, j: int|
        0 <= i && i + 1 == j && j < segs.len() ==> (#[trigger] segs[i]).start <= (#[trigger] segs[j]).start
            && segs[i].end <= segs[j].start
}

/// The later of the start and the end of a segment: no unit of the segment
/// starts after it.
pub open spec fn cap(seg: SegmentView) -> int {
    if seg.start <= seg.end {
        seg.end
    } else {
        seg.start
    }
}

/// None of `units` starts after `bound`.
pub open spec fn starts_by(units: Seq<TimestampView>, bound: int) -> bool {
    forall|i: int| 0 <= i < units.len() ==> (#[trigger] units[i]).start <= bound
}

/// What holds of the word scan after `n` positions of a segment whose
/// tokens are timed, as far as the ends of the units go.
spec fn valid_inv(st: WordState, seg: SegmentView, n: int, threshold: int) -> bool {
    &&& each_valid(st.units)
    &&& match st.word_start {
        Some(w) => {
            &&& w <= seg.end
            &&& forall|k: int| n <= k && #[trigger] counts(seg, k, threshold) ==> w <= (seg.tokens[k]->0).time
        },
        None => st.text.len() == 0,
    }
}

/// What holds of the word scan after `n` positions of a segment whose
/// tokens are timed, as far as the order of the units goes.
spec fn order_inv(st: WordState, seg: SegmentView, n: int, threshold: int) -> bool {
    &&& ordered_by_start(st.units)
    &&& starts_by(st.units, cap(seg))
    &&& forall|i: int, k: int|
        0 <= i < st.units.len() && n <= k && #[trigger] counts(seg, k, threshold) ==> (
        #[trigger] st.units[i]).start <= (seg.tokens[k]->0).time
    &&& match st.word_start {
        Some(w) => {
            &&& w <= seg.end
            &&& starts_by(st.units, w)
            &&& forall|k: int| n <= k && #[trigger] counts(seg, k, threshold) ==> w <= (seg.tokens[k]->0).time
        },
        None => st.text.len() == 0,
    }
}

proof fn lemma_push_valid(units: Seq<TimestampView>, u: TimestampView)
    requires
        each_valid(units),
        u.start <= u.end,
    ensures
        each_valid(units.push(u)),
{
    let r = units.push(u);
    assert forall|i: int| 0 <= i < r.len() implies (#[trigger] r[i]).start <= r[i].end by {
        if i < units.len() {
            assert(r[i] == units[i]);
        }
    }
}

proof fn lemma_push_ordered(units: Seq<TimestampView>, u: TimestampView, bound: int)
    requires
        ordered_by_start(units),
        starts_by(units, u.start),
        u.start <= bound,
    ensures
        ordered_by_start(units.push(u)),
        starts_by(units.push(u), bound),
{
    let r = units.push(u);
    assert forall|i: int, j: int| 0 <= i <= j < r.len() implies (#[trigger] r[i]).start <= (
    #[trigger] r[j]).start by {
        if j < units.len() {
            assert(r[i] == units[i] && r[j] == units[j]);
        } else if i < units.len() {
            assert(r[i] == units[i]);
        }
    }
    assert forall|i: int| 0 <= i < r.len() implies (#[trigger] r[i]).start <= bound by {
        if i < units.len() {
            assert(r[i] == units[i]);
        }
    }
}

proof fn lemma_scan_valid(st0: WordState, seg: SegmentView, n: nat, threshold: int)
    requires
        tokens_timed(seg, threshold),
        each_valid(st0.units),
        st0.text.len() == 0,
        st0.word_start is None,
        n <= seg.tokens.len(),
    ensures
        valid_inv(tokens_fold(st0, seg.tokens, n, threshold), seg, n as int, threshold),
    decreases n,
{
    if n > 0 {
        let m = (n - 1) as nat;
        lemma_scan_valid(st0, seg, m, threshold);
        let st = tokens_fold(st0, seg.tokens, m, threshold);
        let tok = seg.tokens[m as int];
        let next = token_step(st, tok, n == seg.tokens.len(), threshold);
        if tok is Some && is_text_token(tok->0, threshold) {
            let t = tok->0;
            assert(counts(seg, m as int, threshold));
            let start = match st.word_start {
                Some(w) => w,
                None => t.time,
            };
            assert(start <= t.time);
            assert forall|k: int| n <= k && #[trigger] counts(seg, k, threshold) implies t.time <= (
            seg.tokens[k]->0).time by {}
            if n == seg.tokens.len() || ends_word(t.text) {
                if trim(st.text + t.text).len() > 0 {
                    let u = TimestampView { start, end: t.time, text: trim(st.text + t.text) };
                    lemma_push_valid(st.units, u);
                    assert(next.units == st.units.push(u));
                }
            }
        }
    }
}

proof fn lemma_scan_ordered(st0: WordState, seg: SegmentView, n: nat, threshold: int)
    requires
        tokens_timed(seg, threshold),
        ordered_by_start(st0.units),
        starts_by(st0.units, seg.start),
        st0.text.len() == 0,
        st0.word_start is None,
        n <= seg.tokens.len(),
    ensures
        order_inv(tokens_fold(st0, seg.tokens, n, threshold), seg, n as int, threshold),
    decreases n,
{
    if n == 0 {
        assert forall|i: int, k: int|
            0 <= i < st0.units.len() && 0 <= k && #[trigger] counts(seg, k, threshold) implies (
        #[trigger] st0.units[i]).start <= (seg.tokens[k]->0).time by {}
        assert forall|i: int| 0 <= i < st0.units.len() implies (#[trigger] st0.units[i]).start <= cap(
            seg,
        ) by {}
    } else {
        let m = (n - 1) as nat;
        lemma_scan_ordered(st0, seg, m, threshold);
        let st = tokens_fold(st0, seg.tokens, m, threshold);
        let tok = seg.tokens[m as int];
        let next = token_step(st, tok, n == seg.tokens.len(), threshold);
        if tok is Some && is_text_token(tok->0, threshold) {
            let t = tok->0;
            assert(counts(seg, m as int, threshold));
            let start = match st.word_start {
                Some(w) => w,
                None => t.time,
            };
            assert(start <= t.time);
            assert forall|i: int| 0 <= i < st.units.len() implies (#[trigger] st.units[i]).start
                <= start by {}
            assert forall|k: int| n <= k && #[trigger] counts(seg, k, threshold) implies t.time <= (
            seg.tokens[k]->0).time by {}
            if n == seg.tokens.len() || ends_word(t.text) {
                if trim(st.text + t.text).len() > 0 {
                    let u = TimestampView { start, end: t.time, text: trim(st.text + t.text) };
                    lemma_push_ordered(st.units, u, cap(seg));
                    assert(next.units == st.units.push(u));
                }
            }
        }
    }
}

/// Appending segments that are well timed, in whatever order they come,
/// leaves every unit ending no earlier than it starts.
pub proof fn lemma_extend_valid(units: Seq<TimestampView>, segs: Seq<SegmentView>, threshold: int)
    requires
        each_valid(units),
        well_timed(segs, threshold),
    ensures
        each_valid(extend_spec(units, segs, threshold)),
    decreases segs.len(),
{
    if segs.len() > 0 {
        let init = segs.drop_last();
        let seg = segs.last();
        assert forall|i: int| 0 <= i < init.len() implies (#[trigger] init[i]).start <= init[i].end
            && tokens_timed(init[i], threshold) by {
            assert(init[i] == segs[i]);
        }
        lemma_extend_valid(units, init, threshold);
        let before = extend_spec(units, init, threshold);
        assert(seg == segs[segs.len() - 1]);
        if seg.tokens.len() == 0 {
            if !(seg.text.len() == 0 || (before.len() > 0 && before.last().text == seg.text)) {
                lemma_push_valid(
                    before,
                    TimestampView { start: seg.start, end: seg.end, text: seg.text },
                );
            }
        } else {
            let st0 = WordState { units: before, text: Seq::empty(), word_start: None };
            lemma_scan_valid(st0, seg, seg.tokens.len(), threshold);
            let st = tokens_fold(st0, seg.tokens, seg.tokens.len(), threshold);
            match st.word_start {
                Some(w) => {
                    if trim(st.text).len() > 0 {
                        lemma_push_valid(
                            st.units,
                            TimestampView { start: w, end: seg.end, text: trim(st.text) },
                        );
                    }
                },
                None => {
                    assert(trim(st.text).len() == 0);
                },
            }
        }
    }
}

/// Appending segments that come in order, the first of them starting no
/// earlier than any unit that is there, leaves the units in the order of
/// their starts.
pub proof fn lemma_extend_ordered(
    units: Seq<TimestampView>,
    segs: Seq<SegmentView>,
    threshold: int,
    bound: int,
)
    requires
        ordered_by_start(units),
        starts_by(units, bound),
        in_order(segs, threshold),
        segs.len() > 0 ==> bound <= segs[0].start,
    ensures
        ordered_by_start(extend_spec(units, segs, threshold)),
        starts_by(
            extend_spec(units, segs, threshold),
            if segs.len() == 0 {
                bound
            } else {
                cap(segs.last())
            },
        ),
    decreases segs.len(),
{
    if segs.len() > 0 {
        let init = segs.drop_last();
        let seg = segs.last();
        assert forall|i: int| 0 <= i < init.len() implies tokens_timed(#[trigger] init[i], threshold) by {
            assert(init[i] == segs[i]);
        }
        assert forall|i: int, j: int| 0 <= i && i + 1 == j && j < init.len() implies (
        #[trigger] init[i]).start <= (#[trigger] init[j]).start && init[i].end <= init[j].start by {
            assert(init[i] == segs[i] && init[j] == segs[j]);
        }
        if init.len() > 0 {
            assert(init[0] == segs[0]);
        }
        lemma_extend_ordered(units, init, threshold, bound);
        let before = extend_spec(units, init, threshold);
        assert(seg == segs[segs.len() - 1]);
        assert(tokens_timed(seg, threshold));
        assert(starts_by(before, seg.start)) by {
            if init.len() > 0 {
                let last = segs[segs.len() - 2];
                assert(init.last() == last);
                assert(last.start <= seg.start && last.end <= seg.start);
                assert forall|i: int| 0 <= i < before.len() implies (#[trigger] before[i]).start
                    <= seg.start by {}
            } else {
                assert forall|i: int| 0 <= i < before.len() implies (#[trigger] before[i]).start
                    <= seg.start by {}
            }
        }
        if seg.tokens.len() == 0 {
            if !(seg.text.len() == 0 || (before.len() > 0 && before.last().text == seg.text)) {
                lemma_push_ordered(
                    before,
                    TimestampView { start: seg.start, end: seg.end, text: seg.text },
                    cap(seg),
                );
            } else {
                assert forall|i: int| 0 <= i < before.len() implies (#[trigger] before[i]).start <= cap(
                    seg,
                ) by {}
            }
        } else {
            let st0 = WordState { units: before, text: Seq::empty(), word_start: None };
            lemma_scan_ordered(st0, seg, seg.tokens.len(), threshold);
            let st = tokens_fold(st0, seg.tokens, seg.tokens.len(), threshold);
            match st.word_start {
                Some(w) => {
                    if trim(st.text).len() > 0 {
                        lemma_push_ordered(
                            st.units,
                            TimestampView { start: w, end: seg.end, text: trim(st.text) },
                            cap(seg),
                        );
                    }
                },
                None => {
                    assert(trim(st.text).len() == 0);
                },
            }
        }
    }
}

/// In the transcript of well-timed segments, in whatever order they come,
/// every unit ends no earlier than it starts.
pub proof fn lemma_reconstruct_valid(segs: Seq<SegmentView>, threshold: int)
    requires
        well_timed(segs, threshold),
    ensures
        each_valid(reconstruct_spec(segs, threshold)),
{
    lemma_extend_valid(Seq::empty(), segs, threshold);
}

/// In the transcript of segments that come in order, no unit starts before
/// one that precedes it.
pub proof fn lemma_reconstruct_ordered(segs: Seq<SegmentView>, threshold: int)
    requires
        in_order(segs, threshold),
    ensures
        ordered_by_start(reconstruct_spec(segs, threshold)),
{
    if segs.len() > 0 {
        lemma_extend_ordered(Seq::empty(), segs, threshold, segs[0].start);
    }
}

/// The key by which units are ordered: their start.
pub open spec fn unit_start() -> spec_fn(TimestampView) -> int {
    |u: TimestampView| u.start
}

/// The units of several sources, one source after the other.
pub open spec fn concatenated(sources: Seq<Seq<TimestampView>>) -> Seq<TimestampView>
    decreases sources.len(),
{
    if sources.len() == 0 {
        Seq::empty()
    } else {
        concatenated(sources.drop_last()) + sources.last()
    }
}

/// The units of several sources in the order of their start; units with
/// the same start stay in the order of their sources.
pub open spec fn combine_spec(sources: Seq<Seq<TimestampView>>) -> Seq<TimestampView> {
    sort_by(concatenated(sources), unit_start())
}

/// The models of the transcripts of several sources.
pub open spec fn sources_view(v: Seq<Vec<Timestamp>>) -> Seq<Seq<TimestampView>> {
    v.map_values(|s: Vec<Timestamp>| units_view(s@))
}

/// Units that each end no earlier than they start are chronological once
/// they are combined, whatever their order was.
pub proof fn lemma_combine_chronological(sources: Seq<Seq<TimestampView>>)
    requires
        forall|i: int|
            0 <= i < concatenated(sources).len() ==> (#[trigger] concatenated(sources)[i]).start
                <= concatenated(sources)[i].end,
    ensures
        chronological(combine_spec(sources)),
{
    let all = concatenated(sources);
    let out = combine_spec(sources);
    lemma_sort_sorted(all, unit_start());
    lemma_sort_same_elements(all, unit_start());
    assert forall|i: int| 0 <= i < out.len() implies (#[trigger] out[i]).start <= out[i].end by {
        assert(all.contains(out[i]));
        let j = choose|j: int| 0 <= j < all.len() && all[j] == out[i];
        assert(all[j].start <= all[j].end);
    }
    assert forall|i: int, j: int| 0 <= i <= j < out.len() implies (#[trigger] out[i]).start <= (
    #[trigger] out[j]).start by {
        assert(unit_start()(out[i]) <= unit_start()(out[j]));
    }
}

spec fn start_view(o: Option<i64>) -> Option<int> {
    match o {
        Some(w) => Some(w as int),
        None => None,
    }
}

fn ends_word_chars(chars: &Vec<char>) -> (r: bool)
    ensures
        r == ends_word(chars@),
{
    let n = chars.len();
    n > 0 && (chars[n - 1] == ' ' || chars[n - 1] == '\n')
}

/// Turns the segments of a recogniser into transcript units.
pub struct TranscriptReconstructor {
    threshold: i32,
}

impl TranscriptReconstructor {
    /// The vocabulary id from which on tokens are control tokens.
    pub closed spec fn threshold(&self) -> int {
        self.threshold as int
    }

    /// A reconstructor that passes over the tokens whose vocabulary id is
    /// `threshold` or more.
    pub fn new(threshold: i32) -> (r: TranscriptReconstructor)
        ensures
            r.threshold() == threshold,
    {
        TranscriptReconstructor { threshold }
    }

    /// Appends the units of one segment to `units`.
    pub fn push_segment(&self, units: &mut Vec<Timestamp>, segment: &Segment)
        ensures
            units_view(final(units)@) == segment_step(
                units_view(old(units)@),
                segment@,
                self.threshold(),
            ),
    {
        let n = segment.tokens.len();
        let ghost before = units_view(units@);
        if n == 0 {
            let repeated = units.len() > 0 && units[units.len() - 1].text == segment.text;
            if !segment.text.as_str().is_empty() && !repeated {
                units.push(
                    Timestamp { start: segment.start, end: segment.end, text: segment.text.clone() },
                );
                assert(units_view(units@) == before.push(
                    TimestampView {
                        start: segment.start as int,
                        end: segment.end as int,
                        text: segment.text@,
                    },
                ));
            }
            return ;
        }
        let ghost st0 = WordState { units: before, text: Seq::empty(), word_start: None };
        let mut word_start: Option<i64> = None;
        let mut current_text = String::new();
        let mut t: usize = 0;
        while t < n
            invariant
                n == segment.tokens.len(),
                t <= n,
                (WordState {
                    units: units_view(units@),
                    text: current_text@,
                    word_start: start_view(word_start),
                }) == tokens_fold(st0, segment@.tokens, t as nat, self.threshold()),
            decreases n - t,
        {
            let ghost st = tokens_fold(st0, segment@.tokens, t as nat, self.threshold());
            assert(segment@.tokens[t as int] == token_view(segment.tokens@[t as int]));
            match &segment.tokens[t] {
                Some(token) => {
                    let chars = chars_of(token.text.as_str());
                    if token.id < self.threshold && !is_blank_chars(&chars) {
                        let start = match word_start {
                            Some(w) => w,
                            None => token.time,
                        };
                        current_text.append(token.text.as_str());
                        if t == n - 1 || ends_word_chars(&chars) {
                            let text = trimmed(current_text.as_str());
                            if !text.as_str().is_empty() {
                                let ghost shown = units_view(units@);
                                units.push(Timestamp { start, end: token.time, text });
                                assert(units_view(units@) == shown.push(
                                    TimestampView {
                                        start: start as int,
                                        end: token.time as int,
                                        text: trim(st.text + token.text@),
                                    },
                                ));
                            }
                            word_start = None;
                            current_text = String::new();
                        } else {
                            word_start = Some(start);
                        }
                    }
                },
                None => {},
            }
            t += 1;
        }
        let text = trimmed(current_text.as_str());
        if !text.as_str().is_empty() {
            let start = match word_start {
                Some(w) => w,
                None => segment.start,
            };
            let ghost shown = units_view(units@);
            units.push(Timestamp { start, end: segment.end, text });
            assert(units_view(units@) == shown.push(
                TimestampView { start: start as int, end: segment.end as int, text: trim(current_text@) },
            ));
        }
    }

    /// Appends the units of `segments` to `units`. A segment without tokens
    /// is compared with the last unit of `units`, whatever produced it.
    pub fn extend(&self, units: &mut Vec<Timestamp>, segments: &Vec<Segment>)
        ensures
            units_view(final(units)@) == extend_spec(
                units_view(old(units)@),
                segments_view(segments@),
                self.threshold(),
            ),
    {
        let ghost segs = segments_view(segments@);
        let mut i: usize = 0;
        while i < segments.len()
            invariant
                i <= segments.len(),
                segs == segments_view(segments@),
                units_view(units@) == extend_spec(
                    units_view(old(units)@),
                    segs.take(i as int),
                    self.threshold(),
                ),
            decreases segments.len() - i,
        {
            self.push_segment(units, &segments[i]);
            proof {
                let next = segs.take(i + 1);
                assert(next.drop_last() == segs.take(i as int));
                assert(next.last() == segments@[i as int]@);
            }
            i += 1;
        }
        assert(segs.take(i as int) == segs);
    }

    /// The transcripts of several sources as one: all units in the order
    /// of their start, units with the same start in the order of their
    /// sources.
    pub fn combine(sources: Vec<Vec<Timestamp>>) -> (units: Vec<Timestamp>)
        ensures
            units_view(units@) == combine_spec(sources_view(sources@)),
            is_sorted_by(units_view(units@), unit_start()),
            (forall|i: int|
                0 <= i < concatenated(sources_view(sources@)).len() ==> (#[trigger] concatenated(
                    sources_view(sources@),
                )[i]).start <= concatenated(sources_view(sources@))[i].end) ==> chronological(
                units_view(units@),
            ),
    {
        let ghost all = sources_view(sources@);
        let mut units: Vec<Timestamp> = Vec::new();
        assert(units_view(units@) == Seq::<TimestampView>::empty());
        assert(all.take(0) == Seq::<Seq<TimestampView>>::empty());
        for source in outer: sources
            invariant
                sources_view(outer.seq()) == all,
                units_view(units@) == sort_by(concatenated(all.take(outer.index() as int)), unit_start()),
        {
            let ghost before = concatenated(all.take(outer.index() as int));
            let ghost current = units_view(source@);
            proof {
                let next = all.take(outer.index() + 1);
                assert(next.drop_last() == all.take(outer.index() as int));
                assert(next.last() == current);
                assert(before + current.take(0) == before);
            }
            for unit in inner: source
                invariant
                    units_view(inner.seq()) == current,
                    units_view(units@) == sort_by(before + current.take(inner.index() as int), unit_start()),
            {
                let ghost done = units_view(units@);
                let mut p: usize = units.len();
                while p > 0 && units[p - 1].start > unit.start
                    invariant
                        p <= units.len(),
                        done == units_view(units@),
                        forall|i: int| p <= i < done.len() ==> unit_start()(#[trigger] done[i]) > unit.start,
                    decreases p,
                {
                    p -= 1;
                }
                proof {
                    lemma_insert_position(done, unit_start(), unit.start as int, p as int);
                    let grown = before + current.take(inner.index() + 1);
                    assert(grown.drop_last() == before + current.take(inner.index() as int));
                    assert(grown.last() == unit@);
                }
                units.insert(p, unit);
                assert(units_view(units@) == insert_by(done, unit_start(), unit@));
            }
            assert(current.take(current.len() as int) == current);
        }
        proof {
            assert(all.take(all.len() as int) == all);
            lemma_sort_sorted(concatenated(all), unit_start());
            if forall|i: int|
                0 <= i < concatenated(all).len() ==> (#[trigger] concatenated(all)[i]).start <= concatenated(
                    all,
                )[i].end {
                lemma_combine_chronological(all);
            }
        }
        units
    }

    /// The transcript of one source. Where every segment ends no earlier
    /// than it starts and holds its text tokens in time order, every unit
    /// ends no earlier than it starts; where the segments come in order, so
    /// do the units.
    pub fn reconstruct(&self, segments: &Vec<Segment>) -> (units: Vec<Timestamp>)
        ensures
            units_view(units@) == reconstruct_spec(segments_view(segments@), self.threshold()),
            well_timed(segments_view(segments@), self.threshold()) ==> each_valid(units_view(units@)),
            in_order(segments_view(segments@), self.threshold()) ==> ordered_by_start(
                units_view(units@),
            ),
    {
        let mut units: Vec<Timestamp> = Vec::new();
        assert(units_view(units@) == Seq::<TimestampView>::empty());
        self.extend(&mut units, segments);
        proof {
            if well_timed(segments_view(segments@), self.threshold()) {
                lemma_reconstruct_valid(segments_view(segments@), self.threshold());
            }
            if in_order(segments_view(segments@), self.threshold()) {
                lemma_reconstruct_ordered(segments_view(segments@), self.threshold());
            }
        }
        units
    }
}

} // verus!
