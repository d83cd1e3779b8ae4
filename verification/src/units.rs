//! The shared data model: timestamped transcript units and clips.

use vstd::prelude::*;

verus! {

/// Number of ticks in one second.
pub const TICKS_PER_SECOND: i64 = 100;

/// One word or collapsed segment of transcript text with its time range.
#[derive(Debug, Clone)]
pub struct Timestamp {
    /// Start time in ticks.
    pub start: i64,
    /// End time in ticks.
    pub end: i64,
    /// The transcribed text.
    pub text: String,
}

/// Mathematical model of a [`Timestamp`].
pub struct TimestampView {
    pub start: int,
    pub end: int,
    pub text: Seq<char>,
}

impl View for Timestamp {
    type V = TimestampView;

    open spec fn view(&self) -> TimestampView {
        TimestampView { start: self.start as int, end: self.end as int, text: self.text@ }
    }
}

/// A time window of the recording and the label of what produced it.
#[derive(Debug, Clone)]
pub struct Clip {
    /// Start time in ticks.
    pub start: i64,
    /// End time in ticks.
    pub end: i64,
    /// The keyword or moment text that produced this clip; several, joined,
    /// once clips have been merged.
    pub keyword: String,
}

/// Mathematical model of a [`Clip`].
pub struct ClipView {
    pub start: int,
    pub end: int,
    pub keyword: Seq<char>,
}

impl View for Clip {
    type V = ClipView;

    open spec fn view(&self) -> ClipView {
        ClipView { start: self.start as int, end: self.end as int, keyword: self.keyword@ }
    }
}

/// The models of a vector of units, element by element.
pub open spec fn units_view(v: Seq<Timestamp>) -> Seq<TimestampView> {
    v.map_values(|t: Timestamp| t@)
}

/// The models of a vector of clips, element by element.
pub open spec fn clips_view(v: Seq<Clip>) -> Seq<ClipView> {
    v.map_values(|c: Clip| c@)
}

} // verus!
