//! Finding literal keywords in a transcript, and the configuration of a run
//! that does so.
//!
//! A keyword is found in a unit when one of the words of the unit, without
//! the punctuation round it and without regard to the case of letters, is
//! the keyword. Words are what whitespace separates.
//!
//! Case and punctuation are those of ASCII: only the letters `A` to `Z` are
//! taken as `a` to `z`, and only ASCII punctuation is taken off a word. A
//! letter or a mark beyond ASCII stands for itself: `É` is not `é`, and
//! `«word»` is not `word`.

use vstd::prelude::*;
use crate::config::{
    first_fault, given_view, is_valid_model, or_else, text_view, texts_view, tracks_view,
    CliGiven, ClipConfig, ConfigError, ConfigFault, OutputConfig, TracksConfig,
};
use crate::text::{
    ascii_folded, ascii_folded_char, ascii_punctuation, chars_of, eq_ignore_ascii_case,
    is_ascii_punctuation_char, is_whitespace, is_whitespace_char, lemma_leading_run,
    lemma_strip_keeps, lemma_trailing_run, str_eq, strip,
};
use crate::units::{clips_view, units_view, Clip, ClipView, Timestamp, TimestampView, TICKS_PER_SECOND};

verus! {

/// A keyword with the reach of its clips.
#[derive(Debug, Clone)]
pub struct KeywordEntry {
    pub keyword: String,
    pub clip: ClipConfig,
}

impl View for KeywordEntry {
    type V = (Seq<char>, ClipConfig);

    open spec fn view(&self) -> (Seq<char>, ClipConfig) {
        (self.keyword@, self.clip)
    }
}

/// No keyword stands twice in `s`.
pub open spec fn distinct_keywords(s: Seq<(Seq<char>, ClipConfig)>) -> bool {
    forall|i: int, j: int| 0 <= i < j < s.len() ==> (#[trigger] s[i]).0 != (#[trigger] s[j]).0
}

/// Whether `keyword` stands in `s`.
pub open spec fn has_keyword(s: Seq<(Seq<char>, ClipConfig)>, keyword: Seq<char>) -> bool {
    exists|i: int| 0 <= i < s.len() && (#[trigger] s[i]).0 == keyword
}

/// The place of `keyword` in `s`, if it stands there.
pub open spec fn keyword_index(s: Seq<(Seq<char>, ClipConfig)>, keyword: Seq<char>) -> int {
    choose|i: int| 0 <= i < s.len() && (#[trigger] s[i]).0 == keyword
}

/// `s` with `keyword` set to `clip`: in its place if it stands in `s`, at
/// the end if it does not.
pub open spec fn with_keyword(s: Seq<(Seq<char>, ClipConfig)>, keyword: Seq<char>, clip: ClipConfig) -> Seq<
    (Seq<char>, ClipConfig),
> {
    if has_keyword(s, keyword) {
        s.update(keyword_index(s, keyword), (keyword, clip))
    } else {
        s.push((keyword, clip))
    }
}

/// `s` with each of the keywords set to `clip`, one after the other.
pub open spec fn with_keywords(
    s: Seq<(Seq<char>, ClipConfig)>,
    keywords: Seq<Seq<char>>,
    clip: ClipConfig,
) -> Seq<(Seq<char>, ClipConfig)>
    decreases keywords.len(),
{
    if keywords.len() == 0 {
        s
    } else {
        with_keyword(with_keywords(s, keywords.drop_last(), clip), keywords.last(), clip)
    }
}

/// Setting a keyword keeps the keywords distinct.
pub proof fn lemma_with_keyword_distinct(s: Seq<(Seq<char>, ClipConfig)>, keyword: Seq<char>, clip: ClipConfig)
    requires
        distinct_keywords(s),
    ensures
        distinct_keywords(with_keyword(s, keyword, clip)),
        has_keyword(with_keyword(s, keyword, clip), keyword),
{
    let r = with_keyword(s, keyword, clip);
    if has_keyword(s, keyword) {
        let p = keyword_index(s, keyword);
        assert forall|i: int, j: int| 0 <= i < j < r.len() implies (#[trigger] r[i]).0 != (
        #[trigger] r[j]).0 by {
            assert(r[i].0 == s[i].0 && r[j].0 == s[j].0);
        }
        assert(r[p].0 == keyword);
    } else {
        assert forall|i: int, j: int| 0 <= i < j < r.len() implies (#[trigger] r[i]).0 != (
        #[trigger] r[j]).0 by {
            assert(r[i] == s[i]);
            if j < s.len() {
                assert(r[j] == s[j]);
            }
        }
        assert(r[s.len() as int].0 == keyword);
    }
}

/// The keywords to look for, each with the reach of its clips, in the
/// order in which they were first set. No keyword stands twice.
#[derive(Debug)]
pub struct KeywordTable {
    entries: Vec<KeywordEntry>,
}

impl View for KeywordTable {
    type V = Seq<(Seq<char>, ClipConfig)>;

    closed spec fn view(&self) -> Seq<(Seq<char>, ClipConfig)> {
        self.entries@.map_values(|e: KeywordEntry| e@)
    }
}

impl Clone for KeywordTable {
    fn clone(&self) -> (t: KeywordTable)
        ensures
            t@ == self@,
    {
        proof {
            use_type_invariant(self);
        }
        let mut entries: Vec<KeywordEntry> = Vec::new();
        let mut i: usize = 0;
        while i < self.entries.len()
            invariant
                i <= self.entries.len(),
                entries@.map_values(|e: KeywordEntry| e@) == self@.take(i as int),
            decreases self.entries.len() - i,
        {
            let ghost shown = entries@.map_values(|e: KeywordEntry| e@);
            let entry = &self.entries[i];
            entries.push(KeywordEntry { keyword: entry.keyword.clone(), clip: entry.clip });
            assert(entries@.map_values(|e: KeywordEntry| e@) == shown.push(self@[i as int]));
            assert(self@.take(i + 1) == self@.take(i as int).push(self@[i as int]));
            i += 1;
        }
        assert(self@.take(self@.len() as int) == self@);
        KeywordTable { entries }
    }
}

impl KeywordTable {
    #[verifier::type_invariant]
    spec fn valid(self) -> bool {
        distinct_keywords(self@)
    }

    /// A table without keywords.
    pub fn new() -> (t: KeywordTable)
        ensures
            t@ == Seq::<(Seq<char>, ClipConfig)>::empty(),
    {
        let t = KeywordTable { entries: Vec::new() };
        assert(t@ =~= Seq::<(Seq<char>, ClipConfig)>::empty());
        t
    }

    /// The number of keywords.
    pub fn len(&self) -> (n: usize)
        ensures
            n == self@.len(),
            distinct_keywords(self@),
    {
        proof {
            use_type_invariant(self);
        }
        self.entries.len()
    }

    /// Whether the table is without keywords.
    pub fn is_empty(&self) -> (r: bool)
        ensures
            r == (self@.len() == 0),
    {
        self.entries.len() == 0
    }

    fn find(&self, keyword: &str) -> (p: usize)
        ensures
            p <= self@.len(),
            p < self@.len() ==> has_keyword(self@, keyword@) && keyword_index(self@, keyword@) == p,
            p == self@.len() ==> !has_keyword(self@, keyword@),
    {
        proof {
            use_type_invariant(self);
        }
        let mut p: usize = 0;
        while p < self.entries.len()
            invariant
                p <= self.entries.len(),
                distinct_keywords(self@),
                forall|i: int| 0 <= i < p ==> (#[trigger] self@[i]).0 != keyword@,
            decreases self.entries.len() - p,
        {
            if str_eq(self.entries[p].keyword.as_str(), keyword) {
                assert(self@[p as int].0 == keyword@);
                return p;
            }
            p += 1;
        }
        p
    }

    /// Whether `keyword` stands in the table.
    pub fn contains_key(&self, keyword: &str) -> (r: bool)
        ensures
            r == has_keyword(self@, keyword@),
    {
        self.find(keyword) < self.entries.len()
    }

    /// The reach of the clips of `keyword`, if it stands in the table.
    pub fn get(&self, keyword: &str) -> (r: Option<ClipConfig>)
        ensures
            has_keyword(self@, keyword@) ==> r == Some(self@[keyword_index(self@, keyword@)].1),
            !has_keyword(self@, keyword@) ==> r is None,
    {
        let p = self.find(keyword);
        if p < self.entries.len() {
            Some(self.entries[p].clip)
        } else {
            None
        }
    }

    /// The keyword at place `index` with the reach of its clips, or `None`
    /// if the table has no such place.
    pub fn entry(&self, index: usize) -> (r: Option<&KeywordEntry>)
        ensures
            index < self@.len() ==> r is Some && r->0@ == self@[index as int],
            index >= self@.len() ==> r is None,
    {
        if index < self.entries.len() {
            Some(&self.entries[index])
        } else {
            None
        }
    }

    /// Sets `keyword` to `clip`, and returns what it was set to before.
    pub fn insert(&mut self, keyword: String, clip: ClipConfig) -> (r: Option<ClipConfig>)
        ensures
            final(self)@ == with_keyword(old(self)@, keyword@, clip),
            distinct_keywords(final(self)@),
            has_keyword(old(self)@, keyword@) ==> r == Some(
                old(self)@[keyword_index(old(self)@, keyword@)].1,
            ),
            !has_keyword(old(self)@, keyword@) ==> r is None,
    {
        proof {
            use_type_invariant(&*self);
            lemma_with_keyword_distinct(self@, keyword@, clip);
        }
        let p = self.find(keyword.as_str());
        let ghost before = self@;
        let mut entries: Vec<KeywordEntry> = Vec::new();
        core::mem::swap(&mut entries, &mut self.entries);
        if p < entries.len() {
            let previous = entries[p].clip;
            entries.set(p, KeywordEntry { keyword, clip });
            assert(entries@.map_values(|e: KeywordEntry| e@) == before.update(p as int, (keyword@, clip)));
            *self = KeywordTable { entries };
            Some(previous)
        } else {
            entries.push(KeywordEntry { keyword, clip });
            assert(entries@.map_values(|e: KeywordEntry| e@) == before.push((keyword@, clip)));
            *self = KeywordTable { entries };
            None
        }
    }
}

/// The keywords of a run.
#[derive(Debug, Clone)]
pub struct ClipsConfig {
    pub keywords: KeywordTable,
}

/// The speech recognition model, by name.
#[derive(Debug, Clone)]
pub struct CliveConfig {
    pub model: String,
}

/// The configuration of a run that looks for keywords.
#[derive(Debug, Clone)]
pub struct Config {
    pub clive: CliveConfig,
    pub tracks: TracksConfig,
    pub clips: ClipsConfig,
    pub output: OutputConfig,
    /// Path of the recording; it comes from the command line only.
    pub input_file: Option<String>,
    /// Which values the command line gave. A configuration from a file
    /// has none of them from there.
    pub given: CliGiven,
}

/// Mathematical model of a [`Config`].
pub struct ConfigView {
    pub model: Seq<char>,
    pub audio_tracks: Seq<u32>,
    pub keywords: Seq<(Seq<char>, ClipConfig)>,
    pub output_directory: Seq<char>,
    pub input_file: Option<Seq<char>>,
    pub given: CliGiven,
}

impl View for Config {
    type V = ConfigView;

    open spec fn view(&self) -> ConfigView {
        ConfigView {
            model: self.clive.model@,
            audio_tracks: self.tracks.audio_tracks@,
            keywords: self.clips.keywords@,
            output_directory: self.output.directory@,
            input_file: text_view(self.input_file),
            given: self.given,
        }
    }
}

/// The track that is processed when none is named: the first.
pub open spec fn default_tracks() -> Seq<u32> {
    seq![1u32]
}

/// The reach of the clips of a keyword that comes from the command line.
pub open spec fn cli_clip() -> ClipConfig {
    ClipConfig { start_time: 10, end_time: 10 }
}

/// The configuration that holds when nothing is configured.
pub open spec fn default_view() -> ConfigView {
    ConfigView {
        model: "base"@,
        audio_tracks: default_tracks(),
        keywords: Seq::empty(),
        output_directory: "output"@,
        input_file: None,
        given: CliGiven { output: false, model: false, tracks: false },
    }
}

/// The configuration that command-line arguments alone give.
pub open spec fn from_cli_view(
    input: Seq<char>,
    output: Option<Seq<char>>,
    model: Option<Seq<char>>,
    tracks: Option<Seq<u32>>,
    keywords: Seq<Seq<char>>,
) -> ConfigView {
    ConfigView {
        model: or_else(model, "base"@),
        audio_tracks: or_else(tracks, default_tracks()),
        keywords: with_keywords(Seq::empty(), keywords, cli_clip()),
        output_directory: or_else(output, "output"@),
        input_file: Some(input),
        given: given_view(output, model, tracks),
    }
}

/// A configuration with a command-line configuration merged into it. The
/// input path is taken over. The keywords are replaced as a whole if the
/// command line names any. The tracks, the model and the output directory
/// are taken over where the command line gave them, whatever their values;
/// where it did not, they stay.
pub open spec fn merged_view(base: ConfigView, cli: ConfigView) -> ConfigView {
    ConfigView {
        input_file: cli.input_file,
        keywords: if cli.keywords.len() > 0 {
            cli.keywords
        } else {
            base.keywords
        },
        audio_tracks: if cli.given.tracks {
            cli.audio_tracks
        } else {
            base.audio_tracks
        },
        model: if cli.given.model {
            cli.model
        } else {
            base.model
        },
        output_directory: if cli.given.output {
            cli.output_directory
        } else {
            base.output_directory
        },
        given: base.given,
    }
}

/// A configuration with command-line arguments applied to it: the input
/// path always; the keywords, as a whole, the tracks, the model and the
/// output directory only where the argument was given.
pub open spec fn applied_view(
    base: ConfigView,
    input: Seq<char>,
    output: Option<Seq<char>>,
    model: Option<Seq<char>>,
    tracks: Option<Seq<u32>>,
    keywords: Option<Seq<Seq<char>>>,
) -> ConfigView {
    ConfigView {
        input_file: Some(input),
        output_directory: or_else(output, base.output_directory),
        model: or_else(model, base.model),
        audio_tracks: or_else(tracks, base.audio_tracks),
        keywords: match keywords {
            Some(k) => with_keywords(Seq::empty(), k, cli_clip()),
            None => base.keywords,
        },
        given: base.given,
    }
}

fn cli_keywords(keywords: Vec<String>) -> (table: KeywordTable)
    ensures
        table@ == with_keywords(Seq::empty(), texts_view(keywords@), cli_clip()),
{
    let ghost all = texts_view(keywords@);
    let mut table = KeywordTable::new();
    for keyword in it: keywords
        invariant
            texts_view(it.seq()) == all,
            table@ == with_keywords(Seq::empty(), all.take(it.index() as int), cli_clip()),
    {
        proof {
            let next = all.take(it.index() + 1);
            assert(next.drop_last() == all.take(it.index() as int));
            assert(next.last() == keyword@);
        }
        table.insert(keyword, ClipConfig { start_time: 10, end_time: 10 });
    }
    assert(all.take(all.len() as int) == all);
    table
}

impl Default for Config {
    fn default() -> (c: Config)
        ensures
            c@ == default_view(),
    {
        let mut tracks: Vec<u32> = Vec::new();
        tracks.push(1);
        assert(tracks@ =~= default_tracks());
        Config {
            clive: CliveConfig { model: String::from_str("base") },
            tracks: TracksConfig { audio_tracks: tracks },
            clips: ClipsConfig { keywords: KeywordTable::new() },
            output: OutputConfig { directory: String::from_str("output") },
            input_file: None,
            given: CliGiven::default(),
        }
    }
}

impl Config {
    /// The configuration that command-line arguments alone give: the
    /// defaults, with the input path, with what was given of output
    /// directory, model and tracks, and with each keyword set to clips that
    /// reach ten seconds to either side.
    pub fn from_cli(
        input: String,
        output: Option<String>,
        model: Option<String>,
        tracks: Option<Vec<u32>>,
        keywords: Vec<String>,
    ) -> (c: Config)
        ensures
            c@ == from_cli_view(
                input@,
                text_view(output),
                text_view(model),
                tracks_view(tracks),
                texts_view(keywords@),
            ),
    {
        let mut config = Config::default();
        config.input_file = Some(input);
        config.given = CliGiven {
            output: output.is_some(),
            model: model.is_some(),
            tracks: tracks.is_some(),
        };
        match output {
            Some(output) => {
                config.output.directory = output;
            },
            None => {},
        }
        match model {
            Some(model) => {
                config.clive.model = model;
            },
            None => {},
        }
        match tracks {
            Some(tracks) => {
                config.tracks.audio_tracks = tracks;
            },
            None => {},
        }
        config.clips.keywords = cli_keywords(keywords);
        config
    }

    /// Applies command-line arguments to this configuration: the input path
    /// always, every other argument only where it was given. Keywords that
    /// are given replace the configured ones as a whole, each with clips
    /// that reach ten seconds to either side.
    pub fn apply_cli(
        &mut self,
        input: String,
        output: Option<String>,
        model: Option<String>,
        tracks: Option<Vec<u32>>,
        keywords: Option<Vec<String>>,
    )
        ensures
            final(self)@ == applied_view(
                old(self)@,
                input@,
                text_view(output),
                text_view(model),
                tracks_view(tracks),
                match keywords {
                    Some(k) => Some(texts_view(k@)),
                    None => None,
                },
            ),
    {
        self.input_file = Some(input);
        match output {
            Some(directory) => {
                self.output.directory = directory;
            },
            None => {},
        }
        match model {
            Some(name) => {
                self.clive.model = name;
            },
            None => {},
        }
        match tracks {
            Some(list) => {
                self.tracks.audio_tracks = list;
            },
            None => {},
        }
        match keywords {
            Some(list) => {
                self.clips.keywords = cli_keywords(list);
            },
            None => {},
        }
    }

    /// Merges a command-line configuration into this one: its input path
    /// always; its keywords, as a whole, if it names any; its tracks, its
    /// model and its output directory where the command line gave them,
    /// also where what it gave is the default.
    pub fn merge_cli(&mut self, cli_config: Config)
        ensures
            final(self)@ == merged_view(old(self)@, cli_config@),
    {
        self.input_file = cli_config.input_file;
        if !cli_config.clips.keywords.is_empty() {
            self.clips = cli_config.clips;
        }
        if cli_config.given.tracks {
            self.tracks = cli_config.tracks;
        }
        if cli_config.given.model {
            self.clive = cli_config.clive;
        }
        if cli_config.given.output {
            self.output = cli_config.output;
        }
    }

    /// Checks the configuration before anything is run. `input_exists`
    /// tells whether the input file is there. The first fault found is
    /// returned: a missing input path, an input file that does not exist,
    /// an unknown model, no audio track, no keyword.
    pub fn validate(&self, input_exists: bool) -> (r: Result<(), ConfigError>)
        ensures
            match first_fault(
                self@.input_file,
                input_exists,
                self@.model,
                self@.audio_tracks.len(),
                self@.keywords.len(),
                ConfigFault::NoKeywords,
            ) {
                Some(fault) => r is Err && r->Err_0.fault() == fault,
                None => r is Ok,
            },
            r is Err && r->Err_0 is InvalidModel ==> r->Err_0->name@ == self@.model,
    {
        if self.input_file.is_none() {
            return Err(ConfigError::MissingInput);
        }
        if !input_exists {
            return Err(ConfigError::InputNotFound);
        }
        if !is_valid_model(self.clive.model.as_str()) {
            return Err(ConfigError::InvalidModel { name: self.clive.model.clone() });
        }
        if self.tracks.audio_tracks.len() == 0 {
            return Err(ConfigError::NoAudioTracks);
        }
        if self.clips.keywords.is_empty() {
            return Err(ConfigError::NoKeywords);
        }
        Ok(())
    }
}

/// `text[a..b]` is a word of `text`: it holds no whitespace, and whitespace
/// or an end of the text stands on either side of it.
pub open spec fn is_word_at(text: Seq<char>, a: int, b: int) -> bool {
    &&& 0 <= a < b <= text.len()
    &&& a == 0 || is_whitespace(text[a - 1])
    &&& b == text.len() || is_whitespace(text[b])
    &&& forall|i: int| a <= i < b ==> !is_whitespace(#[trigger] text[i])
}

/// A word is the keyword when, without the ASCII punctuation round it, it
/// is the keyword but for the case of the letters `A` to `Z`.
pub open spec fn word_matches(word: Seq<char>, keyword: Seq<char>) -> bool {
    eq_ignore_ascii_case(strip(word, ascii_punctuation()), keyword)
}

/// The text mentions the keyword when one of its words is the keyword.
pub open spec fn mentions(text: Seq<char>, keyword: Seq<char>) -> bool {
    exists|a: int, b: int| #[trigger] is_word_at(text, a, b) && word_matches(text.subrange(a, b), keyword)
}

/// The window round a unit in which a keyword was found: it starts
/// `clip.start_time` seconds before the unit, but not before the time 0,
/// and ends `clip.end_time` seconds after it, but not after the last time
/// there is.
pub open spec fn window(unit: TimestampView, keyword: Seq<char>, clip: ClipConfig) -> ClipView {
    let start = unit.start - clip.start_time * TICKS_PER_SECOND;
    let end = unit.end + clip.end_time * TICKS_PER_SECOND;
    ClipView {
        start: if start < 0 {
            0
        } else {
            start
        },
        end: if end > i64::MAX {
            i64::MAX as int
        } else {
            end
        },
        keyword,
    }
}

/// The windows of the keywords that a unit mentions, in the order of the
/// keywords.
pub open spec fn unit_hits(unit: TimestampView, keywords: Seq<(Seq<char>, ClipConfig)>) -> Seq<ClipView>
    decreases keywords.len(),
{
    if keywords.len() == 0 {
        Seq::empty()
    } else {
        let rest = unit_hits(unit, keywords.drop_last());
        let k = keywords.last();
        if mentions(unit.text, k.0) {
            rest.push(window(unit, k.0, k.1))
        } else {
            rest
        }
    }
}

/// The windows of all keywords in all units, unit by unit.
pub open spec fn hits(units: Seq<TimestampView>, keywords: Seq<(Seq<char>, ClipConfig)>) -> Seq<ClipView>
    decreases units.len(),
{
    if units.len() == 0 {
        Seq::empty()
    } else {
        hits(units.drop_last(), keywords) + unit_hits(units.last(), keywords)
    }
}

/// No window starts before the time 0, and none starts after a unit that
/// starts at the time 0 or later.
pub proof fn lemma_window_start(unit: TimestampView, keyword: Seq<char>, clip: ClipConfig)
    ensures
        window(unit, keyword, clip).start >= 0,
        window(unit, keyword, clip).start <= if unit.start < 0 {
            0
        } else {
            unit.start
        },
{
}

/// No window of a keyword starts before the time 0.
pub proof fn lemma_hits_start(units: Seq<TimestampView>, keywords: Seq<(Seq<char>, ClipConfig)>)
    ensures
        forall|i: int| 0 <= i < hits(units, keywords).len() ==> (#[trigger] hits(units, keywords)[i]).start >= 0,
    decreases units.len(),
{
    if units.len() > 0 {
        lemma_hits_start(units.drop_last(), keywords);
        lemma_unit_hits_start(units.last(), keywords);
        let first = hits(units.drop_last(), keywords);
        let second = unit_hits(units.last(), keywords);
        assert forall|i: int| 0 <= i < hits(units, keywords).len() implies (#[trigger] hits(
            units,
            keywords,
        )[i]).start >= 0 by {
            if i < first.len() {
                assert((first + second)[i] == first[i]);
            } else {
                assert((first + second)[i] == second[i - first.len()]);
            }
        }
    }
}

proof fn lemma_unit_hits_start(unit: TimestampView, keywords: Seq<(Seq<char>, ClipConfig)>)
    ensures
        forall|i: int|
            0 <= i < unit_hits(unit, keywords).len() ==> (#[trigger] unit_hits(unit, keywords)[i]).start >= 0,
    decreases keywords.len(),
{
    if keywords.len() > 0 {
        lemma_unit_hits_start(unit, keywords.drop_last());
        let rest = unit_hits(unit, keywords.drop_last());
        assert forall|i: int| 0 <= i < unit_hits(unit, keywords).len() implies (#[trigger] unit_hits(
            unit,
            keywords,
        )[i]).start >= 0 by {
            if i < rest.len() {
                assert(unit_hits(unit, keywords)[i] == rest[i]);
            }
        }
    }
}

/// A word is fixed by the place where it ends: two words that overlap are
/// the same word.
proof fn lemma_word_unique(text: Seq<char>, a: int, b: int, c: int, d: int)
    requires
        is_word_at(text, a, b),
        is_word_at(text, c, d),
        a < d,
        c < b,
    ensures
        a == c && b == d,
{
    if c < a {
        assert(!is_whitespace(text[a - 1]));
    }
    if a < c {
        assert(!is_whitespace(text[c - 1]));
    }
    if b < d {
        assert(!is_whitespace(text[b]));
    }
    if d < b {
        assert(!is_whitespace(text[d]));
    }
}

fn word_matches_chars(text: &Vec<char>, a: usize, b: usize, keyword: &Vec<char>) -> (r: bool)
    requires
        a < b <= text.len(),
    ensures
        r == word_matches(text@.subrange(a as int, b as int), keyword@),
{
    let ghost word = text@.subrange(a as int, b as int);
    let mut from: usize = a;
    while from < b && is_ascii_punctuation_char(text[from])
        invariant
            a <= from <= b <= text.len(),
            word == text@.subrange(a as int, b as int),
            forall|i: int| 0 <= i < from - a ==> ascii_punctuation()(#[trigger] word[i]),
        decreases b - from,
    {
        from += 1;
    }
    proof {
        lemma_leading_run(word, ascii_punctuation(), from - a);
    }
    if from == b {
        return keyword.len() == 0;
    }
    let mut to: usize = b;
    while to > from && is_ascii_punctuation_char(text[to - 1])
        invariant
            a <= from < to <= b <= text.len(),
            !ascii_punctuation()(text@[from as int]),
            word == text@.subrange(a as int, b as int),
            forall|i: int| to - a <= i < word.len() ==> ascii_punctuation()(#[trigger] word[i]),
        decreases to,
    {
        to -= 1;
    }
    proof {
        lemma_trailing_run(word, ascii_punctuation(), to - a);
        lemma_strip_keeps(word, ascii_punctuation(), from - a);
    }
    let ghost core = strip(word, ascii_punctuation());
    assert(core == text@.subrange(from as int, to as int));
    if to - from != keyword.len() {
        return false;
    }
    let mut i: usize = 0;
    while i < keyword.len()
        invariant
            i <= keyword.len(),
            from < to <= text.len(),
            to - from == keyword.len(),
            a < b <= text.len(),
            core == strip(text@.subrange(a as int, b as int), ascii_punctuation()),
            core == text@.subrange(from as int, to as int),
            forall|j: int| 0 <= j < i ==> ascii_folded(#[trigger] core[j]) == ascii_folded(keyword@[j]),
        decreases keyword.len() - i,
    {
        if ascii_folded_char(text[from + i]) != ascii_folded_char(keyword[i]) {
            assert(ascii_folded(core[i as int]) != ascii_folded(keyword@[i as int]));
            return false;
        }
        i += 1;
    }
    true
}

fn mentions_chars(text: &Vec<char>, keyword: &Vec<char>) -> (r: bool)
    ensures
        r == mentions(text@, keyword@),
{
    let n = text.len();
    let mut i: usize = 0;
    while i < n
        invariant
            i <= n,
            n == text.len(),
            i == 0 || i == n || is_whitespace(text@[i - 1]),
            forall|a: int, b: int|
                #[trigger] is_word_at(text@, a, b) && b <= i ==> !word_matches(
                    text@.subrange(a, b),
                    keyword@,
                ),
        decreases n - i,
    {
        if is_whitespace_char(text[i]) {
            assert forall|a: int, b: int| #[trigger] is_word_at(text@, a, b) && b <= i + 1 implies !word_matches(
                text@.subrange(a, b),
                keyword@,
            ) by {
                if b == i + 1 {
                    assert(!is_whitespace(text@[b - 1]));
                }
            }
            i += 1;
        } else {
            let a = i;
            let mut b: usize = i + 1;
            while b < n && !is_whitespace_char(text[b])
                invariant
                    a < b <= n,
                    n == text.len(),
                    forall|j: int| a <= j < b ==> !is_whitespace(#[trigger] text@[j]),
                decreases n - b,
            {
                b += 1;
            }
            assert(is_word_at(text@, a as int, b as int));
            if word_matches_chars(text, a, b, keyword) {
                return true;
            }
            let next = if b < n {
                b + 1
            } else {
                n
            };
            assert forall|c: int, d: int| #[trigger] is_word_at(text@, c, d) && d <= next implies !word_matches(
                text@.subrange(c, d),
                keyword@,
            ) by {
                if d > a {
                    if d == b + 1 {
                        assert(!is_whitespace(text@[d - 1]));
                    }
                    lemma_word_unique(text@, a as int, b as int, c, d);
                }
            }
            i = next;
        }
    }
    false
}

/// Looks for keywords in transcript units.
pub struct KeywordMatcher {}

impl KeywordMatcher {
    /// Tells whether one of the words of `text` is the keyword: without the
    /// ASCII punctuation round it, and with `A` to `Z` taken as `a` to `z`
    /// in both. Other letters are compared as they stand.
    pub fn mentions(text: &str, keyword: &str) -> (r: bool)
        ensures
            r == mentions(text@, keyword@),
    {
        let text = chars_of(text);
        let keyword = chars_of(keyword);
        mentions_chars(&text, &keyword)
    }

    /// The window round a unit in which a keyword was found.
    pub fn window(unit: &Timestamp, keyword: &str, clip: ClipConfig) -> (c: Clip)
        ensures
            c@ == window(unit@, keyword@, clip),
            c.start >= 0,
            0 <= unit.end && unit.start <= unit.end ==> c.start <= c.end,
    {
        let before: i64 = (clip.start_time as i64) * TICKS_PER_SECOND;
        let after: i64 = (clip.end_time as i64) * TICKS_PER_SECOND;
        let start = if unit.start > before {
            unit.start - before
        } else {
            0
        };
        let end = match unit.end.checked_add(after) {
            Some(end) => end,
            None => i64::MAX,
        };
        Clip { start, end, keyword: String::from_str(keyword) }
    }

    /// The windows of all keywords in all units: unit by unit, and for each
    /// unit in the order of the keywords, one window for each keyword that
    /// the unit mentions. No window starts before the time 0. Words are
    /// compared without the ASCII punctuation round them and with `A` to
    /// `Z` taken as `a` to `z`; what lies beyond ASCII is compared as it
    /// stands.
    pub fn find(units: &Vec<Timestamp>, keywords: &KeywordTable) -> (clips: Vec<Clip>)
        ensures
            clips_view(clips@) == hits(units_view(units@), keywords@),
            forall|i: int| 0 <= i < clips.len() ==> (#[trigger] clips[i]).start >= 0,
    {
        let ghost all = units_view(units@);
        let ghost table = keywords@;
        let count = keywords.len();
        let mut clips: Vec<Clip> = Vec::new();
        assert(clips_view(clips@) == Seq::<ClipView>::empty());
        let mut u: usize = 0;
        while u < units.len()
            invariant
                u <= units.len(),
                all == units_view(units@),
                table == keywords@,
                count == table.len(),
                clips_view(clips@) == hits(all.take(u as int), table),
                forall|i: int| 0 <= i < clips.len() ==> (#[trigger] clips[i]).start >= 0,
            decreases units.len() - u,
        {
            let unit = &units[u];
            let text = chars_of(unit.text.as_str());
            let ghost before = clips_view(clips@);
            assert(table.take(0) == Seq::<(Seq<char>, ClipConfig)>::empty());
            let mut k: usize = 0;
            while k < count
                invariant
                    k <= count,
                    table == keywords@,
                    count == table.len(),
                    text@ == unit@.text,
                    clips_view(clips@) == before + unit_hits(unit@, table.take(k as int)),
                    forall|i: int| 0 <= i < clips.len() ==> (#[trigger] clips[i]).start >= 0,
                decreases count - k,
            {
                let entry = keywords.entry(k).unwrap();
                let word = chars_of(entry.keyword.as_str());
                proof {
                    let next = table.take(k + 1);
                    assert(next.drop_last() == table.take(k as int));
                    assert(next.last() == entry@);
                }
                if mentions_chars(&text, &word) {
                    let ghost shown = clips_view(clips@);
                    let clip = KeywordMatcher::window(unit, entry.keyword.as_str(), entry.clip);
                    clips.push(clip);
                    assert(clips_view(clips@) == shown.push(window(unit@, entry@.0, entry@.1)));
                }
                k += 1;
            }
            proof {
                assert(table.take(count as int) == table);
                let next = all.take(u + 1);
                assert(next.drop_last() == all.take(u as int));
                assert(next.last() == unit@);
            }
            u += 1;
        }
        assert(all.take(units.len() as int) == all);
        clips
    }
}

} // verus!
