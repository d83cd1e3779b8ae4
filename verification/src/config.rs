//! Configuration of a run that looks for moments by their meaning: the
//! models, the audio tracks, the moments to find, and how command-line
//! arguments take precedence over a configuration file.

use vstd::prelude::*;
use crate::text::str_eq;

verus! {

/// How far a clip reaches round what was found.
#[derive(Debug, Clone, Copy, PartialEq, Eq, Structural)]
pub struct ClipConfig {
    /// Seconds before the moment to start the clip.
    pub start_time: u32,
    /// Seconds after the moment to end the clip.
    pub end_time: u32,
}

impl Default for ClipConfig {
    fn default() -> (c: ClipConfig)
        ensures
            c == (ClipConfig { start_time: 30, end_time: 30 }),
    {
        ClipConfig { start_time: 30, end_time: 30 }
    }
}

/// A moment to find in the recording.
#[derive(Debug, Clone)]
pub struct Moment {
    /// The text to search for.
    pub text: String,
    /// How far the clip reaches round the moment.
    pub clip: ClipConfig,
}

/// Mathematical model of a [`Moment`].
pub struct MomentView {
    pub text: Seq<char>,
    pub clip: ClipConfig,
}

impl View for Moment {
    type V = MomentView;

    open spec fn view(&self) -> MomentView {
        MomentView { text: self.text@, clip: self.clip }
    }
}

/// How many units round a hit go into its window.
#[derive(Debug, Clone, Copy, PartialEq, Eq, Structural)]
pub struct LineBufferConfig {
    /// Number of units before the hit.
    pub before: u32,
    /// Number of units after the hit.
    pub after: u32,
}

impl Default for LineBufferConfig {
    fn default() -> (c: LineBufferConfig)
        ensures
            c == (LineBufferConfig { before: 5, after: 5 }),
    {
        LineBufferConfig { before: default_line_buffer(), after: default_line_buffer() }
    }
}

/// Parameters of the language and embedding models.
#[derive(Debug, Clone, Copy, PartialEq, Eq, Structural)]
pub struct LlamaConfig {
    /// Context size of the model.
    pub ctx_size: u32,
    /// Number of threads for inference; `None` leaves it to the engine.
    pub n_threads: Option<i32>,
    /// Number of threads for batch processing; `None` leaves it to the engine.
    pub n_batch: Option<i32>,
    /// Seed for sampling.
    pub seed: Option<u32>,
    /// Whether to run without GPU acceleration.
    pub disable_gpu: bool,
}

impl Default for LlamaConfig {
    fn default() -> (c: LlamaConfig)
        ensures
            c == (LlamaConfig {
                ctx_size: 2048,
                n_threads: None,
                n_batch: None,
                seed: None,
                disable_gpu: false,
            }),
    {
        LlamaConfig {
            ctx_size: default_ctx_size(),
            n_threads: None,
            n_batch: None,
            seed: None,
            disable_gpu: false,
        }
    }
}

/// The models to use, by name.
#[derive(Debug, Clone)]
pub struct CliveConfig {
    /// Speech recognition model.
    pub whisper_model: String,
    /// Language model.
    pub language_model: String,
    /// Embedding model.
    pub embedding_model: String,
}

/// The audio tracks to process.
#[derive(Debug, Clone)]
pub struct TracksConfig {
    /// Track numbers, counted from 1.
    pub audio_tracks: Vec<u32>,
}

/// Where the clips go.
#[derive(Debug, Clone)]
pub struct OutputConfig {
    /// Directory for the clip files.
    pub directory: String,
}

/// Which of its values a configuration has from the command line.
#[derive(Debug, Clone, Copy, PartialEq, Eq, Structural)]
pub struct CliGiven {
    /// The output directory was given.
    pub output: bool,
    /// The speech model was given.
    pub model: bool,
    /// The audio tracks were given.
    pub tracks: bool,
}

impl Default for CliGiven {
    fn default() -> (g: CliGiven)
        ensures
            g == (CliGiven { output: false, model: false, tracks: false }),
    {
        CliGiven { output: false, model: false, tracks: false }
    }
}

/// What the command line gave, by the arguments themselves.
pub open spec fn given_view<A, B, C>(output: Option<A>, model: Option<B>, tracks: Option<C>) -> CliGiven {
    CliGiven { output: output is Some, model: model is Some, tracks: tracks is Some }
}

/// The configuration of a run.
#[derive(Debug, Clone)]
pub struct Config {
    pub clive: CliveConfig,
    pub llama: LlamaConfig,
    pub tracks: TracksConfig,
    /// The moments to find.
    pub moments: Vec<Moment>,
    pub output: OutputConfig,
    pub line_buffer: LineBufferConfig,
    /// Path of the recording; it comes from the command line only.
    pub input_file: Option<String>,
    /// Which values the command line gave. A configuration from a file
    /// has none of them from there.
    pub given: CliGiven,
}

/// Mathematical model of a [`Config`].
pub struct ConfigView {
    pub whisper_model: Seq<char>,
    pub language_model: Seq<char>,
    pub embedding_model: Seq<char>,
    pub llama: LlamaConfig,
    pub audio_tracks: Seq<u32>,
    pub moments: Seq<MomentView>,
    pub output_directory: Seq<char>,
    pub line_buffer: LineBufferConfig,
    pub input_file: Option<Seq<char>>,
    pub given: CliGiven,
}

/// The model of an optional string.
pub open spec fn text_view(s: Option<String>) -> Option<Seq<char>> {
    match s {
        Some(s) => Some(s@),
        None => None,
    }
}

/// The model of an optional track list.
pub open spec fn tracks_view(t: Option<Vec<u32>>) -> Option<Seq<u32>> {
    match t {
        Some(t) => Some(t@),
        None => None,
    }
}

/// The models of a vector of strings, element by element.
pub open spec fn texts_view(v: Seq<String>) -> Seq<Seq<char>> {
    v.map_values(|s: String| s@)
}

impl View for Config {
    type V = ConfigView;

    open spec fn view(&self) -> ConfigView {
        ConfigView {
            whisper_model: self.clive.whisper_model@,
            language_model: self.clive.language_model@,
            embedding_model: self.clive.embedding_model@,
            llama: self.llama,
            audio_tracks: self.tracks.audio_tracks@,
            moments: self.moments@.map_values(|m: Moment| m@),
            output_directory: self.output.directory@,
            line_buffer: self.line_buffer,
            input_file: text_view(self.input_file),
            given: self.given,
        }
    }
}

/// The tracks that are processed when none are named: the first two.
pub open spec fn default_tracks() -> Seq<u32> {
    seq![1u32, 2u32]
}

/// The configuration that holds when nothing is configured.
pub open spec fn default_view() -> ConfigView {
    ConfigView {
        whisper_model: "base"@,
        language_model: "base"@,
        embedding_model: "base"@,
        llama: LlamaConfig {
            ctx_size: 2048,
            n_threads: None,
            n_batch: None,
            seed: None,
            disable_gpu: false,
        },
        audio_tracks: default_tracks(),
        moments: Seq::empty(),
        output_directory: "output"@,
        line_buffer: LineBufferConfig { before: 5, after: 5 },
        input_file: None,
        given: CliGiven { output: false, model: false, tracks: false },
    }
}

/// `value` if there is one, else `fallback`.
pub open spec fn or_else<T>(value: Option<T>, fallback: T) -> T {
    match value {
        Some(v) => v,
        None => fallback,
    }
}

/// The moments that the texts make, each with the default reach of a clip.
pub open spec fn moments_for(texts: Seq<Seq<char>>) -> Seq<MomentView> {
    texts.map_values(
        |t: Seq<char>| MomentView { text: t, clip: ClipConfig { start_time: 30, end_time: 30 } },
    )
}

/// The configuration that command-line arguments alone give.
pub open spec fn from_cli_view(
    input: Seq<char>,
    output: Option<Seq<char>>,
    model: Option<Seq<char>>,
    tracks: Option<Seq<u32>>,
    moments: Seq<Seq<char>>,
) -> ConfigView {
    ConfigView {
        whisper_model: or_else(model, "base"@),
        audio_tracks: or_else(tracks, default_tracks()),
        moments: moments_for(moments),
        output_directory: or_else(output, "output"@),
        input_file: Some(input),
        given: given_view(output, model, tracks),
        ..default_view()
    }
}

/// A configuration with a command-line configuration merged into it. The
/// input path is taken over. The moments are replaced as a whole if the
/// command line names any. The tracks, the speech model and the output
/// directory are taken over where the command line gave them, whatever
/// their values; where it did not, they stay.
pub open spec fn merged_view(base: ConfigView, cli: ConfigView) -> ConfigView {
    ConfigView {
        input_file: cli.input_file,
        moments: if cli.moments.len() > 0 {
            cli.moments
        } else {
            base.moments
        },
        audio_tracks: if cli.given.tracks {
            cli.audio_tracks
        } else {
            base.audio_tracks
        },
        whisper_model: if cli.given.model {
            cli.whisper_model
        } else {
            base.whisper_model
        },
        output_directory: if cli.given.output {
            cli.output_directory
        } else {
            base.output_directory
        },
        ..base
    }
}

/// A configuration with command-line arguments applied to it: the input
/// path always; the moments, as a whole, the tracks, the models and the
/// output directory only where the argument was given.
pub open spec fn applied_view(
    base: ConfigView,
    input: Seq<char>,
    output: Option<Seq<char>>,
    whisper_model: Option<Seq<char>>,
    language_model: Option<Seq<char>>,
    embedding_model: Option<Seq<char>>,
    tracks: Option<Seq<u32>>,
    moments: Option<Seq<Seq<char>>>,
) -> ConfigView {
    ConfigView {
        input_file: Some(input),
        output_directory: or_else(output, base.output_directory),
        whisper_model: or_else(whisper_model, base.whisper_model),
        language_model: or_else(language_model, base.language_model),
        embedding_model: or_else(embedding_model, base.embedding_model),
        audio_tracks: or_else(tracks, base.audio_tracks),
        moments: match moments {
            Some(m) => moments_for(m),
            None => base.moments,
        },
        ..base
    }
}

/// The names of the speech recognition models.
pub open spec fn is_model_name(name: Seq<char>) -> bool {
    ||| name == "base"@
    ||| name == "tiny"@
    ||| name == "small"@
    ||| name == "medium"@
    ||| name == "large"@
    ||| name == "base.en"@
    ||| name == "tiny.en"@
    ||| name == "small.en"@
    ||| name == "medium.en"@
    ||| name == "large.en"@
}

/// What is wrong with a configuration.
#[derive(Debug, Clone)]
pub enum ConfigError {
    /// No input file is named.
    MissingInput,
    /// The input file does not exist.
    InputNotFound,
    /// The speech model is none of the known ones.
    InvalidModel { name: String },
    /// No audio track is named.
    NoAudioTracks,
    /// No moment to look for is named.
    NoMoments,
    /// No keyword to look for is named.
    NoKeywords,
}

/// The first thing that is wrong with a configuration, if anything is:
/// the input is looked at first, then the model, the tracks, and what to
/// look for. `input_exists` tells whether the input file is there,
/// `targets` how many moments or keywords are named, and `no_targets` what
/// the fault is if there are none.
pub open spec fn first_fault(
    input_file: Option<Seq<char>>,
    input_exists: bool,
    model: Seq<char>,
    tracks: nat,
    targets: nat,
    no_targets: ConfigFault,
) -> Option<ConfigFault> {
    if input_file is None {
        Some(ConfigFault::MissingInput)
    } else if !input_exists {
        Some(ConfigFault::InputNotFound)
    } else if !is_model_name(model) {
        Some(ConfigFault::InvalidModel)
    } else if tracks == 0 {
        Some(ConfigFault::NoAudioTracks)
    } else if targets == 0 {
        Some(no_targets)
    } else {
        None
    }
}

/// The kinds of [`ConfigError`].
pub enum ConfigFault {
    MissingInput,
    InputNotFound,
    InvalidModel,
    NoAudioTracks,
    NoMoments,
    NoKeywords,
}

impl ConfigError {
    /// The kind of this error.
    pub open spec fn fault(self) -> ConfigFault {
        match self {
            ConfigError::MissingInput => ConfigFault::MissingInput,
            ConfigError::InputNotFound => ConfigFault::InputNotFound,
            ConfigError::InvalidModel { .. } => ConfigFault::InvalidModel,
            ConfigError::NoAudioTracks => ConfigFault::NoAudioTracks,
            ConfigError::NoMoments => ConfigFault::NoMoments,
            ConfigError::NoKeywords => ConfigFault::NoKeywords,
        }
    }

    /// The message for the user.
    pub fn message(&self) -> (m: String)
        ensures
            match *self {
                ConfigError::MissingInput => m@ == "Input file not specified"@,
                ConfigError::InputNotFound => m@ == "Input file does not exist"@,
                ConfigError::InvalidModel { name } => m@ == "Invalid model name: "@ + name@,
                ConfigError::NoAudioTracks => m@ == "No audio tracks specified"@,
                ConfigError::NoMoments => m@ == "No moments specified"@,
                ConfigError::NoKeywords => m@ == "No keywords specified"@,
            },
    {
        match self {
            ConfigError::MissingInput => String::from_str("Input file not specified"),
            ConfigError::InputNotFound => String::from_str("Input file does not exist"),
            ConfigError::InvalidModel { name } => {
                let mut m = String::from_str("Invalid model name: ");
                m.append(name.as_str());
                m
            },
            ConfigError::NoAudioTracks => String::from_str("No audio tracks specified"),
            ConfigError::NoMoments => String::from_str("No moments specified"),
            ConfigError::NoKeywords => String::from_str("No keywords specified"),
        }
    }
}

/// The tracks that are processed when none are named.
pub fn default_audio_tracks() -> (t: Vec<u32>)
    ensures
        t@ == default_tracks(),
{
    let mut t: Vec<u32> = Vec::new();
    t.push(1);
    t.push(2);
    assert(t@ =~= default_tracks());
    t
}

/// The directory that takes the clips when none is named.
pub fn default_output_dir() -> (d: String)
    ensures
        d@ == "output"@,
{
    String::from_str("output")
}

/// The model that is used when none is named.
pub fn default_model() -> (m: String)
    ensures
        m@ == "base"@,
{
    String::from_str("base")
}

/// The number of units on each side of a hit when none is configured.
pub fn default_line_buffer() -> (n: u32)
    ensures
        n == 5,
{
    5
}

/// The context size of the model when none is configured.
pub fn default_ctx_size() -> (n: u32)
    ensures
        n == 2048,
{
    2048
}

/// Tells whether `name` names a speech recognition model.
pub fn is_valid_model(name: &str) -> (r: bool)
    ensures
        r == is_model_name(name@),
{
    str_eq(name, "base") || str_eq(name, "tiny") || str_eq(name, "small") || str_eq(name, "medium")
        || str_eq(name, "large") || str_eq(name, "base.en") || str_eq(name, "tiny.en") || str_eq(
        name,
        "small.en",
    ) || str_eq(name, "medium.en") || str_eq(name, "large.en")
}

fn make_moments(texts: Vec<String>) -> (moments: Vec<Moment>)
    ensures
        moments@.map_values(|m: Moment| m@) == moments_for(texts_view(texts@)),
{
    let ghost all = texts_view(texts@);
    let mut moments: Vec<Moment> = Vec::new();
    for text in it: texts
        invariant
            texts_view(it.seq()) == all,
            moments@.map_values(|m: Moment| m@) == moments_for(all.take(it.index() as int)),
    {
        let ghost shown = moments@.map_values(|m: Moment| m@);
        let ghost t = text@;
        moments.push(Moment { text, clip: ClipConfig::default() });
        assert(moments@.map_values(|m: Moment| m@) == shown.push(
            MomentView { text: t, clip: ClipConfig { start_time: 30, end_time: 30 } },
        ));
        assert(all.take(it.index() + 1) == all.take(it.index() as int).push(t));
    }
    assert(all.take(all.len() as int) == all);
    moments
}

impl Default for Config {
    fn default() -> (c: Config)
        ensures
            c@ == default_view(),
    {
        let c = Config {
            clive: CliveConfig {
                whisper_model: default_model(),
                language_model: default_model(),
                embedding_model: default_model(),
            },
            llama: LlamaConfig::default(),
            tracks: TracksConfig { audio_tracks: default_audio_tracks() },
            moments: Vec::new(),
            output: OutputConfig { directory: default_output_dir() },
            line_buffer: LineBufferConfig::default(),
            input_file: None,
            given: CliGiven::default(),
        };
        assert(c@.moments =~= Seq::<MomentView>::empty());
        c
    }
}

impl Config {
    /// The configuration that command-line arguments alone give: the
    /// defaults, with the input path, with what was given of output
    /// directory, speech model and tracks, and with one moment for each
    /// text, each with the default reach of a clip.
    pub fn from_cli(
        input: String,
        output: Option<String>,
        model: Option<String>,
        tracks: Option<Vec<u32>>,
        moments: Vec<String>,
    ) -> (c: Config)
        ensures
            c@ == from_cli_view(
                input@,
                text_view(output),
                text_view(model),
                tracks_view(tracks),
                texts_view(moments@),
            ),
    {
        let mut config = Config::default();
        config.input_file = Some(input);
        config.given = CliGiven {
            output: output.is_some(),
            model: model.is_some(),
            tracks: tracks.is_some(),
        };
        match output {
            Some(output_dir) => {
                config.output.directory = output_dir;
            },
            None => {},
        }
        match model {
            Some(model_name) => {
                config.clive.whisper_model = model_name;
            },
            None => {},
        }
        match tracks {
            Some(track_list) => {
                config.tracks.audio_tracks = track_list;
            },
            None => {},
        }
        config.moments = make_moments(moments);
        config
    }

    /// Merges a command-line configuration into this one: its input path
    /// always; its moments, as a whole, if it names any; its tracks, its
    /// speech model and its output directory where the command line gave
    /// them, also where what it gave is the default.
    pub fn merge_cli(&mut self, cli_config: Config)
        ensures
            final(self)@ == merged_view(old(self)@, cli_config@),
    {
        self.input_file = cli_config.input_file;
        if cli_config.moments.len() > 0 {
            self.moments = cli_config.moments;
        }
        if cli_config.given.tracks {
            self.tracks.audio_tracks = cli_config.tracks.audio_tracks;
        }
        if cli_config.given.model {
            self.clive.whisper_model = cli_config.clive.whisper_model;
        }
        if cli_config.given.output {
            self.output.directory = cli_config.output.directory;
        }
    }

    /// Applies command-line arguments to this configuration: the input path
    /// always, every other argument only where it was given. Moments that
    /// are given replace the configured ones as a whole.
    pub fn apply_cli(
        &mut self,
        input: String,
        output: Option<String>,
        whisper_model: Option<String>,
        language_model: Option<String>,
        embedding_model: Option<String>,
        tracks: Option<Vec<u32>>,
        moments: Option<Vec<String>>,
    )
        ensures
            final(self)@ == applied_view(
                old(self)@,
                input@,
                text_view(output),
                text_view(whisper_model),
                text_view(language_model),
                text_view(embedding_model),
                tracks_view(tracks),
                match moments {
                    Some(m) => Some(texts_view(m@)),
                    None => None,
                },
            ),
    {
        self.input_file = Some(input);
        match output {
            Some(directory) => {
                self.output.directory = directory;
            },
            None => {},
        }
        match whisper_model {
            Some(name) => {
                self.clive.whisper_model = name;
            },
            None => {},
        }
        match language_model {
            Some(name) => {
                self.clive.language_model = name;
            },
            None => {},
        }
        match embedding_model {
            Some(name) => {
                self.clive.embedding_model = name;
            },
            None => {},
        }
        match tracks {
            Some(list) => {
                self.tracks.audio_tracks = list;
            },
            None => {},
        }
        match moments {
            Some(texts) => {
                self.moments = make_moments(texts);
            },
            None => {},
        }
    }

    /// Checks the configuration before anything is run. `input_exists`
    /// tells whether the input file is there. The first fault found is
    /// returned: a missing input path, an input file that does not exist,
    /// an unknown speech model, no audio track, no moment.
    pub fn validate(&self, input_exists: bool) -> (r: Result<(), ConfigError>)
        ensures
            match first_fault(
                self@.input_file,
                input_exists,
                self@.whisper_model,
                self@.audio_tracks.len(),
                self@.moments.len(),
                ConfigFault::NoMoments,
            ) {
                Some(fault) => r is Err && r->Err_0.fault() == fault,
                None => r is Ok,
            },
            r is Err && r->Err_0 is InvalidModel ==> r->Err_0->name@ == self@.whisper_model,
    {
        if self.input_file.is_none() {
            return Err(ConfigError::MissingInput);
        }
        if !input_exists {
            return Err(ConfigError::InputNotFound);
        }
        if !is_valid_model(self.clive.whisper_model.as_str()) {
            return Err(ConfigError::InvalidModel { name: self.clive.whisper_model.clone() });
        }
        if self.tracks.audio_tracks.len() == 0 {
            return Err(ConfigError::NoAudioTracks);
        }
        if self.moments.len() == 0 {
            return Err(ConfigError::NoMoments);
        }
        Ok(())
    }
}

} // verus!
