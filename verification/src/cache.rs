//! Where the artifacts of a run lie: models, extracted audio, transcripts and
//! clip lists, each in a directory of its own under one root, and named after
//! the stem of the input file.

use vstd::prelude::*;
use crate::paths::{file_stem, join, joined, stem_of};
use crate::text::{
    chars_of, decimal, lemma_decimal_parse, lemma_parse_decimal, parse_decimal, push_decimal,
    read_decimal,
};

verus! {

/// The directories of the cache and the names of what lies in them.
#[derive(Debug, Clone)]
pub struct Cache {
    cache_dir: String,
    models_dir: String,
    audio_dir: String,
    transcription_dir: String,
    clips_dir: String,
}

/// Mathematical model of a [`Cache`]: its directories.
pub struct CacheView {
    pub cache_dir: Seq<char>,
    pub models_dir: Seq<char>,
    pub audio_dir: Seq<char>,
    pub transcription_dir: Seq<char>,
    pub clips_dir: Seq<char>,
}

/// The directories of the cache under the root `root`.
pub open spec fn layout(root: Seq<char>) -> CacheView {
    CacheView {
        cache_dir: root,
        models_dir: joined(root, "models"@),
        audio_dir: joined(root, "audio"@),
        transcription_dir: joined(root, "transcriptions"@),
        clips_dir: joined(root, "clips"@),
    }
}

/// The name of the audio file of one track of an input.
pub open spec fn audio_file_name(stem: Seq<char>, track: nat) -> Seq<char> {
    stem + "_track_"@ + decimal(track) + ".wav"@
}

/// The name is that of the audio file of one of the tracks of an input
/// with the given stem.
pub open spec fn is_audio_file_of(name: Seq<char>, stem: Seq<char>) -> bool {
    exists|track: nat| track <= u32::MAX && name == #[trigger] audio_file_name(stem, track)
}

/// The name of the file of a clip: `clip_`, the number of the clip, `_`,
/// the stem of the input, and `.mp4`.
pub open spec fn clip_file_name(number: nat, stem: Seq<char>) -> Seq<char> {
    "clip_"@ + decimal(number) + "_"@ + stem + ".mp4"@
}

/// The root of the cache: `clive` in the cache directory of the system, or
/// in `.cache` where the system names none.
pub open spec fn default_root(system_cache_dir: Option<Seq<char>>) -> Seq<char> {
    match system_cache_dir {
        Some(dir) => joined(dir, "clive"@),
        None => joined(".cache"@, "clive"@),
    }
}

/// What stands in the audio directory under the names `files` and belongs
/// to the input with the given stem.
pub open spec fn audio_of(audio_dir: Seq<char>, stem: Seq<char>, files: Seq<Seq<char>>) -> Seq<
    Seq<char>,
>
    decreases files.len(),
{
    if files.len() == 0 {
        Seq::empty()
    } else {
        let rest = audio_of(audio_dir, stem, files.drop_last());
        if is_audio_file_of(files.last(), stem) {
            rest.push(joined(audio_dir, files.last()))
        } else {
            rest
        }
    }
}

impl View for Cache {
    type V = CacheView;

    closed spec fn view(&self) -> CacheView {
        CacheView {
            cache_dir: self.cache_dir@,
            models_dir: self.models_dir@,
            audio_dir: self.audio_dir@,
            transcription_dir: self.transcription_dir@,
            clips_dir: self.clips_dir@,
        }
    }
}

/// What holds of a name of `prefix`, a number and `suffix`.
spec fn framed(chars: Seq<char>, prefix: Seq<char>, suffix: Seq<char>, number: nat) -> bool {
    &&& chars.len() > prefix.len() + suffix.len()
    &&& chars.subrange(0, prefix.len() as int) == prefix
    &&& chars.subrange(chars.len() - suffix.len(), chars.len() as int) == suffix
    &&& parse_decimal(chars.subrange(prefix.len() as int, chars.len() - suffix.len())) == Some(number)
}

/// Tells whether `name` is the name of the audio file of one of the tracks
/// of an input with the stem `stem`.
pub fn is_audio_of(name: &str, stem: &str) -> (r: bool)
    ensures
        r == is_audio_file_of(name@, stem@),
{
    let mut front = String::from_str(stem);
    front.append("_track_");
    let prefix = chars_of(front.as_str());
    let suffix = chars_of(".wav");
    let chars = chars_of(name);
    proof {
        reveal_strlit("_track_");
        reveal_strlit(".wav");
        assert(suffix@.len() == 4);
        assert(prefix@.len() == stem@.len() + 7);
        assert forall|track: nat| name@ == #[trigger] audio_file_name(stem@, track) implies framed(
            chars@,
            prefix@,
            suffix@,
            track,
        ) by {
            lemma_parse_decimal(track);
            assert(chars@ == prefix@ + decimal(track) + suffix@);
            assert(chars@.subrange(0, prefix@.len() as int) =~= prefix@);
            assert(chars@.subrange(chars@.len() - 4, chars@.len() as int) =~= suffix@);
            assert(chars@.subrange(prefix@.len() as int, chars@.len() - 4) =~= decimal(track));
        }
    }
    let n = chars.len();
    let p = prefix.len();
    if n < 4 || n - 4 <= p {
        return false;
    }
    let mut i: usize = 0;
    while i < p
        invariant
            i <= p < n - 4,
            n == chars.len(),
            p == prefix.len(),
            suffix@.len() == 4,
            forall|track: nat|
                name@ == #[trigger] audio_file_name(stem@, track) ==> framed(
                    chars@,
                    prefix@,
                    suffix@,
                    track,
                ),
            forall|j: int| 0 <= j < i ==> chars@[j] == prefix@[j],
        decreases p - i,
    {
        if chars[i] != prefix[i] {
            assert(chars@.subrange(0, p as int)[i as int] != prefix@[i as int]);
            return false;
        }
        i += 1;
    }
    assert(chars@.subrange(0, p as int) =~= prefix@);
    let mut k: usize = 0;
    while k < 4
        invariant
            k <= 4,
            p < n - 4,
            n == chars.len(),
            p == prefix.len(),
            suffix@.len() == 4,
            forall|track: nat|
                name@ == #[trigger] audio_file_name(stem@, track) ==> framed(
                    chars@,
                    prefix@,
                    suffix@,
                    track,
                ),
            forall|j: int| 0 <= j < k ==> chars@[n - 4 + j] == suffix@[j],
        decreases 4 - k,
    {
        if chars[n - 4 + k] != suffix[k] {
            assert(chars@.subrange(n - 4, n as int)[k as int] != suffix@[k as int]);
            return false;
        }
        k += 1;
    }
    assert(chars@.subrange(n - 4, n as int) =~= suffix@);
    match read_decimal(&chars, p, n - 4) {
        Some(track) => {
            proof {
                let middle = chars@.subrange(p as int, n - 4);
                lemma_decimal_parse(middle, track as nat);
                assert(chars@ =~= prefix@ + middle + suffix@);
                assert(name@ == audio_file_name(stem@, track as nat));
            }
            true
        },
        None => false,
    }
}

/// The paths of the files of the first `count` clips of an input in the
/// directory `output_dir`, in order. The clips are numbered from 1.
pub fn clip_output_paths(output_dir: &str, input_path: &str, count: usize) -> (paths: Vec<String>)
    ensures
        paths.len() == count,
        forall|i: int|
            0 <= i < count ==> (#[trigger] paths[i])@ == joined(
                output_dir@,
                clip_file_name((i + 1) as nat, file_stem(input_path@)),
            ),
{
    let stem = stem_of(input_path);
    let mut paths: Vec<String> = Vec::new();
    let mut i: usize = 0;
    while i < count
        invariant
            i <= count,
            paths.len() == i,
            stem@ == file_stem(input_path@),
            forall|j: int|
                0 <= j < i ==> (#[trigger] paths[j])@ == joined(
                    output_dir@,
                    clip_file_name((j + 1) as nat, file_stem(input_path@)),
                ),
        decreases count - i,
    {
        let mut name = String::from_str("clip_");
        push_decimal(&mut name, i as u64 + 1);
        name.append("_");
        name.append(stem.as_str());
        name.append(".mp4");
        paths.push(join(output_dir, name.as_str()));
        i += 1;
    }
    paths
}

/// Asks `dirs::cache_dir` for the cache directory of the user. Nothing is
/// claimed of the answer: it depends on the platform and on its
/// environment, and there may be none.
#[verifier::external_body]
fn system_cache_dir() -> (dir: Option<String>) {
    match dirs::cache_dir() {
        Some(path) => Some(path.to_string_lossy().into_owned()),
        None => None,
    }
}

impl Default for Cache {
    /// The cache in its usual place, whatever the system names as the cache
    /// directory of the user.
    fn default() -> (c: Cache)
        ensures
            exists|dir: Option<Seq<char>>| c@ == layout(#[trigger] default_root(dir)),
    {
        let dir = system_cache_dir();
        let c = match &dir {
            Some(d) => Cache::in_system_dir(Some(d.as_str())),
            None => Cache::in_system_dir(None),
        };
        assert(c@ == layout(
            default_root(
                match dir {
                    Some(d) => Some(d@),
                    None => None,
                },
            ),
        ));
        c
    }
}

impl Cache {
    /// The cache in its usual place: `clive` in the cache directory of the
    /// system, or in `.cache` where the system names none.
    pub fn in_system_dir(system_cache_dir: Option<&str>) -> (c: Cache)
        ensures
            c@ == layout(
                default_root(
                    match system_cache_dir {
                        Some(dir) => Some(dir@),
                        None => None,
                    },
                ),
            ),
    {
        let root = match system_cache_dir {
            Some(dir) => join(dir, "clive"),
            None => join(".cache", "clive"),
        };
        Cache::new(root)
    }

    /// What is to be removed to forget an input: its audio among the files
    /// `audio_files` of the audio directory, in the order in which they are
    /// listed, then its transcript and its clip list. The models stay.
    pub fn cleanup_for_input(&self, input_path: &str, audio_files: &Vec<String>) -> (paths: Vec<String>)
        ensures
            crate::config::texts_view(paths@) == audio_of(
                self@.audio_dir,
                file_stem(input_path@),
                crate::config::texts_view(audio_files@),
            ).push(joined(self@.transcription_dir, file_stem(input_path@) + ".json"@)).push(
                joined(self@.clips_dir, file_stem(input_path@) + "_clips.json"@),
            ),
    {
        let stem = stem_of(input_path);
        let ghost files = crate::config::texts_view(audio_files@);
        let mut paths: Vec<String> = Vec::new();
        let mut i: usize = 0;
        assert(crate::config::texts_view(paths@) =~= Seq::<Seq<char>>::empty());
        assert(files.take(0) =~= Seq::<Seq<char>>::empty());
        while i < audio_files.len()
            invariant
                i <= audio_files.len(),
                stem@ == file_stem(input_path@),
                files == crate::config::texts_view(audio_files@),
                crate::config::texts_view(paths@) == audio_of(self@.audio_dir, stem@, files.take(i as int)),
            decreases audio_files.len() - i,
        {
            let ghost shown = crate::config::texts_view(paths@);
            proof {
                assert(files.take(i + 1).drop_last() == files.take(i as int));
                assert(files.take(i + 1).last() == audio_files@[i as int]@);
            }
            if is_audio_of(audio_files[i].as_str(), stem.as_str()) {
                paths.push(join(self.audio_dir.as_str(), audio_files[i].as_str()));
                assert(crate::config::texts_view(paths@) == shown.push(
                    joined(self@.audio_dir, audio_files@[i as int]@),
                ));
            }
            i += 1;
        }
        assert(files.take(audio_files.len() as int) == files);
        let ghost audio = crate::config::texts_view(paths@);
        paths.push(self.transcription_path(input_path));
        paths.push(self.clips_path(input_path));
        assert(crate::config::texts_view(paths@) == audio.push(
            joined(self@.transcription_dir, file_stem(input_path@) + ".json"@),
        ).push(joined(self@.clips_dir, file_stem(input_path@) + "_clips.json"@)));
        paths
    }

    /// The cache under the root directory `cache_dir`: models in `models`,
    /// audio in `audio`, transcripts in `transcriptions` and clip lists in
    /// `clips`.
    pub fn new(cache_dir: String) -> (c: Cache)
        ensures
            c@ == layout(cache_dir@),
    {
        let models_dir = join(cache_dir.as_str(), "models");
        let audio_dir = join(cache_dir.as_str(), "audio");
        let transcription_dir = join(cache_dir.as_str(), "transcriptions");
        let clips_dir = join(cache_dir.as_str(), "clips");
        Cache { cache_dir, models_dir, audio_dir, transcription_dir, clips_dir }
    }

    /// The root directory.
    pub fn cache_dir(&self) -> (d: &str)
        ensures
            d@ == self@.cache_dir,
    {
        self.cache_dir.as_str()
    }

    /// The directory of the models.
    pub fn models_dir(&self) -> (d: &str)
        ensures
            d@ == self@.models_dir,
    {
        self.models_dir.as_str()
    }

    /// The directory of the extracted audio.
    pub fn audio_dir(&self) -> (d: &str)
        ensures
            d@ == self@.audio_dir,
    {
        self.audio_dir.as_str()
    }

    /// The directory of the transcripts.
    pub fn transcription_dir(&self) -> (d: &str)
        ensures
            d@ == self@.transcription_dir,
    {
        self.transcription_dir.as_str()
    }

    /// The directory of the clip lists.
    pub fn clips_dir(&self) -> (d: &str)
        ensures
            d@ == self@.clips_dir,
    {
        self.clips_dir.as_str()
    }

    fn model_file(&self, prefix: &str, model_name: &str) -> (p: String)
        ensures
            p@ == joined(self@.models_dir, prefix@ + model_name@ + ".bin"@),
    {
        let mut name = String::from_str(prefix);
        name.append(model_name);
        name.append(".bin");
        join(self.models_dir.as_str(), name.as_str())
    }

    /// The path of a speech recognition model: `ggml-`, its name and `.bin`,
    /// in the directory of the models.
    pub fn model_path(&self, model_name: &str) -> (p: String)
        ensures
            p@ == joined(self@.models_dir, "ggml-"@ + model_name@ + ".bin"@),
    {
        self.model_file("ggml-", model_name)
    }

    /// The path of an embedding model: `embedding-`, its name and `.bin`,
    /// in the directory of the models.
    pub fn embedding_model_path(&self, model_name: &str) -> (p: String)
        ensures
            p@ == joined(self@.models_dir, "embedding-"@ + model_name@ + ".bin"@),
    {
        self.model_file("embedding-", model_name)
    }

    /// The path of a language model: `llm-`, its name and `.bin`, in the
    /// directory of the models.
    pub fn language_model_path(&self, model_name: &str) -> (p: String)
        ensures
            p@ == joined(self@.models_dir, "llm-"@ + model_name@ + ".bin"@),
    {
        self.model_file("llm-", model_name)
    }

    /// The path of the audio of one track of an input: the stem of the
    /// input, `_track_`, the number of the track and `.wav`, in the
    /// directory of the audio.
    pub fn audio_path(&self, input_path: &str, track: u32) -> (p: String)
        ensures
            p@ == joined(self@.audio_dir, audio_file_name(file_stem(input_path@), track as nat)),
    {
        let mut name = stem_of(input_path);
        name.append("_track_");
        push_decimal(&mut name, track as u64);
        name.append(".wav");
        join(self.audio_dir.as_str(), name.as_str())
    }

    /// The path of the transcript of an input: the stem of the input and
    /// `.json`, in the directory of the transcripts.
    pub fn transcription_path(&self, input_path: &str) -> (p: String)
        ensures
            p@ == joined(self@.transcription_dir, file_stem(input_path@) + ".json"@),
    {
        let mut name = stem_of(input_path);
        name.append(".json");
        join(self.transcription_dir.as_str(), name.as_str())
    }

    /// The path of the clip list of an input: the stem of the input and
    /// `_clips.json`, in the directory of the clip lists.
    pub fn clips_path(&self, input_path: &str) -> (p: String)
        ensures
            p@ == joined(self@.clips_dir, file_stem(input_path@) + "_clips.json"@),
    {
        let mut name = stem_of(input_path);
        name.append("_clips.json");
        join(self.clips_dir.as_str(), name.as_str())
    }
}

} // verus!
