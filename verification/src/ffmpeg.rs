//! What the media cutter is asked to do: the arguments of each call of
//! `ffmpeg`. Running it is left to the caller.

use vstd::prelude::*;
use crate::config::texts_view;
use crate::text::{decimal, digit, push_decimal};

verus! {

/// Why no arguments could be given.
#[derive(Debug, Clone, Copy, PartialEq, Eq, Structural)]
pub enum FFmpegError {
    /// Audio tracks are counted from 1.
    InvalidTrack,
}

impl FFmpegError {
    /// The message for the user.
    pub fn message(&self) -> (m: String)
        ensures
            m@ == "audio tracks are counted from 1"@,
    {
        String::from_str("audio tracks are counted from 1")
    }
}

/// The stream of the audio track with the given number, counted from 1.
pub open spec fn track_map(track: nat) -> Seq<char> {
    "0:a:"@ + decimal((track - 1) as nat)
}

/// The arguments that select the audio tracks, one after the other.
pub open spec fn track_maps(tracks: Seq<u32>) -> Seq<Seq<char>>
    decreases tracks.len(),
{
    if tracks.len() == 0 {
        Seq::empty()
    } else {
        track_maps(tracks.drop_last()).push("-map"@).push(track_map(tracks.last() as nat))
    }
}

/// The arguments that extract audio tracks as 16 kHz mono WAV.
pub open spec fn extract_audio_args(input: Seq<char>, output: Seq<char>, tracks: Seq<u32>) -> Seq<
    Seq<char>,
> {
    seq!["-i"@, input] + track_maps(tracks) + seq![
        "-f"@,
        "wav"@,
        "-acodec"@,
        "pcm_s16le"@,
        "-ar"@,
        "16000"@,
        "-ac"@,
        "1"@,
        "-vn"@,
        "-y"@,
        output,
    ]
}

/// A time in ticks written in seconds, with two decimal places.
pub open spec fn seconds_text(ticks: int) -> Seq<char> {
    let size = if ticks < 0 {
        -ticks
    } else {
        ticks
    };
    let sign = if ticks < 0 {
        seq!['-']
    } else {
        Seq::empty()
    };
    sign + decimal((size / 100) as nat) + seq!['.', digit(((size / 10) % 10) as nat), digit((size % 10) as nat)]
}

/// The arguments that cut the time from `start` to `end` out of the input,
/// without re-encoding.
pub open spec fn create_clip_args(input: Seq<char>, output: Seq<char>, start: int, end: int) -> Seq<
    Seq<char>,
> {
    seq![
        "-i"@,
        input,
        "-ss"@,
        seconds_text(start),
        "-t"@,
        seconds_text(end - start),
        "-c:v"@,
        "copy"@,
        "-c:a"@,
        "copy"@,
        output,
        "-y"@,
    ]
}

/// The list of the clips to join: a line for each.
pub open spec fn concat_list(clips: Seq<Seq<char>>) -> Seq<char>
    decreases clips.len(),
{
    if clips.len() == 0 {
        Seq::empty()
    } else {
        concat_list(clips.drop_last()) + "file '"@ + clips.last() + "'\n"@
    }
}

/// The arguments that join the clips of a list into one file.
pub open spec fn combine_clips_args(list: Seq<char>, output: Seq<char>) -> Seq<Seq<char>> {
    seq!["-f"@, "concat"@, "-safe"@, "0"@, "-i"@, list, "-c"@, "copy"@, output, "-y"@]
}

/// Every track has a number of 1 or more.
pub open spec fn tracks_valid(tracks: Seq<u32>) -> bool {
    forall|i: int| 0 <= i < tracks.len() ==> #[trigger] tracks[i] >= 1
}

fn push_arg(args: &mut Vec<String>, arg: &str)
    ensures
        texts_view(final(args)@) == texts_view(old(args)@).push(arg@),
{
    let ghost shown = texts_view(args@);
    args.push(String::from_str(arg));
    assert(texts_view(args@) =~= shown.push(arg@));
}

fn push_owned(args: &mut Vec<String>, arg: String)
    ensures
        texts_view(final(args)@) == texts_view(old(args)@).push(arg@),
{
    let ghost shown = texts_view(args@);
    let ghost text = arg@;
    args.push(arg);
    assert(texts_view(args@) =~= shown.push(text));
}

/// Appends a time in ticks, written in seconds, to `s`.
fn push_seconds(s: &mut String, ticks: i128)
    requires
        -0x1_0000_0000_0000_0000 < ticks < 0x1_0000_0000_0000_0000,
    ensures
        final(s)@ == old(s)@ + seconds_text(ticks as int),
{
    let ghost before = s@;
    let size: u64 = if ticks < 0 {
        proof {
            reveal_strlit("-");
        }
        s.append("-");
        (-ticks) as u64
    } else {
        ticks as u64
    };
    push_decimal(s, size / 100);
    proof {
        reveal_strlit(".");
    }
    s.append(".");
    push_decimal(s, (size / 10) % 10);
    push_decimal(s, size % 10);
    proof {
        assert(decimal(((size / 10) % 10) as nat) =~= seq![digit(((size / 10) % 10) as nat)]);
        assert(decimal((size % 10) as nat) =~= seq![digit((size % 10) as nat)]);
        assert(s@ =~= before + seconds_text(ticks as int));
    }
}

/// Plans the calls of the media cutter.
pub struct FFmpeg {}

impl FFmpeg {
    /// The arguments that extract the audio tracks with the given numbers,
    /// counted from 1, from the input into one WAV file: 16-bit samples at
    /// 16 kHz, one channel, no video. A track with the number 0 is refused.
    pub fn extract_audio_tracks(input_path: &str, output_path: &str, tracks: &Vec<u32>) -> (r: Result<
        Vec<String>,
        FFmpegError,
    >)
        ensures
            tracks_valid(tracks@) ==> r is Ok && texts_view(r->Ok_0@) == extract_audio_args(
                input_path@,
                output_path@,
                tracks@,
            ),
            !tracks_valid(tracks@) ==> r == Err::<Vec<String>, FFmpegError>(FFmpegError::InvalidTrack),
    {
        let mut args: Vec<String> = Vec::new();
        assert(texts_view(args@) =~= Seq::<Seq<char>>::empty());
        push_arg(&mut args, "-i");
        push_arg(&mut args, input_path);
        let ghost head = seq!["-i"@, input_path@];
        assert(texts_view(args@) =~= head);
        assert(tracks@.take(0) =~= Seq::<u32>::empty());
        let mut i: usize = 0;
        while i < tracks.len()
            invariant
                i <= tracks.len(),
                head == seq!["-i"@, input_path@],
                tracks_valid(tracks@.take(i as int)),
                texts_view(args@) == head + track_maps(tracks@.take(i as int)),
            decreases tracks.len() - i,
        {
            let track = tracks[i];
            if track == 0 {
                return Err(FFmpegError::InvalidTrack);
            }
            let mut map = String::from_str("0:a:");
            push_decimal(&mut map, (track - 1) as u64);
            push_arg(&mut args, "-map");
            push_owned(&mut args, map);
            proof {
                let next = tracks@.take(i + 1);
                assert(next.drop_last() == tracks@.take(i as int));
                assert(next.last() == track);
                assert(texts_view(args@) =~= head + track_maps(next));
                assert forall|j: int| 0 <= j < next.len() implies #[trigger] next[j] >= 1 by {
                    if j < i {
                        assert(tracks@.take(i as int)[j] == next[j]);
                    }
                }
            }
            i += 1;
        }
        assert(tracks@.take(tracks.len() as int) == tracks@);
        push_arg(&mut args, "-f");
        push_arg(&mut args, "wav");
        push_arg(&mut args, "-acodec");
        push_arg(&mut args, "pcm_s16le");
        push_arg(&mut args, "-ar");
        push_arg(&mut args, "16000");
        push_arg(&mut args, "-ac");
        push_arg(&mut args, "1");
        push_arg(&mut args, "-vn");
        push_arg(&mut args, "-y");
        push_arg(&mut args, output_path);
        assert(texts_view(args@) =~= extract_audio_args(input_path@, output_path@, tracks@));
        Ok(args)
    }

    /// The arguments that cut the time from `start_time` to `end_time`,
    /// both in ticks, out of the input, copying the video and the audio as
    /// they are.
    pub fn create_clip(input_path: &str, output_path: &str, start_time: i64, end_time: i64) -> (args: Vec<
        String,
    >)
        ensures
            texts_view(args@) == create_clip_args(
                input_path@,
                output_path@,
                start_time as int,
                end_time as int,
            ),
    {
        let mut start = String::new();
        push_seconds(&mut start, start_time as i128);
        let mut length = String::new();
        push_seconds(&mut length, end_time as i128 - start_time as i128);
        let mut args: Vec<String> = Vec::new();
        assert(texts_view(args@) =~= Seq::<Seq<char>>::empty());
        push_arg(&mut args, "-i");
        push_arg(&mut args, input_path);
        push_arg(&mut args, "-ss");
        push_owned(&mut args, start);
        push_arg(&mut args, "-t");
        push_owned(&mut args, length);
        push_arg(&mut args, "-c:v");
        push_arg(&mut args, "copy");
        push_arg(&mut args, "-c:a");
        push_arg(&mut args, "copy");
        push_arg(&mut args, output_path);
        push_arg(&mut args, "-y");
        assert(texts_view(args@) =~= create_clip_args(
            input_path@,
            output_path@,
            start_time as int,
            end_time as int,
        ));
        args
    }

    /// What joins clips into one file: the list of the clips, a line for
    /// each, which is to stand in the file `list_path`, and the arguments
    /// that join what the list names.
    pub fn combine_clips(clip_paths: &Vec<String>, list_path: &str, output_path: &str) -> (r: (
        String,
        Vec<String>,
    ))
        ensures
            r.0@ == concat_list(texts_view(clip_paths@)),
            texts_view(r.1@) == combine_clips_args(list_path@, output_path@),
    {
        let ghost clips = texts_view(clip_paths@);
        let mut list = String::new();
        let mut i: usize = 0;
        assert(clips.take(0) =~= Seq::<Seq<char>>::empty());
        while i < clip_paths.len()
            invariant
                i <= clip_paths.len(),
                clips == texts_view(clip_paths@),
                list@ == concat_list(clips.take(i as int)),
            decreases clip_paths.len() - i,
        {
            proof {
                let next = clips.take(i + 1);
                assert(next.drop_last() == clips.take(i as int));
                assert(next.last() == clip_paths@[i as int]@);
            }
            list.append("file '");
            list.append(clip_paths[i].as_str());
            list.append("'\n");
            i += 1;
        }
        assert(clips.take(clip_paths.len() as int) == clips);
        let mut args: Vec<String> = Vec::new();
        assert(texts_view(args@) =~= Seq::<Seq<char>>::empty());
        push_arg(&mut args, "-f");
        push_arg(&mut args, "concat");
        push_arg(&mut args, "-safe");
        push_arg(&mut args, "0");
        push_arg(&mut args, "-i");
        push_arg(&mut args, list_path);
        push_arg(&mut args, "-c");
        push_arg(&mut args, "copy");
        push_arg(&mut args, output_path);
        push_arg(&mut args, "-y");
        assert(texts_view(args@) =~= combine_clips_args(list_path@, output_path@));
        (list, args)
    }
}

} // verus!
