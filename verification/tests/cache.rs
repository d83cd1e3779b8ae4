use clive::cache::{clip_output_paths, is_audio_of, Cache};
use clive::paths::{join, stem_of};
use clive::text::push_decimal;
use std::path::Path;

fn setup_test_cache() -> Cache {
    Cache::new("/tmp/clive-cache".to_string())
}

#[test]
fn test_model_path() {
    let cache = setup_test_cache();
    let model_path = cache.model_path("base");
    assert_eq!(
        Path::new(&model_path).file_name().unwrap().to_string_lossy(),
        "ggml-base.bin"
    );
}

#[test]
fn directories_lie_under_the_root() {
    let cache = setup_test_cache();
    assert_eq!(cache.cache_dir(), "/tmp/clive-cache");
    assert_eq!(cache.models_dir(), "/tmp/clive-cache/models");
    assert_eq!(cache.audio_dir(), "/tmp/clive-cache/audio");
    assert_eq!(cache.transcription_dir(), "/tmp/clive-cache/transcriptions");
    assert_eq!(cache.clips_dir(), "/tmp/clive-cache/clips");
    let cache = Cache::new(".cache/clive/".to_string());
    assert_eq!(cache.models_dir(), ".cache/clive/models");
    let cache = Cache::new(String::new());
    assert_eq!(cache.clips_dir(), "clips");
}

#[test]
fn model_paths_are_named_by_kind() {
    let cache = setup_test_cache();
    assert_eq!(cache.model_path("tiny.en"), "/tmp/clive-cache/models/ggml-tiny.en.bin");
    assert_eq!(cache.embedding_model_path("base"), "/tmp/clive-cache/models/embedding-base.bin");
    assert_eq!(cache.language_model_path("small"), "/tmp/clive-cache/models/llm-small.bin");
}

#[test]
fn artifacts_are_named_by_the_stem_of_the_input() {
    let cache = setup_test_cache();
    assert_eq!(cache.audio_path("test.mp4", 1), "/tmp/clive-cache/audio/test_track_1.wav");
    assert_eq!(
        cache.audio_path("/videos/game.night.mkv", 12),
        "/tmp/clive-cache/audio/game.night_track_12.wav"
    );
    assert_eq!(cache.transcription_path("test.mp4"), "/tmp/clive-cache/transcriptions/test.json");
    assert_eq!(cache.clips_path("dir/test.mp4"), "/tmp/clive-cache/clips/test_clips.json");
    // The same stem gives the same path, whatever the directory and the extension.
    assert_eq!(cache.transcription_path("a/x.mp4"), cache.transcription_path("b/x.mkv"));
}

#[test]
fn stem_is_the_last_component_up_to_its_last_dot() {
    for (path, stem) in [
        ("test.mp4", "test"),
        ("/a/b/test.mp4", "test"),
        ("a/b.c/d", "d"),
        ("archive.tar.gz", "archive.tar"),
        (".hidden", ".hidden"),
        ("dir/.hidden", ".hidden"),
        ("noext", "noext"),
        ("trailing.", "trailing"),
        ("a.b/c.d.e", "c.d"),
        ("über.mp4", "über"),
        ("...", ".."),
        ("..a", "."),
        ("", ""),
        ("..", ""),
        ("x/..", ""),
        // A path that ends in `/` names no file.
        ("/", ""),
        ("dir/", ""),
        ("dir//", ""),
        // A component `.` is a name like any other.
        ("dir/.", "."),
    ] {
        assert_eq!(stem_of(path), stem, "for {:?}", path);
    }
}

#[test]
fn stem_of_a_file_path_is_what_the_system_takes_it_for() {
    // Paths that name a file: they do not end in `/` or in a component `.`.
    for path in [
        "test.mp4", "/a/b/test.mp4", "a/b.c/d", "archive.tar.gz", ".hidden", "dir/.hidden",
        "noext", "trailing.", "a.b/c.d.e", "", "..", "x/..", "über.mp4", "...", "..a",
        "/videos/game night.mkv",
    ] {
        let expected = Path::new(path)
            .file_stem()
            .map(|s| s.to_string_lossy().into_owned())
            .unwrap_or_default();
        assert_eq!(stem_of(path), expected, "for {:?}", path);
    }
}

#[test]
fn join_puts_one_separator_between() {
    assert_eq!(join("a", "b"), "a/b");
    assert_eq!(join("a/", "b"), "a/b");
    assert_eq!(join("", "b"), "b");
    assert_eq!(join("a", "/b"), "/b");
    assert_eq!(join("a", ""), "a/");
    for (dir, name) in [("a", "b"), ("a/", "b"), ("", "b"), ("a", "/b"), ("/", "x"), ("a/b", "c.d")] {
        assert_eq!(Path::new(&join(dir, name)), Path::new(dir).join(name).as_path());
    }
}

#[test]
fn numbers_are_written_in_decimal() {
    for n in [0u64, 1, 9, 10, 11, 99, 100, 101, 12345, 4000000000, 4294967295, u64::MAX] {
        let mut s = String::from("n=");
        push_decimal(&mut s, n);
        assert_eq!(s, format!("n={}", n));
    }
}

#[test]
fn audio_of_an_input_is_known_by_its_name() {
    assert!(is_audio_of("test_track_1.wav", "test"));
    assert!(is_audio_of("test_track_0.wav", "test"));
    assert!(is_audio_of("test_track_4294967295.wav", "test"));
    assert!(is_audio_of("a_track_1_track_2.wav", "a_track_1"));
    assert!(is_audio_of("test_track_10.wav", "test"));
    assert!(is_audio_of("test_track_19.wav", "test"));
    assert!(is_audio_of("_track_7.wav", ""));
    for name in [
        "test_track_.wav", "test_track_01.wav", "test_track_4294967296.wav", "test_track_1.mp3",
        "test_track_1.wav.bak", "testing_track_1.wav", "test2_track_1.wav", "est_track_1.wav",
        "test_track_1", "test.json", "", "test_track_x.wav", "Test_track_1.wav",
        "test_track_00.wav", "test_track_007.wav", "test_track_99999999999999999999.wav",
        "test_track_1a.wav", "test_track_-1.wav", "test_track_+1.wav", "test_track_ 1.wav",
        "test_track_1 .wav", "test_track_\u{661}.wav",
    ] {
        assert!(!is_audio_of(name, "test"), "for {:?}", name);
    }
}

#[test]
fn cleanup_names_what_belongs_to_the_input() {
    let cache = setup_test_cache();
    let listing: Vec<String> = ["other_track_1.wav", "test_track_2.wav", "testing_track_1.wav", "test_track_1.wav", "notes.txt"]
        .iter()
        .map(|s| s.to_string())
        .collect();
    assert_eq!(
        cache.cleanup_for_input("/videos/test.mp4", &listing),
        vec![
            "/tmp/clive-cache/audio/test_track_2.wav",
            "/tmp/clive-cache/audio/test_track_1.wav",
            "/tmp/clive-cache/transcriptions/test.json",
            "/tmp/clive-cache/clips/test_clips.json",
        ]
    );
    assert_eq!(
        cache.cleanup_for_input("test.mp4", &Vec::new()),
        vec!["/tmp/clive-cache/transcriptions/test.json", "/tmp/clive-cache/clips/test_clips.json"]
    );
}

#[test]
fn clips_are_numbered_from_one() {
    assert_eq!(
        clip_output_paths("output", "/videos/game.mp4", 3),
        vec!["output/clip_1_game.mp4", "output/clip_2_game.mp4", "output/clip_3_game.mp4"]
    );
    assert!(clip_output_paths("output", "game.mp4", 0).is_empty());
    assert_eq!(clip_output_paths("out/", "g.mkv", 12)[11], "out/clip_12_g.mp4");
}

#[test]
fn cache_lies_in_the_cache_directory_of_the_system() {
    assert_eq!(Cache::in_system_dir(Some("/home/u/.cache")).cache_dir(), "/home/u/.cache/clive");
    assert_eq!(Cache::in_system_dir(None).cache_dir(), ".cache/clive");
    assert_eq!(Cache::in_system_dir(None).audio_dir(), ".cache/clive/audio");
}

#[test]
fn default_cache_is_named_after_the_program() {
    let cache = Cache::default();
    let root = cache.cache_dir().to_string();
    assert_eq!(Path::new(&root).file_name().unwrap().to_string_lossy(), "clive");
    assert_eq!(cache.models_dir(), join(&root, "models"));
    let expected = match dirs::cache_dir() {
        Some(dir) => Cache::in_system_dir(Some(&dir.to_string_lossy())),
        None => Cache::in_system_dir(None),
    };
    assert_eq!(cache.cache_dir(), expected.cache_dir());
}
