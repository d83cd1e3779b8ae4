use clive::config::{
    default_audio_tracks, default_ctx_size, default_line_buffer, default_model, default_output_dir,
    is_valid_model, CliGiven, ClipConfig, Config, ConfigError, LineBufferConfig, LlamaConfig,
    Moment,
};
use std::path::PathBuf;

#[test]
fn test_default_config() {
    let config = Config::default();
    assert_eq!(config.clive.whisper_model, "base");
    assert_eq!(config.tracks.audio_tracks, vec![1, 2]);
    assert!(config.moments.is_empty());
    assert_eq!(PathBuf::from(config.output.directory), PathBuf::from("output"));
}

#[test]
fn test_config_from_cli() {
    let input = PathBuf::from("test.mp4");
    let moments = vec!["test1".to_string(), "test2".to_string()];

    let config = Config::from_cli(input.to_string_lossy().into_owned(), None, None, None, moments);

    assert_eq!(PathBuf::from(config.input_file.unwrap()), input);
    assert_eq!(config.moments.len(), 2);
    assert!(config.moments.iter().any(|m| m.text == "test1"));
    assert!(config.moments.iter().any(|m| m.text == "test2"));
}

#[test]
fn defaults_have_their_values() {
    assert_eq!(default_audio_tracks(), vec![1, 2]);
    assert_eq!(default_output_dir(), "output");
    assert_eq!(default_model(), "base");
    assert_eq!(default_line_buffer(), 5);
    assert_eq!(default_ctx_size(), 2048);
    assert_eq!(ClipConfig::default(), ClipConfig { start_time: 30, end_time: 30 });
    assert_eq!(LineBufferConfig::default(), LineBufferConfig { before: 5, after: 5 });
    assert_eq!(
        LlamaConfig::default(),
        LlamaConfig { ctx_size: 2048, n_threads: None, n_batch: None, seed: None, disable_gpu: false }
    );
    let config = Config::default();
    assert_eq!(config.clive.language_model, "base");
    assert_eq!(config.clive.embedding_model, "base");
    assert_eq!(config.line_buffer, LineBufferConfig { before: 5, after: 5 });
    assert_eq!(config.input_file, None);
}

#[test]
fn from_cli_takes_what_is_given() {
    let config = Config::from_cli(
        "in.mkv".to_string(),
        Some("clips".to_string()),
        Some("small.en".to_string()),
        Some(vec![3]),
        vec!["a goal".to_string()],
    );
    assert_eq!(config.input_file, Some("in.mkv".to_string()));
    assert_eq!(config.output.directory, "clips");
    assert_eq!(config.clive.whisper_model, "small.en");
    assert_eq!(config.clive.language_model, "base");
    assert_eq!(config.tracks.audio_tracks, vec![3]);
    assert_eq!(config.moments.len(), 1);
    assert_eq!(config.moments[0].text, "a goal");
    assert_eq!(config.moments[0].clip, ClipConfig { start_time: 30, end_time: 30 });
}

fn configured() -> Config {
    let mut base = Config::default();
    base.moments.push(Moment { text: "old".to_string(), clip: ClipConfig { start_time: 1, end_time: 2 } });
    base.tracks.audio_tracks = vec![4];
    base.clive.whisper_model = "small".to_string();
    base.clive.embedding_model = "custom".to_string();
    base.output.directory = "elsewhere".to_string();
    base.line_buffer = LineBufferConfig { before: 1, after: 9 };
    base
}

#[test]
fn merge_keeps_the_file_where_the_command_line_is_silent() {
    let mut merged = configured();
    merged.merge_cli(Config::from_cli("in.mp4".to_string(), None, None, None, vec![]));
    assert_eq!(merged.input_file, Some("in.mp4".to_string()));
    assert_eq!(merged.moments.len(), 1);
    assert_eq!(merged.moments[0].text, "old");
    assert_eq!(merged.tracks.audio_tracks, vec![4]);
    assert_eq!(merged.clive.whisper_model, "small");
    assert_eq!(merged.clive.embedding_model, "custom");
    assert_eq!(merged.output.directory, "elsewhere");
    assert_eq!(merged.line_buffer, LineBufferConfig { before: 1, after: 9 });
}

#[test]
fn merge_replaces_the_moments_as_a_whole() {
    let mut merged = configured();
    merged.merge_cli(Config::from_cli(
        "other.mp4".to_string(),
        Some("out".to_string()),
        Some("large".to_string()),
        Some(vec![1]),
        vec!["new".to_string(), "newer".to_string()],
    ));
    assert_eq!(merged.input_file, Some("other.mp4".to_string()));
    let texts: Vec<&str> = merged.moments.iter().map(|m| m.text.as_str()).collect();
    assert_eq!(texts, vec!["new", "newer"]);
    assert_eq!(merged.tracks.audio_tracks, vec![1]);
    assert_eq!(merged.clive.whisper_model, "large");
    assert_eq!(merged.output.directory, "out");
    assert_eq!(merged.clive.embedding_model, "custom");
}

#[test]
fn merge_takes_what_was_given_also_where_it_is_the_default() {
    let mut config = Config::default();
    config.tracks.audio_tracks = vec![3];
    config.clive.whisper_model = "small".to_string();
    config.output.directory = "elsewhere".to_string();
    config.merge_cli(Config::from_cli(
        "in.mp4".to_string(),
        Some("output".to_string()),
        Some("base".to_string()),
        Some(vec![1, 2]),
        vec!["k".to_string()],
    ));
    assert_eq!(config.tracks.audio_tracks, vec![1, 2]);
    assert_eq!(config.clive.whisper_model, "base");
    assert_eq!(config.output.directory, "output");
    assert_eq!(config.moments.len(), 1);
    assert_eq!(config.input_file, Some("in.mp4".to_string()));
}

#[test]
fn from_cli_records_what_was_given() {
    let nothing = Config::from_cli("in.mp4".to_string(), None, None, None, vec![]);
    assert_eq!(nothing.given, CliGiven { output: false, model: false, tracks: false });
    assert_eq!(Config::default().given, CliGiven::default());
    let defaults = Config::from_cli(
        "in.mp4".to_string(),
        Some("output".to_string()),
        Some("base".to_string()),
        Some(vec![1, 2]),
        vec![],
    );
    assert_eq!(defaults.given, CliGiven { output: true, model: true, tracks: true });
    assert_eq!(defaults.tracks.audio_tracks, nothing.tracks.audio_tracks);
    let some = Config::from_cli("in.mp4".to_string(), None, Some("tiny".to_string()), None, vec![]);
    assert_eq!(some.given, CliGiven { output: false, model: true, tracks: false });
}

#[test]
fn apply_cli_takes_only_what_was_given() {
    let mut config = configured();
    config.apply_cli("in.mp4".to_string(), None, None, None, None, None, None);
    assert_eq!(config.input_file, Some("in.mp4".to_string()));
    assert_eq!(config.moments[0].text, "old");
    assert_eq!(config.tracks.audio_tracks, vec![4]);
    assert_eq!(config.clive.whisper_model, "small");
    assert_eq!(config.output.directory, "elsewhere");

    // A value that equals the default still counts when it was given.
    config.apply_cli(
        "b.mp4".to_string(),
        Some("output".to_string()),
        Some("base".to_string()),
        Some("tiny".to_string()),
        Some("base".to_string()),
        Some(vec![1, 2]),
        Some(vec!["x".to_string()]),
    );
    assert_eq!(config.input_file, Some("b.mp4".to_string()));
    assert_eq!(config.output.directory, "output");
    assert_eq!(config.clive.whisper_model, "base");
    assert_eq!(config.clive.language_model, "tiny");
    assert_eq!(config.clive.embedding_model, "base");
    assert_eq!(config.tracks.audio_tracks, vec![1, 2]);
    assert_eq!(config.moments.len(), 1);
    assert_eq!(config.moments[0].text, "x");
    assert_eq!(config.moments[0].clip, ClipConfig { start_time: 30, end_time: 30 });
}

#[test]
fn validate_reports_the_first_fault() {
    let mut config = Config::default();
    assert!(matches!(config.validate(true), Err(ConfigError::MissingInput)));
    assert!(matches!(config.validate(false), Err(ConfigError::MissingInput)));
    config.input_file = Some("in.mp4".to_string());
    assert!(matches!(config.validate(false), Err(ConfigError::InputNotFound)));
    config.clive.whisper_model = "giant".to_string();
    match config.validate(true) {
        Err(ConfigError::InvalidModel { name }) => assert_eq!(name, "giant"),
        other => panic!("unexpected: {:?}", other),
    }
    config.clive.whisper_model = "tiny".to_string();
    config.tracks.audio_tracks = vec![];
    assert!(matches!(config.validate(true), Err(ConfigError::NoAudioTracks)));
    config.tracks.audio_tracks = vec![2];
    assert!(matches!(config.validate(true), Err(ConfigError::NoMoments)));
    config.moments.push(Moment { text: "m".to_string(), clip: ClipConfig::default() });
    assert!(config.validate(true).is_ok());
}

#[test]
fn model_names_are_the_known_ones() {
    for name in ["base", "tiny", "small", "medium", "large", "base.en", "tiny.en", "small.en", "medium.en", "large.en"] {
        assert!(is_valid_model(name), "{}", name);
    }
    for name in ["", "Base", "base ", "huge", "en", "large.e"] {
        assert!(!is_valid_model(name), "{}", name);
    }
}

#[test]
fn error_messages_name_the_fault() {
    assert_eq!(ConfigError::MissingInput.message(), "Input file not specified");
    assert_eq!(ConfigError::InputNotFound.message(), "Input file does not exist");
    assert_eq!(ConfigError::InvalidModel { name: "x".to_string() }.message(), "Invalid model name: x");
    assert_eq!(ConfigError::NoAudioTracks.message(), "No audio tracks specified");
    assert_eq!(ConfigError::NoMoments.message(), "No moments specified");
    assert_eq!(ConfigError::NoKeywords.message(), "No keywords specified");
}
