use clive::fetch::{
    download_embedding_model_if_needed, download_whisper_model_if_needed, get_embedding_model_url,
    get_llama_model_url, get_whisper_model_url, FetchError,
};

#[test]
fn whisper_models_have_their_addresses() {
    let base = "https://huggingface.co/ggerganov/whisper.cpp/resolve/main/";
    for (name, file) in [
        ("base", "ggml-base-q8_0.bin"),
        ("base.en", "ggml-base-en-q8_0.bin"),
        ("tiny", "ggml-tiny-q8_0.bin"),
        ("tiny.en", "ggml-tiny-en-q8_0.bin"),
        ("small", "ggml-small-q8_0.bin"),
        ("small.en", "ggml-small-en-q8_0.bin"),
        ("medium", "ggml-medium-q5_0.bin"),
        ("medium.en", "ggml-medium-en-q5_0.bin"),
        ("large", "ggml-large-v3-turbo-q8_0.bin"),
    ] {
        assert_eq!(get_whisper_model_url(name).unwrap(), format!("{}{}?download=true", base, file));
    }
}

#[test]
fn llama_models_have_their_addresses() {
    assert_eq!(
        get_llama_model_url("tiny").unwrap(),
        "https://huggingface.co/bartowski/Llama-3.2-1B-Instruct-GGUF/resolve/main/Llama-3.2-1B-Instruct-Q4_0.gguf"
    );
    assert_eq!(
        get_llama_model_url("small").unwrap(),
        "https://huggingface.co/bartowski/Llama-3.2-3B-Instruct-GGUF/resolve/main/Llama-3.2-3B-Instruct-Q4_0.gguf"
    );
    assert_eq!(
        get_llama_model_url("base").unwrap(),
        "https://huggingface.co/bartowski/Meta-Llama-3.1-8B-Instruct-GGUF/resolve/main/Meta-Llama-3.1-8B-Instruct-IQ4_XS.gguf"
    );
    assert_eq!(
        get_llama_model_url("medium").unwrap(),
        "https://huggingface.co/bartowski/Qwen2.5-32B-Instruct-GGUF/resolve/main/Qwen2.5-32B-Instruct-Q4_0.gguf"
    );
    assert_eq!(
        get_llama_model_url("large").unwrap(),
        "https://huggingface.co/bartowski/Llama-3.3-70B-Instruct-GGUF/resolve/main/Llama-3.3-70B-Instruct-IQ4_XS.gguf"
    );
}

#[test]
fn embedding_model_has_its_address() {
    assert_eq!(
        get_embedding_model_url("base").unwrap(),
        "https://huggingface.co/bbvch-ai/bge-m3-GGUF/resolve/main/bge-m3-q4_k_m.gguf"
    );
}

fn invalid(r: Result<String, FetchError>) -> String {
    match r {
        Err(FetchError::InvalidModel { name }) => name,
        Ok(url) => panic!("unexpected address {}", url),
    }
}

#[test]
fn unknown_models_are_refused() {
    assert_eq!(invalid(get_whisper_model_url("large.en")), "large.en");
    assert_eq!(invalid(get_whisper_model_url("")), "");
    assert_eq!(invalid(get_llama_model_url("base.en")), "base.en");
    assert_eq!(invalid(get_embedding_model_url("tiny")), "tiny");
    let error = FetchError::InvalidModel { name: "huge".to_string() };
    assert_eq!(error.message(), "Invalid model name: huge");
}

#[test]
fn a_model_that_is_there_is_not_fetched() {
    assert_eq!(download_whisper_model_if_needed("base", true).unwrap(), None);
    assert_eq!(download_whisper_model_if_needed("no such model", true).unwrap(), None);
    assert_eq!(download_embedding_model_if_needed("base", true).unwrap(), None);
}

#[test]
fn a_model_that_is_missing_is_fetched_from_its_address() {
    assert_eq!(
        download_whisper_model_if_needed("tiny", false).unwrap(),
        Some(get_whisper_model_url("tiny").unwrap())
    );
    assert_eq!(
        download_embedding_model_if_needed("base", false).unwrap(),
        Some("https://huggingface.co/bbvch-ai/bge-m3-GGUF/resolve/main/bge-m3-q4_k_m.gguf".to_string())
    );
    assert!(matches!(
        download_whisper_model_if_needed("huge", false),
        Err(FetchError::InvalidModel { .. })
    ));
    assert!(matches!(
        download_embedding_model_if_needed("small", false),
        Err(FetchError::InvalidModel { .. })
    ));
}
