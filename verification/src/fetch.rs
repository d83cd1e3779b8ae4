//! Where the models are fetched from, and whether a model has to be fetched.

use vstd::prelude::*;
use crate::text::str_eq;

verus! {

/// Why no address could be given for a model.
#[derive(Debug, Clone)]
pub enum FetchError {
    /// No model of that kind has the name.
    InvalidModel { name: String },
}

impl FetchError {
    /// The message for the user.
    pub fn message(&self) -> (m: String)
        ensures
            m@ == "Invalid model name: "@ + self->name@,
    {
        match self {
            FetchError::InvalidModel { name } => {
                let mut m = String::from_str("Invalid model name: ");
                m.append(name.as_str());
                m
            },
        }
    }
}

/// The address under which the speech recognition models lie.
pub open spec fn whisper_base_url() -> Seq<char> {
    "https://huggingface.co/ggerganov/whisper.cpp/resolve/main/"@
}

/// The file of a speech recognition model, if there is a model of that name.
pub open spec fn whisper_model_file(name: Seq<char>) -> Option<Seq<char>> {
    if name == "base"@ {
        Some("ggml-base-q8_0.bin?download=true"@)
    } else if name == "base.en"@ {
        Some("ggml-base-en-q8_0.bin?download=true"@)
    } else if name == "tiny"@ {
        Some("ggml-tiny-q8_0.bin?download=true"@)
    } else if name == "tiny.en"@ {
        Some("ggml-tiny-en-q8_0.bin?download=true"@)
    } else if name == "small"@ {
        Some("ggml-small-q8_0.bin?download=true"@)
    } else if name == "small.en"@ {
        Some("ggml-small-en-q8_0.bin?download=true"@)
    } else if name == "medium"@ {
        Some("ggml-medium-q5_0.bin?download=true"@)
    } else if name == "medium.en"@ {
        Some("ggml-medium-en-q5_0.bin?download=true"@)
    } else if name == "large"@ {
        Some("ggml-large-v3-turbo-q8_0.bin?download=true"@)
    } else {
        None
    }
}

/// The address of a speech recognition model, if there is a model of that name.
pub open spec fn whisper_model_url(name: Seq<char>) -> Option<Seq<char>> {
    match whisper_model_file(name) {
        Some(file) => Some(whisper_base_url() + file),
        None => None,
    }
}

/// The address of a language model, if there is a model of that name.
pub open spec fn llama_model_url(name: Seq<char>) -> Option<Seq<char>> {
    if name == "tiny"@ {
        Some(
            "https://huggingface.co/bartowski/Llama-3.2-1B-Instruct-GGUF/resolve/main/Llama-3.2-1B-Instruct-Q4_0.gguf"@,
        )
    } else if name == "small"@ {
        Some(
            "https://huggingface.co/bartowski/Llama-3.2-3B-Instruct-GGUF/resolve/main/Llama-3.2-3B-Instruct-Q4_0.gguf"@,
        )
    } else if name == "base"@ {
        Some(
            "https://huggingface.co/bartowski/Meta-Llama-3.1-8B-Instruct-GGUF/resolve/main/Meta-Llama-3.1-8B-Instruct-IQ4_XS.gguf"@,
        )
    } else if name == "medium"@ {
        Some(
            "https://huggingface.co/bartowski/Qwen2.5-32B-Instruct-GGUF/resolve/main/Qwen2.5-32B-Instruct-Q4_0.gguf"@,
        )
    } else if name == "large"@ {
        Some(
            "https://huggingface.co/bartowski/Llama-3.3-70B-Instruct-GGUF/resolve/main/Llama-3.3-70B-Instruct-IQ4_XS.gguf"@,
        )
    } else {
        None
    }
}

/// The address of an embedding model, if there is a model of that name.
pub open spec fn embedding_model_url(name: Seq<char>) -> Option<Seq<char>> {
    if name == "base"@ {
        Some("https://huggingface.co/bbvch-ai/bge-m3-GGUF/resolve/main/bge-m3-q4_k_m.gguf"@)
    } else {
        None
    }
}

/// What a lookup returns for the address `url` of the model `name`.
pub open spec fn lookup(url: Option<Seq<char>>, name: Seq<char>, r: Result<String, FetchError>) -> bool {
    match url {
        Some(u) => r is Ok && r->Ok_0@ == u,
        None => r is Err && r->Err_0->name@ == name,
    }
}

/// What is to be fetched for the model `name` with the address `url`:
/// nothing if the model is there, else what lies under the address.
pub open spec fn fetch_plan(
    url: Option<Seq<char>>,
    name: Seq<char>,
    exists: bool,
    r: Result<Option<String>, FetchError>,
) -> bool {
    if exists {
        r is Ok && r->Ok_0 is None
    } else {
        match url {
            Some(u) => r is Ok && r->Ok_0 is Some && r->Ok_0->0@ == u,
            None => r is Err && r->Err_0->name@ == name,
        }
    }
}

fn whisper_file(model_name: &str) -> (r: Option<&'static str>)
    ensures
        match whisper_model_file(model_name@) {
            Some(file) => r is Some && r->0@ == file,
            None => r is None,
        },
{
    if str_eq(model_name, "base") {
        Some("ggml-base-q8_0.bin?download=true")
    } else if str_eq(model_name, "base.en") {
        Some("ggml-base-en-q8_0.bin?download=true")
    } else if str_eq(model_name, "tiny") {
        Some("ggml-tiny-q8_0.bin?download=true")
    } else if str_eq(model_name, "tiny.en") {
        Some("ggml-tiny-en-q8_0.bin?download=true")
    } else if str_eq(model_name, "small") {
        Some("ggml-small-q8_0.bin?download=true")
    } else if str_eq(model_name, "small.en") {
        Some("ggml-small-en-q8_0.bin?download=true")
    } else if str_eq(model_name, "medium") {
        Some("ggml-medium-q5_0.bin?download=true")
    } else if str_eq(model_name, "medium.en") {
        Some("ggml-medium-en-q5_0.bin?download=true")
    } else if str_eq(model_name, "large") {
        Some("ggml-large-v3-turbo-q8_0.bin?download=true")
    } else {
        None
    }
}

/// The address from which a speech recognition model is fetched. The
/// models are `base`, `tiny`, `small` and `medium`, each of them also with
/// `.en` for English only, and `large`.
pub fn get_whisper_model_url(model_name: &str) -> (r: Result<String, FetchError>)
    ensures
        lookup(whisper_model_url(model_name@), model_name@, r),
{
    match whisper_file(model_name) {
        Some(file) => {
            let mut url = String::from_str(
                "https://huggingface.co/ggerganov/whisper.cpp/resolve/main/",
            );
            url.append(file);
            Ok(url)
        },
        None => Err(FetchError::InvalidModel { name: String::from_str(model_name) }),
    }
}

/// The address from which a language model is fetched. The models are
/// `tiny`, `small`, `base`, `medium` and `large`.
pub fn get_llama_model_url(model_name: &str) -> (r: Result<String, FetchError>)
    ensures
        lookup(llama_model_url(model_name@), model_name@, r),
{
    if str_eq(model_name, "tiny") {
        Ok(
            String::from_str(
                "https://huggingface.co/bartowski/Llama-3.2-1B-Instruct-GGUF/resolve/main/Llama-3.2-1B-Instruct-Q4_0.gguf",
            ),
        )
    } else if str_eq(model_name, "small") {
        Ok(
            String::from_str(
                "https://huggingface.co/bartowski/Llama-3.2-3B-Instruct-GGUF/resolve/main/Llama-3.2-3B-Instruct-Q4_0.gguf",
            ),
        )
    } else if str_eq(model_name, "base") {
        Ok(
            String::from_str(
                "https://huggingface.co/bartowski/Meta-Llama-3.1-8B-Instruct-GGUF/resolve/main/Meta-Llama-3.1-8B-Instruct-IQ4_XS.gguf",
            ),
        )
    } else if str_eq(model_name, "medium") {
        Ok(
            String::from_str(
                "https://huggingface.co/bartowski/Qwen2.5-32B-Instruct-GGUF/resolve/main/Qwen2.5-32B-Instruct-Q4_0.gguf",
            ),
        )
    } else if str_eq(model_name, "large") {
        Ok(
            String::from_str(
                "https://huggingface.co/bartowski/Llama-3.3-70B-Instruct-GGUF/resolve/main/Llama-3.3-70B-Instruct-IQ4_XS.gguf",
            ),
        )
    } else {
        Err(FetchError::InvalidModel { name: String::from_str(model_name) })
    }
}

/// The address from which an embedding model is fetched. The one model is
/// `base`.
pub fn get_embedding_model_url(model_name: &str) -> (r: Result<String, FetchError>)
    ensures
        lookup(embedding_model_url(model_name@), model_name@, r),
{
    if str_eq(model_name, "base") {
        Ok(
            String::from_str(
                "https://huggingface.co/bbvch-ai/bge-m3-GGUF/resolve/main/bge-m3-q4_k_m.gguf",
            ),
        )
    } else {
        Err(FetchError::InvalidModel { name: String::from_str(model_name) })
    }
}

/// Decides what to fetch for a speech recognition model: nothing if
/// `model_exists` says that its file is there, else what lies under its
/// address. A model that is there is not looked up, so its name is not
/// checked.
pub fn download_whisper_model_if_needed(model_name: &str, model_exists: bool) -> (r: Result<
    Option<String>,
    FetchError,
>)
    ensures
        fetch_plan(whisper_model_url(model_name@), model_name@, model_exists, r),
{
    if model_exists {
        Ok(None)
    } else {
        match get_whisper_model_url(model_name) {
            Ok(url) => Ok(Some(url)),
            Err(error) => Err(error),
        }
    }
}

/// Decides what to fetch for an embedding model: nothing if `model_exists`
/// says that its file is there, else what lies under its address. A model
/// that is there is not looked up, so its name is not checked.
pub fn download_embedding_model_if_needed(model_name: &str, model_exists: bool) -> (r: Result<
    Option<String>,
    FetchError,
>)
    ensures
        fetch_plan(embedding_model_url(model_name@), model_name@, model_exists, r),
{
    if model_exists {
        Ok(None)
    } else {
        match get_embedding_model_url(model_name) {
            Ok(url) => Ok(Some(url)),
            Err(error) => Err(error),
        }
    }
}

} // verus!
