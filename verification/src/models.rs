//! The catalog of transcription models the application can download,
//! the default choice, the recommendation for a machine's resources,
//! and the bookkeeping for a download in progress.

use vstd::prelude::*;

use vstd::string::StringExecFns;

use crate::textops::{contains_str, str_eq, string_clone};

verus! {

/// One downloadable transcription model.
pub struct WhisperModel {
    pub name: String,
    pub display_name: String,
    pub file_name: String,
    pub url: String,
    pub size_mb: u64,
    pub description: String,
    pub premium_required: bool,
}

/// An installed model on disk.
pub struct InstalledModelInfo {
    pub name: String,
    pub display_name: String,
    pub size_bytes: u64,
    pub path: String,
}

/// Whether a catalog entry has the given name, file, url, size and
/// premium flag.
pub open spec fn model_is(
    m: WhisperModel,
    name: Seq<char>,
    file_name: Seq<char>,
    url: Seq<char>,
    size_mb: int,
    premium: bool,
) -> bool {
    &&& m.name@ == name
    &&& m.file_name@ == file_name
    &&& m.url@ == url
    &&& m.size_mb == size_mb
    &&& m.premium_required == premium
}

/// The catalog of available models, smallest first: tiny, base, small,
/// medium and the large variants, the large ones premium-only.
pub fn get_available_models() -> (r: Vec<WhisperModel>)
    ensures
        r@.len() == 7,
        model_is(
            r@[0],
            "tiny"@,
            "ggml-tiny.bin"@,
            "https://huggingface.co/ggerganov/whisper.cpp/resolve/main/ggml-tiny.bin"@,
            75,
            false,
        ),
        model_is(
            r@[1],
            "base"@,
            "ggml-base.bin"@,
            "https://huggingface.co/ggerganov/whisper.cpp/resolve/main/ggml-base.bin"@,
            142,
            false,
        ),
        model_is(
            r@[2],
            "small"@,
            "ggml-small.bin"@,
            "https://huggingface.co/ggerganov/whisper.cpp/resolve/main/ggml-small.bin"@,
            466,
            false,
        ),
        model_is(
            r@[3],
            "medium"@,
            "ggml-medium.bin"@,
            "https://huggingface.co/ggerganov/whisper.cpp/resolve/main/ggml-medium.bin"@,
            1500,
            false,
        ),
        model_is(
            r@[4],
            "large"@,
            "ggml-large.bin"@,
            "https://huggingface.co/ggerganov/whisper.cpp/resolve/main/ggml-large.bin"@,
            2900,
            true,
        ),
        model_is(
            r@[5],
            "large-v2"@,
            "ggml-large-v2.bin"@,
            "https://huggingface.co/ggerganov/whisper.cpp/resolve/main/ggml-large-v2.bin"@,
            2900,
            true,
        ),
        model_is(
            r@[6],
            "large-v3"@,
            "ggml-large-v3.bin"@,
            "https://huggingface.co/ggerganov/whisper.cpp/resolve/main/ggml-large-v3.bin"@,
            2900,
            true,
        ),
{
    let mut r: Vec<WhisperModel> = Vec::new();
    r.push(
        WhisperModel {
            name: String::from_str("tiny"),
            display_name: String::from_str("Tiny"),
            file_name: String::from_str("ggml-tiny.bin"),
            url: String::from_str(
                "https://huggingface.co/ggerganov/whisper.cpp/resolve/main/ggml-tiny.bin",
            ),
            size_mb: 75,
            description: String::from_str("Fastest, lowest accuracy"),
            premium_required: false,
        },
    );
    r.push(
        WhisperModel {
            name: String::from_str("base"),
            display_name: String::from_str("Base"),
            file_name: String::from_str("ggml-base.bin"),
            url: String::from_str(
                "https://huggingface.co/ggerganov/whisper.cpp/resolve/main/ggml-base.bin",
            ),
            size_mb: 142,
            description: String::from_str("Good balance, recommended"),
            premium_required: false,
        },
    );
    r.push(
        WhisperModel {
            name: String::from_str("small"),
            display_name: String::from_str("Small"),
            file_name: String::from_str("ggml-small.bin"),
            url: String::from_str(
                "https://huggingface.co/ggerganov/whisper.cpp/resolve/main/ggml-small.bin",
            ),
            size_mb: 466,
            description: String::from_str("Better accuracy"),
            premium_required: false,
        },
    );
    r.push(
        WhisperModel {
            name: String::from_str("medium"),
            display_name: String::from_str("Medium"),
            file_name: String::from_str("ggml-medium.bin"),
            url: String::from_str(
                "https://huggingface.co/ggerganov/whisper.cpp/resolve/main/ggml-medium.bin",
            ),
            size_mb: 1500,
            description: String::from_str("High accuracy"),
            premium_required: false,
        },
    );
    r.push(
        WhisperModel {
            name: String::from_str("large"),
            display_name: String::from_str("Large"),
            file_name: String::from_str("ggml-large.bin"),
            url: String::from_str(
                "https://huggingface.co/ggerganov/whisper.cpp/resolve/main/ggml-large.bin",
            ),
            size_mb: 2900,
            description: String::from_str("Highest accuracy"),
            premium_required: true,
        },
    );
    r.push(
        WhisperModel {
            name: String::from_str("large-v2"),
            display_name: String::from_str("Large-v2"),
            file_name: String::from_str("ggml-large-v2.bin"),
            url: String::from_str(
                "https://huggingface.co/ggerganov/whisper.cpp/resolve/main/ggml-large-v2.bin",
            ),
            size_mb: 2900,
            description: String::from_str("Improved version"),
            premium_required: true,
        },
    );
    r.push(
        WhisperModel {
            name: String::from_str("large-v3"),
            display_name: String::from_str("Large-v3"),
            file_name: String::from_str("ggml-large-v3.bin"),
            url: String::from_str(
                "https://huggingface.co/ggerganov/whisper.cpp/resolve/main/ggml-large-v3.bin",
            ),
            size_mb: 2900,
            description: String::from_str("Newest and best"),
            premium_required: true,
        },
    );
    r
}

/// The default model name.
pub fn get_default_model() -> (r: String)
    ensures
        r@ == "small"@,
{
    String::from_str("small")
}

/// The catalog entry with the given name, if any.
pub fn find_model(models: &Vec<WhisperModel>, name: &str) -> (r: Option<usize>)
    ensures
        match r {
            Some(i) => i < models@.len() && models@[i as int].name@ == name@,
            None => forall|j: int| 0 <= j < models@.len() ==> models@[j].name@ != name@,
        },
{
    let n = models.len();
    let mut i: usize = 0;
    while i < n
        invariant
            0 <= i <= n == models@.len(),
            forall|j: int| 0 <= j < i ==> models@[j].name@ != name@,
        decreases n - i,
    {
        if str_eq(models[i].name.as_str(), name) {
            return Some(i);
        }
        i = i + 1;
    }
    None
}

/// The installed model file to prefer for transcription: the largest
/// installed one, falling back to the smallest when none is installed.
pub fn preferred_model_file(installed: &Vec<String>) -> (r: String)
    ensures
        r@ == (if installed.deep_view().contains("ggml-large-v3.bin"@) {
            "ggml-large-v3.bin"@
        } else if installed.deep_view().contains("ggml-large-v2.bin"@) {
            "ggml-large-v2.bin"@
        } else if installed.deep_view().contains("ggml-large.bin"@) {
            "ggml-large.bin"@
        } else if installed.deep_view().contains("ggml-medium.bin"@) {
            "ggml-medium.bin"@
        } else if installed.deep_view().contains("ggml-small.bin"@) {
            "ggml-small.bin"@
        } else if installed.deep_view().contains("ggml-base.bin"@) {
            "ggml-base.bin"@
        } else {
            "ggml-tiny.bin"@
        }),
{
    if contains_str(installed, "ggml-large-v3.bin") {
        String::from_str("ggml-large-v3.bin")
    } else if contains_str(installed, "ggml-large-v2.bin") {
        String::from_str("ggml-large-v2.bin")
    } else if contains_str(installed, "ggml-large.bin") {
        String::from_str("ggml-large.bin")
    } else if contains_str(installed, "ggml-medium.bin") {
        String::from_str("ggml-medium.bin")
    } else if contains_str(installed, "ggml-small.bin") {
        String::from_str("ggml-small.bin")
    } else if contains_str(installed, "ggml-base.bin") {
        String::from_str("ggml-base.bin")
    } else {
        String::from_str("ggml-tiny.bin")
    }
}

/// The model recommended for a machine: small on strong machines, base
/// on middling ones, tiny otherwise. Memory is given in mebibytes.
pub fn recommend_model(ram_mb: u64, cpu_cores: usize) -> (r: String)
    ensures
        ram_mb >= 16384 && cpu_cores >= 8 ==> r@ == "small"@,
        !(ram_mb >= 16384 && cpu_cores >= 8) && ram_mb >= 8192 && cpu_cores >= 4 ==> r@
            == "base"@,
        !(ram_mb >= 16384 && cpu_cores >= 8) && !(ram_mb >= 8192 && cpu_cores >= 4) ==> r@
            == "tiny"@,
{
    if ram_mb >= 16384 && cpu_cores >= 8 {
        String::from_str("small")
    } else if ram_mb >= 8192 && cpu_cores >= 4 {
        String::from_str("base")
    } else {
        String::from_str("tiny")
    }
}

/// Bookkeeping for a model download in progress: at most one at a time.
pub struct DownloadState {
    pub in_progress: bool,
    pub current_model: Option<String>,
}

impl DownloadState {
    /// No download in progress.
    pub fn new() -> (r: DownloadState)
        ensures
            !r.in_progress,
            r.current_model is None,
    {
        DownloadState { in_progress: false, current_model: None }
    }

    /// Claim the download slot for a model. Fails exactly when a
    /// download is already in progress, leaving the state unchanged.
    pub fn begin_download(&mut self, model_name: &str) -> (ok: bool)
        ensures
            ok == !old(self).in_progress,
            !ok ==> *final(self) == *old(self),
            ok ==> final(self).in_progress && (final(self).current_model matches Some(m) && m@
                == model_name@),
    {
        if self.in_progress {
            false
        } else {
            self.in_progress = true;
            self.current_model = Some(string_clone(model_name));
            true
        }
    }

    /// Release the download slot.
    pub fn finish_download(&mut self)
        ensures
            !final(self).in_progress,
            final(self).current_model is None,
    {
        self.in_progress = false;
        self.current_model = None;
    }
}

} // verus!
