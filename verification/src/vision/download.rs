//! Acquisition of pinned local model artifacts: what a response may be, and
//! where the inference runtime is looked for.

use crate::numbers::{decimal, push_decimal};
use crate::text::{push_text, same_text, text_of};
use vstd::prelude::*;

verus! {

/// Default end-to-end timeout for one model artifact request, in seconds.
pub const DEFAULT_MODEL_DOWNLOAD_TIMEOUT: u64 = 300;

/// Failures before a response stream reaches the model store.
#[derive(Clone, Copy, Debug, PartialEq, Eq, Structural)]
pub enum HttpModelDownloadError {
    /// The server declared a size that disagrees with the pinned manifest.
    ContentLength {
        /// Pinned artifact size.
        expected: u64,
        /// Server-declared size.
        actual: u64,
    },
}

impl HttpModelDownloadError {
    /// The text of the error.
    pub open spec fn spec_message(self) -> Seq<char> {
        match self {
            HttpModelDownloadError::ContentLength { expected, actual } => "server declared "@ + decimal(
                actual as nat,
            ) + " bytes; manifest requires "@ + decimal(expected as nat),
        }
    }

    pub fn message(&self) -> (r: String)
        ensures
            r@ == self.spec_message(),
    {
        let mut out: Vec<char> = Vec::new();
        match self {
            HttpModelDownloadError::ContentLength { expected, actual } => {
                push_text(&mut out, "server declared ");
                push_decimal(&mut out, *actual as u128);
                push_text(&mut out, " bytes; manifest requires ");
                push_decimal(&mut out, *expected as u128);
            },
        }
        assert(out@ =~= self.spec_message());
        text_of(&out)
    }
}

/// How many bytes of a response may be read, given the pinned size of the
/// artifact and the size that the server declared, if it did.
///
/// One byte more than the pinned size lets the store report an exact size
/// mismatch while a broken server cannot fill the disk.
pub fn response_limit(size: u64, declared: Option<u64>) -> (r: Result<u64, HttpModelDownloadError>)
    ensures
        match r {
            Ok(limit) => (declared matches Some(actual) ==> actual == size) && limit == if size < u64::MAX {
                size + 1
            } else {
                size as int
            },
            Err(error) => declared matches Some(actual) && actual != size && error
                == (HttpModelDownloadError::ContentLength { expected: size, actual }),
        },
{
    if let Some(actual) = declared {
        if actual != size {
            return Err(HttpModelDownloadError::ContentLength { expected: size, actual });
        }
    }
    if size < u64::MAX {
        Ok(size + 1)
    } else {
        Ok(size)
    }
}

/// The name of the runtime library on an operating system.
pub open spec fn runtime_name(os: Seq<char>) -> Seq<char> {
    if os == "windows"@ {
        "onnxruntime.dll"@
    } else if os == "macos"@ || os == "ios"@ {
        "libonnxruntime.dylib"@
    } else {
        "libonnxruntime.so"@
    }
}

/// The name of the ONNX Runtime shared library on an operating system.
pub fn default_onnx_runtime_library(os: &str) -> (r: &'static str)
    ensures
        r@ == runtime_name(os@),
{
    if same_text(os, "windows") {
        "onnxruntime.dll"
    } else if same_text(os, "macos") || same_text(os, "ios") {
        "libonnxruntime.dylib"
    } else {
        "libonnxruntime.so"
    }
}

/// The ONNX Runtime shared library to load: the one that the environment
/// names, unless that is empty, and else the one of the operating system.
pub fn onnx_runtime_library_path(set: Option<String>, os: &str) -> (r: String)
    ensures
        r@ == match set {
            Some(path) => if path@.len() > 0 {
                path@
            } else {
                runtime_name(os@)
            },
            None => runtime_name(os@),
        },
{
    if let Some(path) = set {
        let empty = same_text(path.as_str(), "");
        proof {
            reveal_strlit("");
            assert(""@ =~= Seq::empty());
            if path@.len() == 0 {
                assert(path@ =~= ""@);
            }
        }
        if !empty {
            return path;
        }
    }
    default_onnx_runtime_library(os).to_string()
}

} // verus!
