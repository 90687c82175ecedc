//! What can go wrong, and how it is told.
use crate::text;
use crate::text::{append_str, chars_of, string_of};
use vstd::prelude::*;

verus! {

/// An error of the pipeline, with the part of it that failed.
#[derive(Debug)]
pub enum AppError {
    Pdf(String),
    Llm(String),
    Sidecar(String),
    Ffmpeg(String),
    Io(String),
    Ocr(String),
    Tts(String),
    Other(String),
}

pub type AppResult<T> = Result<T, AppError>;

impl AppError {
    /// The words in front of the detail.
    pub open spec fn prefix(self) -> Seq<char> {
        match self {
            AppError::Pdf(_) => "PDF error: "@,
            AppError::Llm(_) => "LLM error: "@,
            AppError::Sidecar(_) => "Kokoro sidecar error: "@,
            AppError::Ffmpeg(_) => "ffmpeg error: "@,
            AppError::Io(_) => "I/O error: "@,
            AppError::Ocr(_) => "OCR error: "@,
            AppError::Tts(_) => "TTS error: "@,
            AppError::Other(_) => ""@,
        }
    }

    /// What is told of the failure itself.
    pub open spec fn detail(self) -> Seq<char> {
        match self {
            AppError::Pdf(m) => m@,
            AppError::Llm(m) => m@,
            AppError::Sidecar(m) => m@,
            AppError::Ffmpeg(m) => m@,
            AppError::Io(m) => m@,
            AppError::Ocr(m) => m@,
            AppError::Tts(m) => m@,
            AppError::Other(m) => m@,
        }
    }

    /// The error as one readable line.
    pub fn message(&self) -> (r: String)
        ensures
            r@ == self.prefix() + self.detail(),
    {
        let (prefix, detail): (&str, &String) = match self {
            AppError::Pdf(m) => ("PDF error: ", m),
            AppError::Llm(m) => ("LLM error: ", m),
            AppError::Sidecar(m) => ("Kokoro sidecar error: ", m),
            AppError::Ffmpeg(m) => ("ffmpeg error: ", m),
            AppError::Io(m) => ("I/O error: ", m),
            AppError::Ocr(m) => ("OCR error: ", m),
            AppError::Tts(m) => ("TTS error: ", m),
            AppError::Other(m) => ("", m),
        };
        let mut out = chars_of(prefix);
        append_str(&mut out, detail.as_str());
        string_of(out.as_slice())
    }
}

/// An error is told with its detail, whole and at the end.
pub proof fn errors_tell_their_detail(e: AppError)
    ensures
        text::ends_with(e.prefix() + e.detail(), e.detail()),
        e matches AppError::Other(m) ==> e.prefix() + e.detail() == m@,
        e.prefix().len() == 0 <==> e is Other,
{
    let s = e.prefix() + e.detail();
    assert(s.subrange(s.len() - e.detail().len(), s.len() as int) =~= e.detail());
    reveal_strlit("");
    reveal_strlit("PDF error: ");
    reveal_strlit("LLM error: ");
    reveal_strlit("Kokoro sidecar error: ");
    reveal_strlit("ffmpeg error: ");
    reveal_strlit("I/O error: ");
    reveal_strlit("OCR error: ");
    reveal_strlit("TTS error: ");
    if let AppError::Other(m) = e {
        assert(""@ + m@ =~= m@);
    }
}

} // verus!
