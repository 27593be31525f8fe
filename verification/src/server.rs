//! The job-based API: checking a translation request, naming its output,
//! and the life of a job from processing to download.
use vstd::prelude::*;
use vstd::string::StringExecFns;
use std::path::Path;
use crate::text::same_text;
use crate::types::request::{Language, parse_language};

verus! {

/// HTTP status when a job is not finished yet.
pub const CONFLICT: u16 = 409;

/// The language a form field names, if it names one.
pub fn parse_lang(s: &str) -> (res: Option<Language>)
    ensures
        res == match parse_language(s@) {
            Ok(l) => Some(l),
            Err(_) => None,
        },
{
    match Language::from_code(s) {
        Ok(l) => Some(l),
        Err(_) => None,
    }
}

/// A checked job request: the file's name and content and the two languages.
pub struct JobRequest {
    pub file_name: String,
    pub data: Vec<u8>,
    pub src: Language,
    pub tgt: Language,
}

/// Checks the fields of a job request: a missing file is refused with
/// `No file`, a missing or unknown language with `Invalid src_lang` or
/// `Invalid tgt_lang`. A file without a name is called `file`.
pub fn check_job_request(
    file: Option<(Option<String>, Vec<u8>)>,
    src: Option<Language>,
    tgt: Option<Language>,
) -> (res: Result<JobRequest, String>)
    ensures
        match (file, src, tgt) {
            (None, _, _) => res matches Err(m) && m@ == "No file"@,
            (Some(_), None, _) => res matches Err(m) && m@ == "Invalid src_lang"@,
            (Some(_), Some(_), None) => res matches Err(m) && m@ == "Invalid tgt_lang"@,
            (Some((name, data)), Some(s), Some(t)) => res matches Ok(r) && r.data == data && r.src
                == s && r.tgt == t && r.file_name@ == match name {
                Some(n) => n@,
                None => "file"@,
            },
        },
{
    let (name, data) = match file {
        Some(f) => f,
        None => return Err(String::from_str("No file")),
    };
    let s = match src {
        Some(s) => s,
        None => return Err(String::from_str("Invalid src_lang")),
    };
    let t = match tgt {
        Some(t) => t,
        None => return Err(String::from_str("Invalid tgt_lang")),
    };
    let file_name = match name {
        Some(n) => n,
        None => String::from_str("file"),
    };
    Ok(JobRequest { file_name, data, src: s, tgt: t })
}

/// The extension that `Path::extension` finds in a file name.
pub uninterp spec fn path_extension(name: Seq<char>) -> Option<Seq<char>>;

/// The stem that `Path::file_stem` finds in a file name.
pub uninterp spec fn path_file_stem(name: Seq<char>) -> Option<Seq<char>>;

/// The extension of a path (`std::path::Path::extension`).
#[verifier::external_body]
fn extension_of(name: &str) -> (res: Option<String>)
    ensures
        res matches Some(e) ==> path_extension(name@) == Some(e@),
        res is None ==> path_extension(name@) is None,
{
    match Path::new(name).extension() {
        Some(e) => match e.to_str() {
            Some(t) => Some(String::from(t)),
            None => None,
        },
        None => None,
    }
}

/// The file stem of a path (`std::path::Path::file_stem`).
#[verifier::external_body]
fn file_stem_of(name: &str) -> (res: Option<String>)
    ensures
        res matches Some(e) ==> path_file_stem(name@) == Some(e@),
        res is None ==> path_file_stem(name@) is None,
{
    match Path::new(name).file_stem() {
        Some(e) => match e.to_str() {
            Some(t) => Some(String::from(t)),
            None => None,
        },
        None => None,
    }
}

/// What a job's input is and how its output is named.
pub struct JobNames {
    /// The input's extension, empty when it has none.
    pub ext: String,
    /// The name of the translated file.
    pub output_file_name: String,
}

/// The extension part of a job's names: the input's extension, empty when
/// it has none.
pub open spec fn ext_text(ext: Option<Seq<char>>) -> Seq<char> {
    match ext {
        Some(e) => e,
        None => Seq::empty(),
    }
}

/// The translated file's name from the input's stem and extension: the stem
/// (or `output`), then `_translated.`, then the extension, except that a PDF
/// comes back as a DOCX.
pub open spec fn output_name_from(stem: Option<Seq<char>>, ext: Option<Seq<char>>) -> Seq<char> {
    let stem = match stem {
        Some(s) => s,
        None => "output"@,
    };
    let e = ext_text(ext);
    let out_ext = if e == "pdf"@ {
        "docx"@
    } else {
        e
    };
    stem + "_translated."@ + out_ext
}

/// A job's extension and output name, from the stem and extension of its file.
pub fn compose_job_names(stem: Option<String>, ext: Option<String>) -> (res: JobNames)
    ensures
        res.ext@ == ext_text(
            match ext {
                Some(e) => Some(e@),
                None => None,
            },
        ),
        res.output_file_name@ == output_name_from(
            match stem {
                Some(s) => Some(s@),
                None => None,
            },
            match ext {
                Some(e) => Some(e@),
                None => None,
            },
        ),
{
    let ext = match ext {
        Some(e) => e,
        None => String::new(),
    };
    let mut out = match stem {
        Some(s) => s,
        None => String::from_str("output"),
    };
    out.append("_translated.");
    if same_text(ext.as_str(), "pdf") {
        out.append("docx");
    } else {
        out.append(ext.as_str());
    }
    JobNames { ext, output_file_name: out }
}

/// The extension and the output name of a job's file, from the stem and
/// extension that `std::path::Path` finds in its name.
pub fn job_names(file_name: &str) -> (res: JobNames)
    ensures
        res.ext@ == ext_text(path_extension(file_name@)),
        res.output_file_name@ == output_name_from(path_file_stem(file_name@), path_extension(file_name@)),
{
    let ext = extension_of(file_name);
    let stem = file_stem_of(file_name);
    compose_job_names(stem, ext)
}

/// What translates a job's file.
#[derive(Debug, Clone, Copy, PartialEq, Eq, Structural)]
pub enum JobKind {
    Docx,
    Csv,
    Pdf,
}

/// The kind of job an extension calls for: `docx`; `csv` or `tsv`; `pdf`.
pub open spec fn job_kind_of(ext: Seq<char>) -> Option<JobKind> {
    if ext == "docx"@ {
        Some(JobKind::Docx)
    } else if ext == "csv"@ || ext == "tsv"@ {
        Some(JobKind::Csv)
    } else if ext == "pdf"@ {
        Some(JobKind::Pdf)
    } else {
        None
    }
}

/// The extensions that a job handles: `docx` as a document, `csv` and `tsv`
/// as a table, `pdf` as a PDF.
pub proof fn lemma_job_kinds()
    ensures
        job_kind_of("docx"@) == Some(JobKind::Docx),
        job_kind_of("csv"@) == Some(JobKind::Csv),
        job_kind_of("tsv"@) == Some(JobKind::Csv),
        job_kind_of("pdf"@) == Some(JobKind::Pdf),
{
    reveal_strlit("docx");
    reveal_strlit("csv");
    reveal_strlit("tsv");
    reveal_strlit("pdf");
    assert("csv"@[0] != "docx"@[0]);
    assert("tsv"@[0] != "docx"@[0]);
    assert("pdf"@[0] != "docx"@[0]);
    assert("pdf"@[0] != "csv"@[0]);
    assert("pdf"@[0] != "tsv"@[0]);
}

/// The kind of job an extension calls for.
pub fn job_kind(ext: &str) -> (res: Option<JobKind>)
    ensures
        res == job_kind_of(ext@),
        ext@ == "docx"@ ==> res == Some(JobKind::Docx),
        ext@ == "csv"@ ==> res == Some(JobKind::Csv),
        ext@ == "tsv"@ ==> res == Some(JobKind::Csv),
        ext@ == "pdf"@ ==> res == Some(JobKind::Pdf),
{
    proof {
        lemma_job_kinds();
    }
    if same_text(ext, "docx") {
        Some(JobKind::Docx)
    } else if same_text(ext, "csv") || same_text(ext, "tsv") {
        Some(JobKind::Csv)
    } else if same_text(ext, "pdf") {
        Some(JobKind::Pdf)
    } else {
        None
    }
}

/// The error of a job whose file type is not handled.
pub fn unsupported_format() -> (res: String)
    ensures
        res@ == "Unsupported format"@,
{
    String::from_str("Unsupported format")
}

/// Where a job stands.
#[derive(Debug, Clone, Copy, PartialEq, Eq, Structural)]
pub enum JobStatus {
    Processing,
    Done,
    Error,
}

/// The word by which the progress endpoint reports a status.
pub open spec fn status_label_of(s: JobStatus) -> Seq<char> {
    match s {
        JobStatus::Processing => "processing"@,
        JobStatus::Done => "done"@,
        JobStatus::Error => "error"@,
    }
}

/// The word by which the progress endpoint reports a status.
pub fn status_label(s: JobStatus) -> (res: &'static str)
    ensures
        res@ == status_label_of(s),
{
    match s {
        JobStatus::Processing => "processing",
        JobStatus::Done => "done",
        JobStatus::Error => "error",
    }
}

/// What the service remembers of a job besides its paths.
pub struct JobRecord {
    pub status: JobStatus,
    pub progress: u8,
    pub output_filename: String,
    pub error: Option<String>,
}

impl JobRecord {
    /// The record agrees with its status: a job in progress has no error, a
    /// finished job is at 100 % with no error, and a failed job has its error.
    pub open spec fn consistent(&self) -> bool {
        match self.status {
            JobStatus::Processing => self.error is None,
            JobStatus::Done => self.progress == 100 && self.error is None,
            JobStatus::Error => self.error is Some,
        }
    }

    /// A job that has just started.
    pub fn new(output_filename: String) -> (res: Self)
        ensures
            res.status == JobStatus::Processing,
            res.progress == 0,
            res.output_filename == output_filename,
            res.error is None,
            res.consistent(),
    {
        JobRecord { status: JobStatus::Processing, progress: 0, output_filename, error: None }
    }

    /// Records how a job in progress ended: done at 100 %, or failed with its
    /// error. A job ends once: its status moves from processing to done or to
    /// error, and the record stays consistent.
    pub fn finish(&mut self, result: Result<(), String>)
        requires
            old(self).status == JobStatus::Processing,
            old(self).consistent(),
        ensures
            final(self).output_filename == old(self).output_filename,
            final(self).consistent(),
            result is Ok ==> final(self).status == JobStatus::Done && final(self).progress == 100
                && final(self).error is None,
            result matches Err(e) ==> final(self).status == JobStatus::Error && final(self).error
                == Some(e) && final(self).progress == old(self).progress,
    {
        match result {
            Ok(()) => {
                self.status = JobStatus::Done;
                self.progress = 100;
            },
            Err(e) => {
                self.status = JobStatus::Error;
                self.error = Some(e);
            },
        }
    }

    /// Whether the translated file can be downloaded: only when the job is
    /// done; otherwise the answer is 409.
    pub fn download_check(&self) -> (res: Result<(), u16>)
        ensures
            res is Ok <==> self.status == JobStatus::Done,
            res matches Err(code) ==> code == CONFLICT,
    {
        if self.status == JobStatus::Done {
            Ok(())
        } else {
            Err(CONFLICT)
        }
    }
}

} // verus!
