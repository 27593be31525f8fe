//! Checking an upload to the translation endpoint, and naming and typing the
//! file that answers it.
use vstd::prelude::*;
use vstd::string::StringExecFns;
use crate::text::{chars_of, string_from, split_on, trim, trimmed, same_text, replace_all, replace_chars, lemma_split_on_shape};
use crate::types::request::{Language, parse_language};

verus! {

/// HTTP status of a rejected request.
pub const BAD_REQUEST: u16 = 400;

/// HTTP status of a request that failed while it was processed.
pub const INTERNAL_SERVER_ERROR: u16 = 500;

/// The kinds of document the endpoint translates.
#[derive(Debug, Clone, Copy, PartialEq, Eq, Structural)]
pub enum FileKind {
    Docx,
    Pdf,
    Csv,
    Txt,
}

/// The text after the last `.` of a file name, or the whole name when it has none.
pub open spec fn last_segment(name: Seq<char>) -> Seq<char> {
    split_on(name, '.').last()
}

/// The text that `str::to_lowercase` gives (Unicode lower-case mapping).
pub uninterp spec fn lowercase(s: Seq<char>) -> Seq<char>;

/// The ASCII lower case of a character: `A`–`Z` become `a`–`z`, others stay.
pub open spec fn ascii_lower(c: char) -> char {
    if 'A' <= c && c <= 'Z' {
        ((c as u32) + 32) as char
    } else {
        c
    }
}

/// Whether every character is ASCII.
pub open spec fn all_ascii(s: Seq<char>) -> bool {
    forall|i: int| 0 <= i < s.len() ==> (#[trigger] s[i] as u32) < 128
}

/// Lower-cases text (`str::to_lowercase`). On ASCII text this is the ASCII
/// mapping: `A`–`Z` become `a`–`z` and every other character stays.
#[verifier::external_body]
fn to_lowercase(s: &str) -> (res: String)
    ensures
        res@ == lowercase(s@),
        all_ascii(s@) ==> res@ == s@.map_values(|c: char| ascii_lower(c)),
{
    s.to_lowercase()
}

fn last_segment_of(name: &str) -> (res: String)
    ensures
        res@ == last_segment(name@),
{
    let chars = chars_of(name);
    let mut cur: Vec<char> = Vec::new();
    let mut i: usize = 0;
    assert(chars@.take(0) =~= Seq::<char>::empty());
    while i < chars.len()
        invariant
            i <= chars@.len(),
            chars@ == name@,
            cur@ == split_on(chars@.take(i as int), '.').last(),
        decreases chars@.len() - i,
    {
        proof {
            lemma_split_on_shape(chars@.take(i as int), '.');
            assert(chars@.take(i + 1).drop_last() =~= chars@.take(i as int));
            assert(chars@.take(i + 1).last() == chars@[i as int]);
        }
        if chars[i] == '.' {
            cur = Vec::new();
        } else {
            cur.push(chars[i]);
        }
        i = i + 1;
    }
    assert(chars@.take(i as int) =~= name@);
    string_from(&cur)
}

/// The extension of a file name, lower-cased: what follows its last `.`.
pub fn file_extension(name: &str) -> (res: String)
    ensures
        res@ == lowercase(last_segment(name@)),
        all_ascii(last_segment(name@)) ==> res@ == last_segment(name@).map_values(
            |c: char| ascii_lower(c),
        ),
{
    let seg = last_segment_of(name);
    to_lowercase(seg.as_str())
}

/// The kind of document an extension names.
pub open spec fn kind_of_extension(ext: Seq<char>) -> Option<FileKind> {
    if ext == "docx"@ {
        Some(FileKind::Docx)
    } else if ext == "pdf"@ {
        Some(FileKind::Pdf)
    } else if ext == "csv"@ {
        Some(FileKind::Csv)
    } else if ext == "txt"@ {
        Some(FileKind::Txt)
    } else {
        None
    }
}

/// The four extensions that name a kind of document: `docx`, `pdf`, `csv`
/// and `txt`, each its own kind.
pub proof fn lemma_file_kinds()
    ensures
        kind_of_extension("docx"@) == Some(FileKind::Docx),
        kind_of_extension("pdf"@) == Some(FileKind::Pdf),
        kind_of_extension("csv"@) == Some(FileKind::Csv),
        kind_of_extension("txt"@) == Some(FileKind::Txt),
{
    reveal_strlit("docx");
    reveal_strlit("pdf");
    reveal_strlit("csv");
    reveal_strlit("txt");
    assert("pdf"@[0] != "docx"@[0]);
    assert("csv"@[0] != "docx"@[0]);
    assert("txt"@[0] != "docx"@[0]);
    assert("csv"@[0] != "pdf"@[0]);
    assert("txt"@[0] != "pdf"@[0]);
    assert("txt"@[0] != "csv"@[0]);
}

/// An upload with a file, a name and two known languages is accepted when the
/// lower-cased last segment of its name is `docx`, `pdf`, `csv` or `txt`, and
/// it is then of that kind.
pub proof fn lemma_supported_uploads_accepted(name: Seq<char>, src: Seq<char>, tgt: Seq<char>)
    requires
        parse_language(trimmed(src)) is Ok,
        parse_language(trimmed(tgt)) is Ok,
    ensures
        lowercase(last_segment(name)) == "docx"@ ==> check_outcome(true, Some(name), Some(src), Some(tgt))
            == Ok::<(Language, Language, FileKind), Seq<char>>((parse_language(trimmed(src))->Ok_0,
            parse_language(trimmed(tgt))->Ok_0, FileKind::Docx)),
        lowercase(last_segment(name)) == "pdf"@ ==> check_outcome(true, Some(name), Some(src), Some(tgt))
            == Ok::<(Language, Language, FileKind), Seq<char>>((parse_language(trimmed(src))->Ok_0,
            parse_language(trimmed(tgt))->Ok_0, FileKind::Pdf)),
        lowercase(last_segment(name)) == "csv"@ ==> check_outcome(true, Some(name), Some(src), Some(tgt))
            == Ok::<(Language, Language, FileKind), Seq<char>>((parse_language(trimmed(src))->Ok_0,
            parse_language(trimmed(tgt))->Ok_0, FileKind::Csv)),
        lowercase(last_segment(name)) == "txt"@ ==> check_outcome(true, Some(name), Some(src), Some(tgt))
            == Ok::<(Language, Language, FileKind), Seq<char>>((parse_language(trimmed(src))->Ok_0,
            parse_language(trimmed(tgt))->Ok_0, FileKind::Txt)),
{
    lemma_file_kinds();
}

/// The kind of document an extension names: `docx`, `pdf`, `csv` or `txt`.
pub fn file_kind(ext: &str) -> (res: Option<FileKind>)
    ensures
        res == kind_of_extension(ext@),
        ext@ == "docx"@ ==> res == Some(FileKind::Docx),
        ext@ == "pdf"@ ==> res == Some(FileKind::Pdf),
        ext@ == "csv"@ ==> res == Some(FileKind::Csv),
        ext@ == "txt"@ ==> res == Some(FileKind::Txt),
{
    proof {
        lemma_file_kinds();
    }
    if same_text(ext, "docx") {
        Some(FileKind::Docx)
    } else if same_text(ext, "pdf") {
        Some(FileKind::Pdf)
    } else if same_text(ext, "csv") {
        Some(FileKind::Csv)
    } else if same_text(ext, "txt") {
        Some(FileKind::Txt)
    } else {
        None
    }
}

/// A checked upload: the file, its name, the two languages and its kind.
pub struct Upload {
    pub data: Vec<u8>,
    pub name: String,
    pub src: Language,
    pub tgt: Language,
    pub kind: FileKind,
}

/// Why an upload is refused.
#[derive(Debug)]
pub enum UploadError {
    MissingFile,
    MissingFileName,
    MissingSrc,
    MissingTgt,
    BadLanguage(String),
    Unsupported(String),
}

/// The model of an [`UploadError`]: the message that answers it.
pub open spec fn upload_error_text(e: UploadError) -> Seq<char> {
    match e {
        UploadError::MissingFile => "missing file field"@,
        UploadError::MissingFileName => "missing file name"@,
        UploadError::MissingSrc => "missing src field"@,
        UploadError::MissingTgt => "missing tgt field"@,
        UploadError::BadLanguage(m) => m@,
        UploadError::Unsupported(ext) => "unsupported file type: "@ + ext@,
    }
}

impl UploadError {
    /// The message sent back for this refusal.
    pub fn message(&self) -> (res: String)
        ensures
            res@ == upload_error_text(*self),
    {
        match self {
            UploadError::MissingFile => String::from_str("missing file field"),
            UploadError::MissingFileName => String::from_str("missing file name"),
            UploadError::MissingSrc => String::from_str("missing src field"),
            UploadError::MissingTgt => String::from_str("missing tgt field"),
            UploadError::BadLanguage(m) => m.clone(),
            UploadError::Unsupported(ext) => {
                let mut s = String::from_str("unsupported file type: ");
                s.append(ext.as_str());
                s
            },
        }
    }

    /// The HTTP status sent back for this refusal: always 400.
    pub fn status(&self) -> (res: u16)
        ensures
            res == BAD_REQUEST,
    {
        BAD_REQUEST
    }
}

/// The outcome of checking an upload's fields, as a model: the first field
/// that is missing or wrong decides the refusal, in the order file, file
/// name, source language, target language, file type. The languages are
/// read from their trimmed text.
pub open spec fn check_outcome(
    has_data: bool,
    name: Option<Seq<char>>,
    src: Option<Seq<char>>,
    tgt: Option<Seq<char>>,
) -> Result<(Language, Language, FileKind), Seq<char>> {
    if !has_data {
        Err("missing file field"@)
    } else if name is None {
        Err("missing file name"@)
    } else if src is None {
        Err("missing src field"@)
    } else if parse_language(trimmed(src->0)) is Err {
        Err(parse_language(trimmed(src->0))->Err_0)
    } else if tgt is None {
        Err("missing tgt field"@)
    } else if parse_language(trimmed(tgt->0)) is Err {
        Err(parse_language(trimmed(tgt->0))->Err_0)
    } else {
        let ext = lowercase(last_segment(name->0));
        match kind_of_extension(ext) {
            Some(k) => Ok((parse_language(trimmed(src->0))->Ok_0, parse_language(trimmed(tgt->0))->Ok_0, k)),
            None => Err("unsupported file type: "@ + ext),
        }
    }
}

fn trimmed_string(s: &String) -> (res: String)
    ensures
        res@ == trimmed(s@),
{
    let c = chars_of(s.as_str());
    string_from(&trim(&c))
}

/// Checks the fields of an upload and reads its languages and kind.
pub fn check_upload(
    file_data: Option<Vec<u8>>,
    file_name: Option<String>,
    src: Option<String>,
    tgt: Option<String>,
) -> (res: Result<Upload, UploadError>)
    ensures
        match (res, check_outcome(
            file_data is Some,
            match file_name {
                Some(n) => Some(n@),
                None => None,
            },
            match src {
                Some(s) => Some(s@),
                None => None,
            },
            match tgt {
                Some(t) => Some(t@),
                None => None,
            },
        )) {
            (Ok(u), Ok((s, t, k))) => u.src == s && u.tgt == t && u.kind == k && Some(u.data)
                == file_data && Some(u.name@) == (match file_name {
                Some(n) => Some(n@),
                None => None,
            }),
            (Err(e), Err(m)) => upload_error_text(e) == m,
            _ => false,
        },
{
    let data = match file_data {
        Some(d) => d,
        None => return Err(UploadError::MissingFile),
    };
    let name = match file_name {
        Some(n) => n,
        None => return Err(UploadError::MissingFileName),
    };
    let src_text = match &src {
        Some(s) => trimmed_string(s),
        None => return Err(UploadError::MissingSrc),
    };
    let src_lang = match Language::from_code(src_text.as_str()) {
        Ok(l) => l,
        Err(m) => return Err(UploadError::BadLanguage(m)),
    };
    let tgt_text = match &tgt {
        Some(t) => trimmed_string(t),
        None => return Err(UploadError::MissingTgt),
    };
    let tgt_lang = match Language::from_code(tgt_text.as_str()) {
        Ok(l) => l,
        Err(m) => return Err(UploadError::BadLanguage(m)),
    };
    let ext = file_extension(name.as_str());
    match file_kind(ext.as_str()) {
        Some(kind) => Ok(Upload { data, name, src: src_lang, tgt: tgt_lang, kind }),
        None => Err(UploadError::Unsupported(ext)),
    }
}

/// The name of the translated file: DOCX files get a `translated_` prefix;
/// the others get `_translated` before each `.pdf`, `.csv` or `.txt` in
/// their name.
pub open spec fn output_name_of(kind: FileKind, name: Seq<char>) -> Seq<char> {
    match kind {
        FileKind::Docx => "translated_"@ + name,
        FileKind::Pdf => replace_all(name, ".pdf"@, "_translated.pdf"@),
        FileKind::Csv => replace_all(name, ".csv"@, "_translated.csv"@),
        FileKind::Txt => replace_all(name, ".txt"@, "_translated.txt"@),
    }
}

fn replace_str(s: &str, pat: &str, rep: &str) -> (res: String)
    requires
        pat@.len() > 0,
    ensures
        res@ == replace_all(s@, pat@, rep@),
{
    let a = chars_of(s);
    let p = chars_of(pat);
    let r = chars_of(rep);
    string_from(&replace_chars(&a, &p, &r))
}

/// The name under which the translated file is sent back.
pub fn output_file_name(kind: FileKind, name: &str) -> (res: String)
    ensures
        res@ == output_name_of(kind, name@),
{
    proof {
        reveal_strlit(".pdf");
        reveal_strlit(".csv");
        reveal_strlit(".txt");
    }
    match kind {
        FileKind::Docx => {
            let mut s = String::from_str("translated_");
            s.append(name);
            s
        },
        FileKind::Pdf => replace_str(name, ".pdf", "_translated.pdf"),
        FileKind::Csv => replace_str(name, ".csv", "_translated.csv"),
        FileKind::Txt => replace_str(name, ".txt", "_translated.txt"),
    }
}

/// The media type of the translated file.
pub open spec fn content_type_of(kind: FileKind) -> Seq<char> {
    match kind {
        FileKind::Docx => "application/vnd.openxmlformats-officedocument.wordprocessingml.document"@,
        FileKind::Pdf => "application/pdf"@,
        FileKind::Csv => "text/csv; charset=utf-8"@,
        FileKind::Txt => "text/plain; charset=utf-8"@,
    }
}

/// The media type of the translated file.
pub fn content_type(kind: FileKind) -> (res: &'static str)
    ensures
        res@ == content_type_of(kind),
{
    match kind {
        FileKind::Docx => "application/vnd.openxmlformats-officedocument.wordprocessingml.document",
        FileKind::Pdf => "application/pdf",
        FileKind::Csv => "text/csv; charset=utf-8",
        FileKind::Txt => "text/plain; charset=utf-8",
    }
}

/// The `Content-Disposition` header that offers the file for download.
pub fn content_disposition(file_name: &str) -> (res: String)
    ensures
        res@ == "attachment; filename=\""@ + file_name@ + "\""@,
{
    let mut s = String::from_str("attachment; filename=\"");
    s.append(file_name);
    s.append("\"");
    s
}

} // verus!
