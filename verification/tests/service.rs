use tmt::client::{
    accept_response, api_error_message, bearer_value, parse_u64, rate_limit_message, request_delay,
    RetryAction, RetryState, API_URL, MAX_RETRIES, MIN_REQUEST_SPACING_MS,
};
use tmt::handler::{
    check_upload, content_disposition, content_type, file_extension, file_kind, output_file_name,
    FileKind, UploadError,
};
use tmt::server::{check_job_request, compose_job_names, job_kind, job_names, parse_lang, status_label, JobKind, JobRecord, JobStatus};
use tmt::types::request::{ApiError, Language, ResponseStatus, TranslationRequest, TranslationResponse};

#[test]
fn language_codes_round_trip() {
    for l in [Language::English, Language::Nepali, Language::Tamang] {
        assert_eq!(Language::from_code(l.code()).unwrap(), l);
        assert_eq!(l.code().parse::<Language>().unwrap(), l);
    }
    assert_eq!(Language::from_code("fr").unwrap_err(), "unknown language: fr");
    assert_eq!(Language::from_code("EN").unwrap_err(), "unknown language: EN");
}

#[test]
fn translation_request_holds_its_fields() {
    let r = TranslationRequest::new("hello", Language::English, Language::Tamang);
    assert_eq!(r.text, "hello");
    assert_eq!(r.src_lang, Language::English);
    assert_eq!(r.tgt_lang, Language::Tamang);
}

#[test]
fn parse_u64_follows_std() {
    for s in ["0", "42", "+7", "", "+", "-1", "1a", " 1", "18446744073709551615", "18446744073709551616", "0042"] {
        assert_eq!(parse_u64(s), s.parse::<u64>().ok(), "input {:?}", s);
    }
}

#[test]
fn retries_back_off_then_give_up() {
    let mut st = RetryState::new();
    for k in 1..=MAX_RETRIES {
        assert_eq!(st.on_response(429, None), RetryAction::Wait(2u64.pow(k)));
    }
    assert_eq!(st.on_response(429, None), RetryAction::GiveUp);
    assert_eq!(st.on_response(429, Some("1")), RetryAction::GiveUp);
}

#[test]
fn retry_after_header_sets_the_wait() {
    let mut st = RetryState::new();
    assert_eq!(st.on_response(429, Some("7")), RetryAction::Wait(7));
    assert_eq!(st.on_response(429, Some("soon")), RetryAction::Wait(4));
    assert_eq!(st.on_response(200, None), RetryAction::ReadBody);
    assert_eq!(RetryState::new().on_response(500, Some("3")), RetryAction::ReadBody);
}

#[test]
fn client_messages() {
    assert_eq!(bearer_value("SECRET-REDACTED"), "Bearer SECRET-REDACTED");
    assert_eq!(rate_limit_message(), "Rate limit exceeded");
    assert_eq!(api_error_message(None), "Unknown API error");
    assert_eq!(api_error_message(Some(ApiError { message: "bad lang".to_string() })), "bad lang");
    assert!(API_URL.starts_with("https://"));
}

fn response(status: ResponseStatus) -> TranslationResponse {
    TranslationResponse {
        message_type: status,
        message: "msg".to_string(),
        src_lang: "en".to_string(),
        input: "hi".to_string(),
        target_lang: "ne".to_string(),
        output: "नमस्ते".to_string(),
        timestamp: "t".to_string(),
    }
}

#[test]
fn accept_response_by_status() {
    assert_eq!(accept_response(response(ResponseStatus::Success)).unwrap().output, "नमस्ते");
    assert_eq!(accept_response(response(ResponseStatus::Fail)).unwrap_err(), "msg");
}

#[test]
fn file_extension_is_last_segment_lowercased() {
    assert_eq!(file_extension("Report.Final.DOCX"), "docx");
    assert_eq!(file_extension("noext"), "noext");
    assert_eq!(file_extension("trailing."), "");
    assert_eq!(file_kind("txt"), Some(FileKind::Txt));
    assert_eq!(file_kind("doc"), None);
}

fn upload_err(r: Result<tmt::handler::Upload, UploadError>) -> String {
    match r {
        Err(e) => {
            assert_eq!(e.status(), 400);
            e.message()
        }
        Ok(_) => panic!("expected a refusal"),
    }
}

#[test]
fn check_upload_refusals() {
    let s = |x: &str| Some(x.to_string());
    assert_eq!(upload_err(check_upload(None, s("a.txt"), s("en"), s("ne"))), "missing file field");
    assert_eq!(upload_err(check_upload(Some(vec![]), None, s("en"), s("ne"))), "missing file name");
    assert_eq!(upload_err(check_upload(Some(vec![]), s("a.txt"), None, s("ne"))), "missing src field");
    assert_eq!(upload_err(check_upload(Some(vec![]), s("a.txt"), s("xx"), s("ne"))), "unknown language: xx");
    assert_eq!(upload_err(check_upload(Some(vec![]), s("a.txt"), s("en"), None)), "missing tgt field");
    assert_eq!(upload_err(check_upload(Some(vec![]), s("a.exe"), s("en"), s("ne"))), "unsupported file type: exe");
}

#[test]
fn check_upload_accepts_trimmed_languages() {
    let u = check_upload(Some(vec![1, 2]), Some("Notes.TXT".to_string()), Some(" en ".to_string()), Some("tmg\n".to_string())).unwrap();
    assert_eq!(u.kind, FileKind::Txt);
    assert_eq!(u.src, Language::English);
    assert_eq!(u.tgt, Language::Tamang);
    assert_eq!(u.data, vec![1, 2]);
}

#[test]
fn output_names_and_types() {
    assert_eq!(output_file_name(FileKind::Docx, "a.docx"), "translated_a.docx");
    assert_eq!(output_file_name(FileKind::Pdf, "a.pdf"), "a_translated.pdf");
    assert_eq!(output_file_name(FileKind::Csv, "x.csv.csv"), "x_translated.csv_translated.csv");
    assert_eq!(output_file_name(FileKind::Txt, "A.TXT"), "A.TXT");
    assert_eq!(content_type(FileKind::Pdf), "application/pdf");
    assert_eq!(content_type(FileKind::Txt), "text/plain; charset=utf-8");
    assert_eq!(content_disposition("a b.pdf"), "attachment; filename=\"a b.pdf\"");
}

#[test]
fn job_requests_are_checked() {
    assert_eq!(parse_lang("tmg"), Some(Language::Tamang));
    assert_eq!(parse_lang("TMG"), None);
    assert_eq!(check_job_request(None, Some(Language::English), None).err().unwrap(), "No file");
    let f = || Some((None, vec![9u8]));
    assert_eq!(check_job_request(f(), None, Some(Language::Nepali)).err().unwrap(), "Invalid src_lang");
    assert_eq!(check_job_request(f(), Some(Language::English), None).err().unwrap(), "Invalid tgt_lang");
    let r = check_job_request(f(), Some(Language::English), Some(Language::Nepali)).unwrap();
    assert_eq!(r.file_name, "file");
    assert_eq!(r.data, vec![9]);
}

#[test]
fn job_names_follow_path_rules() {
    let n = job_names("report.pdf");
    assert_eq!((n.ext.as_str(), n.output_file_name.as_str()), ("pdf", "report_translated.docx"));
    let n = job_names("data.tar.csv");
    assert_eq!((n.ext.as_str(), n.output_file_name.as_str()), ("csv", "data.tar_translated.csv"));
    let n = job_names(".hidden");
    assert_eq!((n.ext.as_str(), n.output_file_name.as_str()), ("", ".hidden_translated."));
    let n = job_names("");
    assert_eq!(n.output_file_name, "output_translated.");
}

#[test]
fn job_kinds_and_status() {
    assert_eq!(job_kind("tsv"), Some(JobKind::Csv));
    assert_eq!(job_kind("docx"), Some(JobKind::Docx));
    assert_eq!(job_kind("txt"), None);
    assert_eq!(status_label(JobStatus::Processing), "processing");
    let mut j = JobRecord::new("out.docx".to_string());
    assert_eq!(j.download_check(), Err(409));
    j.finish(Err("boom".to_string()));
    assert_eq!(j.status, JobStatus::Error);
    assert_eq!(j.error.as_deref(), Some("boom"));
    assert_eq!(j.download_check(), Err(409));
    let mut k = JobRecord::new("o".to_string());
    k.finish(Ok(()));
    assert_eq!(k.download_check(), Ok(()));
    assert_eq!(status_label(k.status), "done");
}

#[test]
fn compose_job_names_from_parts() {
    let n = compose_job_names(Some("a".to_string()), Some("pdf".to_string()));
    assert_eq!((n.ext.as_str(), n.output_file_name.as_str()), ("pdf", "a_translated.docx"));
    let n = compose_job_names(None, None);
    assert_eq!((n.ext.as_str(), n.output_file_name.as_str()), ("", "output_translated."));
    let n = compose_job_names(Some("b".to_string()), Some("tsv".to_string()));
    assert_eq!(n.output_file_name, "b_translated.tsv");
}

#[test]
fn request_spacing_waits_out_the_gap() {
    assert_eq!(MIN_REQUEST_SPACING_MS, 1500);
    assert_eq!(request_delay(None, 0), 0);
    assert_eq!(request_delay(Some(1000), 2000), 500);
    assert_eq!(request_delay(Some(1000), 2500), 0);
    assert_eq!(request_delay(Some(1000), 3000), 0);
    assert_eq!(request_delay(Some(1000), 500), 2000);
    assert_eq!(request_delay(Some(u64::MAX), 0), u64::MAX);
}

#[test]
fn finished_job_reports_full_progress() {
    let mut j = JobRecord::new("out.csv".to_string());
    assert_eq!(j.progress, 0);
    assert_eq!(j.status, JobStatus::Processing);
    j.finish(Ok(()));
    assert_eq!(j.progress, 100);
    assert_eq!(j.status, JobStatus::Done);
    assert_eq!(j.error, None);
    let mut e = JobRecord::new("out.csv".to_string());
    e.finish(Err("Unsupported format".to_string()));
    assert_eq!(e.progress, 0);
    assert_eq!(e.status, JobStatus::Error);
    assert_eq!(e.error.as_deref(), Some("Unsupported format"));
}

#[test]
fn upper_case_docx_is_a_docx() {
    assert_eq!(file_extension("REPORT.DOCX"), "docx");
    assert_eq!(file_kind(&file_extension("Data.CSV")), Some(FileKind::Csv));
}
