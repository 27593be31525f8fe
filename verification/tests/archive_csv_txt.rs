use std::str::FromStr;
use tmt::archive::{read_archive, write_archive, ArchiveEntry, ArchiveError};
use tmt::csv::{
    apply_cell_translations, cells_to_translate, read_csv_rows, translatable_cell, write_csv_rows,
    CellRef, CsvError,
};
use tmt::docx::finish_docx;
use tmt::txt::{assemble_txt, pending_lines, txt_lines, TxtError};

fn entry(name: &str, content: &[u8], is_dir: bool) -> ArchiveEntry {
    ArchiveEntry { name: name.to_string(), content: content.to_vec(), is_dir }
}

#[test]
fn archive_written_reads_back() {
    let entries = vec![
        entry("word/", b"", true),
        entry("word/document.xml", b"<w:t>Hi</w:t>", false),
        entry("[Content_Types].xml", b"<Types/>", false),
    ];
    let bytes = write_archive(&entries).unwrap();
    let back = read_archive(&bytes).unwrap();
    assert_eq!(back.len(), 3);
    for (a, b) in entries.iter().zip(back.iter()) {
        assert_eq!(a.name, b.name);
        assert_eq!(a.content, b.content);
        assert_eq!(a.is_dir, b.is_dir);
    }
}

#[test]
fn archive_directory_names_get_a_slash() {
    let bytes = write_archive(&vec![entry("media", b"", true)]).unwrap();
    let back = read_archive(&bytes).unwrap();
    assert_eq!(back[0].name, "media/");
    assert!(back[0].is_dir);
}

#[test]
fn archive_rejects_garbage() {
    assert!(matches!(read_archive(b"not a zip file"), Err(ArchiveError::Zip(_))));
}

#[test]
fn archive_rejects_duplicate_names() {
    let entries = vec![entry("a.xml", b"1", false), entry("a.xml", b"2", false)];
    assert!(matches!(write_archive(&entries), Err(ArchiveError::Zip(_))));
}

#[test]
fn finish_docx_replaces_only_rewritten_parts() {
    let entries = vec![
        entry("word/document.xml", b"<w:t>Hello</w:t>", false),
        entry("word/styles.xml", b"<styles/>", false),
    ];
    let bytes = finish_docx(entries, vec![Some("<w:t>नमस्ते</w:t>".to_string()), None]).unwrap();
    let back = read_archive(&bytes).unwrap();
    assert_eq!(back[0].content, "<w:t>नमस्ते</w:t>".as_bytes());
    assert_eq!(back[1].content, b"<styles/>");
}

fn table(rows: &[&[&str]]) -> Vec<Vec<String>> {
    rows.iter().map(|r| r.iter().map(|c| c.to_string()).collect()).collect()
}

#[test]
fn csv_reads_every_record_as_data() {
    let rows = read_csv_rows(b"name,city\n\"Ram, Jr\",Kathmandu\n").unwrap();
    assert_eq!(rows, table(&[&["name", "city"], &["Ram, Jr", "Kathmandu"]]));
}

#[test]
fn csv_rejects_ragged_rows() {
    assert!(matches!(read_csv_rows(b"a,b\nc\n"), Err(CsvError::Csv(_))));
}

#[test]
fn csv_writes_quoted_fields() {
    let out = write_csv_rows(&table(&[&["a", "b,c"], &["x", "y"]])).unwrap();
    assert_eq!(out, b"a,\"b,c\"\nx,y\n");
}

#[test]
fn csv_writer_rejects_ragged_rows() {
    assert!(matches!(write_csv_rows(&table(&[&["a", "b"], &["c"]])), Err(CsvError::Csv(_))));
}

#[test]
fn translatable_cells_exclude_numbers_emails_urls() {
    assert!(translatable_cell("  Hello world "));
    assert!(!translatable_cell("   "));
    assert!(!translatable_cell("1,234.50"));
    assert!(!translatable_cell("-42"));
    assert!(translatable_cell("-"));
    assert!(!translatable_cell("ram@example.com"));
    assert!(translatable_cell("a@b"));
    assert!(translatable_cell("a@@b.com"));
    assert!(!translatable_cell("https://example.com/x"));
    assert!(!translatable_cell("www.ku.edu.np"));
    assert!(translatable_cell("visit www.ku.edu.np"));
}

#[test]
fn cells_to_translate_lists_trimmed_text_row_by_row() {
    let rows = table(&[&[" Hello ", "42"], &["", "bye@x.org", "Good day"]]);
    let cells = cells_to_translate(&rows);
    let got: Vec<(usize, usize, String)> = cells.into_iter().map(|c| (c.row, c.col, c.text)).collect();
    assert_eq!(got, vec![(0, 0, "Hello".to_string()), (1, 2, "Good day".to_string())]);
}

#[test]
fn apply_cell_translations_writes_in_place() {
    let mut rows = table(&[&[" Hello ", "42"], &["", "Good day"]]);
    let done = vec![
        CellRef { row: 0, col: 0, text: "नमस्ते".to_string() },
        CellRef { row: 1, col: 1, text: "Good day".to_string() },
    ];
    apply_cell_translations(&mut rows, &done);
    assert_eq!(rows, table(&[&["नमस्ते", "42"], &["", "Good day"]]));
}

#[test]
fn txt_lines_normalise_and_trim() {
    let lines = txt_lines(b"  one \r\ntwo\rthree\n\n four").unwrap();
    assert_eq!(lines, vec!["one", "two", "three", "", "four"]);
    assert_eq!(txt_lines(b"").unwrap(), vec![""]);
}

#[test]
fn txt_lines_reject_invalid_utf8() {
    assert!(matches!(txt_lines(&[0x66, 0xff]), Err(TxtError::InvalidUtf8(_))));
}

#[test]
fn txt_pending_lines_skip_blank_lines() {
    let lines = vec!["a".to_string(), "".to_string(), "b".to_string()];
    assert_eq!(pending_lines(&lines), vec![Some("a".to_string()), None, Some("b".to_string())]);
}

#[test]
fn txt_assembly_keeps_line_structure() {
    let lines = vec!["Hello".to_string(), "".to_string(), "World".to_string()];
    let trs = vec![Some("नमस्ते".to_string()), Some("x".to_string()), None];
    let out = assemble_txt(&lines, &trs);
    assert_eq!(String::from_utf8(out.clone()).unwrap(), "नमस्ते\n\nWorld");
    assert_eq!(String::from_utf8(out).unwrap().split('\n').count(), lines.len());
}

#[test]
fn csv_only_chosen_cells_change() {
    let original = table(&[&["Hello", "12", " "], &["a@b.co", "World", "http://x.y"]]);
    let mut rows = original.clone();
    let chosen = cells_to_translate(&rows);
    let done: Vec<CellRef> = chosen
        .into_iter()
        .map(|c| CellRef { row: c.row, col: c.col, text: format!("[{}]", c.text) })
        .collect();
    apply_cell_translations(&mut rows, &done);
    assert_eq!(rows, table(&[&["[Hello]", "12", " "], &["a@b.co", "[World]", "http://x.y"]]));
    assert_eq!(rows.len(), original.len());
}

#[test]
fn csv_writes_empty_and_uniform_tables() {
    assert_eq!(write_csv_rows(&vec![]).unwrap(), b"");
    assert_eq!(write_csv_rows(&table(&[&["a"], &["b"]])).unwrap(), b"a\nb\n");
}

#[test]
fn language_from_str_matches_codes() {
    assert_eq!(tmt::types::request::Language::from_str("tmg").unwrap(), tmt::types::request::Language::Tamang);
    assert_eq!(tmt::types::request::Language::from_str("xx").unwrap_err(), "unknown language: xx");
}

#[test]
fn csv_rejects_invalid_utf8_field() {
    assert!(matches!(read_csv_rows(b"a\n\xff\n"), Err(CsvError::Csv(_))));
}

#[test]
fn csv_accepts_records_of_equal_width() {
    let rows = read_csv_rows(b"a,b\nc,d\n").unwrap();
    assert_eq!(rows, table(&[&["a", "b"], &["c", "d"]]));
}

#[test]
fn docx_with_distinct_entries_is_rewritten_entry_for_entry() {
    let entries = vec![
        entry("word/", b"", true),
        entry("word/document.xml", b"<w:t>Hello</w:t>", false),
        entry("docProps/app.xml", b"<app/>", false),
    ];
    let bytes = write_archive(&entries).unwrap();
    let read = read_archive(&bytes).unwrap();
    let bytes2 = finish_docx(read, vec![None, Some("<w:t>Hi</w:t>".to_string()), None]).unwrap();
    let back = read_archive(&bytes2).unwrap();
    assert_eq!(back.len(), 3);
    assert_eq!(back[0].name, "word/");
    assert!(back[0].is_dir);
    assert_eq!(back[1].name, "word/document.xml");
    assert_eq!(back[1].content, b"<w:t>Hi</w:t>");
    assert_eq!(back[2].name, "docProps/app.xml");
    assert_eq!(back[2].content, b"<app/>");
}

#[test]
fn archive_takes_long_names() {
    let long = format!("word/{}.xml", "n".repeat(20000));
    let entries = vec![entry(&long, b"<x/>", false), entry("a.xml", b"1", false)];
    let bytes = write_archive(&entries).unwrap();
    let back = read_archive(&bytes).unwrap();
    assert_eq!(back[0].name, long);
    assert_eq!(back[0].content, b"<x/>");
}
