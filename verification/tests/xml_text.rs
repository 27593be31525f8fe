use tmt::docx::{
    find_bytes, find_next_wt, is_translation_target, needs_smaller_font, parse_part, parse_wt_tokens,
    rebuild_xml, texts_to_translate, xml_decode, xml_encode, XmlToken,
};
use tmt::types::request::Language;

fn chars(s: &str) -> Vec<char> {
    s.chars().collect()
}

#[test]
fn find_bytes_finds_first_occurrence_from_start() {
    let h = chars("abcabc");
    let n = chars("bc");
    assert_eq!(find_bytes(&h, 0, &n), Some(1));
    assert_eq!(find_bytes(&h, 2, &n), Some(4));
    assert_eq!(find_bytes(&h, 5, &n), None);
    assert_eq!(find_bytes(&h, 6, &n), None);
}

#[test]
fn find_next_wt_takes_the_earlier_tag_form() {
    let s = chars("xx<w:t xml:space=\"preserve\">a</w:t><w:t>b</w:t>");
    assert_eq!(find_next_wt(&s, 0), Some(2));
    assert_eq!(find_next_wt(&s, 3), Some(35));
    assert_eq!(find_next_wt(&chars("<w:tbl>"), 0), None);
}

#[test]
fn xml_decode_replaces_entities_in_order() {
    assert_eq!(xml_decode("a &lt;b&gt; &amp; &quot;c&quot; &apos;d&apos;"), "a <b> & \"c\" 'd'");
    // `&amp;` goes first, so an escaped entity is decoded twice.
    assert_eq!(xml_decode("&amp;lt;"), "<");
}

#[test]
fn xml_encode_escapes_markup() {
    assert_eq!(xml_encode("a<b>&c\"d'"), "a&lt;b&gt;&amp;c\"d'");
    assert_eq!(xml_encode("plain"), "plain");
}

#[test]
fn encoded_text_has_no_markup() {
    let e = xml_encode("<<>>&&<w:t>");
    assert!(!e.contains('<') && !e.contains('>'));
}

fn lit(t: &XmlToken) -> Option<&str> {
    match t {
        XmlToken::Literal(s) => Some(s.as_str()),
        _ => None,
    }
}

#[test]
fn parse_wt_tokens_splits_runs_and_literals() {
    let xml = "<w:p><w:r><w:t>Hello &amp; bye</w:t></w:r><w:t xml:space=\"preserve\"> x </w:t></w:p>";
    let toks = parse_wt_tokens(xml);
    assert_eq!(toks.len(), 5);
    assert_eq!(lit(&toks[0]), Some("<w:p><w:r>"));
    match &toks[1] {
        XmlToken::Text(n) => {
            assert_eq!(n.open_tag, "<w:t>");
            assert_eq!(n.text, "Hello & bye");
            assert_eq!(n.close_tag, "</w:t>");
        }
        _ => panic!("expected a text run"),
    }
    assert_eq!(lit(&toks[2]), Some("</w:r>"));
    match &toks[3] {
        XmlToken::Text(n) => {
            assert_eq!(n.open_tag, "<w:t xml:space=\"preserve\">");
            assert_eq!(n.text, " x ");
        }
        _ => panic!("expected a text run"),
    }
    assert_eq!(lit(&toks[4]), Some("</w:p>"));
}

#[test]
fn parse_wt_tokens_copies_unclosed_runs() {
    let toks = parse_wt_tokens("ab<w:t>never closed");
    assert_eq!(toks.len(), 2);
    assert_eq!(lit(&toks[0]), Some("ab"));
    assert_eq!(lit(&toks[1]), Some("<w:t>never closed"));
    let toks = parse_wt_tokens("<w:t no end");
    assert_eq!(toks.len(), 1);
    assert_eq!(lit(&toks[0]), Some("<w:t no end"));
    assert!(parse_wt_tokens("").is_empty());
}

#[test]
fn texts_to_translate_skips_blank_runs_and_literals() {
    let toks = parse_wt_tokens("<a/><w:t> </w:t><w:t>Hi</w:t>");
    let pending = texts_to_translate(&toks);
    assert_eq!(pending, vec![None, None, Some("Hi".to_string())]);
}

#[test]
fn rebuild_xml_places_and_escapes_translations() {
    let xml = "<w:p><w:t>Hello</w:t><w:t> </w:t><w:t>Keep</w:t></w:p>";
    let toks = parse_wt_tokens(xml);
    let trs = vec![
        None,
        Some("नमस्ते <1>".to_string()),
        Some("ignored".to_string()),
        None,
        None,
    ];
    let out = rebuild_xml(&toks, &trs);
    assert_eq!(out, "<w:p><w:t>नमस्ते &lt;1&gt;</w:t><w:t> </w:t><w:t>Keep</w:t></w:p>");
}

#[test]
fn untranslated_document_comes_back_unchanged() {
    let xml = "<w:body><w:t xml:space=\"preserve\">a &amp; b &lt;c&gt;</w:t><w:tbl/>tail</w:body>";
    let toks = parse_wt_tokens(xml);
    let none = vec![None; toks.len()];
    assert_eq!(rebuild_xml(&toks, &none), xml);
}

#[test]
fn parse_part_reads_invalid_utf8_lossily() {
    let mut bytes = b"<w:t>a".to_vec();
    bytes.push(0xff);
    bytes.extend_from_slice(b"</w:t>");
    let toks = parse_part(&bytes);
    match &toks[0] {
        XmlToken::Text(n) => assert_eq!(n.text, "a\u{fffd}"),
        _ => panic!("expected a text run"),
    }
}

#[test]
fn translation_targets_are_body_headers_and_footers() {
    assert!(is_translation_target("word/document.xml", false));
    assert!(is_translation_target("word/footer3.xml", false));
    assert!(!is_translation_target("word/document.xml", true));
    assert!(!is_translation_target("word/styles.xml", false));
    assert!(!is_translation_target("word/header4.xml", false));
}

#[test]
fn smaller_fonts_for_nepali_and_tamang() {
    assert!(needs_smaller_font(Language::Nepali));
    assert!(needs_smaller_font(Language::Tamang));
    assert!(!needs_smaller_font(Language::English));
}

#[test]
fn identity_translation_changes_nothing() {
    let xml = "<w:t>a &quot;b&quot;</w:t><x/><w:t>  </w:t><w:t>c</w:t>";
    let toks = parse_wt_tokens(xml);
    let same = texts_to_translate(&toks);
    let none = vec![None; toks.len()];
    assert_eq!(rebuild_xml(&toks, &same), rebuild_xml(&toks, &none));
    assert_eq!(rebuild_xml(&toks, &none), "<w:t>a \"b\"</w:t><x/><w:t>  </w:t><w:t>c</w:t>");
}

#[test]
fn decoding_undoes_encoding() {
    for s in ["plain", "a < b & c > d", "&amp; stays", "Tom & Jerry's \"show\"", ""] {
        assert_eq!(xml_decode(&xml_encode(s)), s);
    }
    assert_eq!(xml_encode("a<b"), "a&lt;b");
    assert_eq!(xml_decode(&xml_encode("&lt;")), "<");
}
