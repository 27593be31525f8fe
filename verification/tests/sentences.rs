use tmt::sentences::{assemble_chunks, pending_chunks, translation_chunks, LONG_TEXT_CHARS};

#[test]
fn short_text_goes_whole() {
    let text = "Mr. Fox jumped. [...] The dog was too lazy.";
    assert_eq!(translation_chunks(text), vec![text.to_string()]);
    let chunks = translation_chunks("");
    assert_eq!(chunks, vec![String::new()]);
}

#[test]
fn long_text_goes_sentence_by_sentence() {
    assert_eq!(LONG_TEXT_CHARS, 1000);
    let text = "Mr. Fox jumped. [...] The dog was too lazy. ".repeat(30);
    assert!(text.chars().count() > LONG_TEXT_CHARS);
    let chunks = translation_chunks(&text);
    assert_eq!(chunks.concat(), text);
    assert_eq!(chunks.len(), 120);
    assert_eq!(chunks[0], "Mr. ");
    assert_eq!(chunks[1], "Fox jumped. ");
    assert_eq!(chunks[2], "[...] ");
    assert_eq!(chunks[3], "The dog was too lazy. ");
}

#[test]
fn pending_chunks_skip_blank_pieces() {
    let chunks = vec!["Hi. ".to_string(), "  ".to_string(), "Bye.".to_string()];
    assert_eq!(
        pending_chunks(&chunks),
        vec![Some("Hi. ".to_string()), None, Some("Bye.".to_string())]
    );
}

#[test]
fn assembled_pieces_keep_sentences_apart() {
    let chunks = vec!["Hi. ".to_string(), "  ".to_string(), "Bye. ".to_string()];
    let trs = vec![Some("नमस्ते।".to_string()), None, Some("बिदा।".to_string())];
    assert_eq!(assemble_chunks(&chunks, &trs), "नमस्ते।   बिदा।");
    let untranslated = vec![None, None, None];
    assert_eq!(assemble_chunks(&chunks, &untranslated), "Hi.   Bye. ");
    let spaced = vec![Some("a ".to_string()), None, Some("b".to_string())];
    assert_eq!(assemble_chunks(&chunks, &spaced), "a   b");
}
