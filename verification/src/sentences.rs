//! Long texts go to the translation API sentence by sentence.
use unicode_segmentation::UnicodeSegmentation;
use vstd::prelude::*;
use vstd::string::StrSliceExecFns;
use crate::text::{
    chars_of, is_blank, is_whitespace, is_ws, lemma_trimmed_empty_iff_blank, push_all, string_from, trim,
};
use crate::txt::{opt_string_views, string_views};

verus! {

/// Texts longer than this many characters go to the API sentence by sentence.
pub const LONG_TEXT_CHARS: usize = 1000;

/// The pieces between the sentence boundaries (Unicode UAX #29) of a text,
/// in order.
pub uninterp spec fn sentence_bounds(text: Seq<char>) -> Seq<Seq<char>>;

/// The pieces one after the other.
pub open spec fn concat(pieces: Seq<Seq<char>>) -> Seq<char>
    decreases pieces.len(),
{
    if pieces.len() == 0 {
        Seq::empty()
    } else {
        concat(pieces.drop_last()) + pieces.last()
    }
}

/// The text cut at its sentence boundaries
/// (`UnicodeSegmentation::split_sentence_bounds`), each piece with the white
/// space that follows its sentence; the pieces together are the text, as the
/// crate documents.
#[verifier::external_body]
fn split_sentences(text: &str) -> (res: Vec<String>)
    ensures
        string_views(res@) == sentence_bounds(text@),
        concat(string_views(res@)) == text@,
{
    text.split_sentence_bounds().map(String::from).collect()
}

/// The pieces in which a text goes to the API: a text of more than
/// [`LONG_TEXT_CHARS`] characters sentence by sentence, any other text
/// whole. Together the pieces are the text.
pub fn translation_chunks(text: &str) -> (res: Vec<String>)
    ensures
        concat(string_views(res@)) == text@,
        text@.len() <= LONG_TEXT_CHARS ==> string_views(res@) == seq![text@],
        text@.len() > LONG_TEXT_CHARS ==> string_views(res@) == sentence_bounds(text@),
{
    if text.unicode_len() <= LONG_TEXT_CHARS {
        let mut v: Vec<String> = Vec::new();
        v.push(String::from_str(text));
        proof {
            assert(string_views(v@) =~= seq![text@]);
            assert(seq![text@].drop_last() =~= Seq::<Seq<char>>::empty());
            assert(concat(Seq::<Seq<char>>::empty()) == Seq::<char>::empty());
            assert(Seq::<char>::empty() + text@ =~= text@);
            assert(concat(seq![text@]) == concat(seq![text@].drop_last()) + text@);
        }
        v
    } else {
        split_sentences(text)
    }
}

/// What goes to the API of a piece: the piece, or nothing for a piece that
/// is all white space.
pub open spec fn chunk_request(c: Seq<char>) -> Option<Seq<char>> {
    if is_blank(c) {
        None
    } else {
        Some(c)
    }
}

/// For each piece, what goes to the API (see [`chunk_request`]).
pub fn pending_chunks(chunks: &Vec<String>) -> (res: Vec<Option<String>>)
    ensures
        res@.len() == chunks@.len(),
        forall|i: int|
            0 <= i < chunks@.len() ==> opt_string_views(res@)[i] == chunk_request(
                (#[trigger] chunks@[i])@,
            ),
{
    let mut res: Vec<Option<String>> = Vec::new();
    let mut i: usize = 0;
    while i < chunks.len()
        invariant
            i <= chunks@.len(),
            res@.len() == i,
            forall|k: int|
                0 <= k < i ==> opt_string_views(res@)[k] == chunk_request((#[trigger] chunks@[k])@),
        decreases chunks@.len() - i,
    {
        let cs = chars_of(chunks[i].as_str());
        let t = trim(&cs);
        proof {
            lemma_trimmed_empty_iff_blank(cs@);
        }
        if t.len() == 0 {
            res.push(None);
        } else {
            res.push(Some(chunks[i].clone()));
        }
        i = i + 1;
    }
    res
}

/// Whether a piece ends in white space.
pub open spec fn ends_in_ws(c: Seq<char>) -> bool {
    c.len() > 0 && is_ws(c.last())
}

/// What stands for a piece in the result: its translation, or the piece
/// itself where no translation came back. A translation of a piece that is
/// not the last and ended in white space is followed by a space, unless it
/// ends in white space itself, so that sentences stay apart.
pub open spec fn chunk_output(c: Seq<char>, tr: Option<Seq<char>>, last: bool) -> Seq<char> {
    match tr {
        Some(t) => if !last && ends_in_ws(c) && !ends_in_ws(t) {
            t + seq![' ']
        } else {
            t
        },
        None => c,
    }
}

/// What stands for each piece in the result.
pub open spec fn chunk_outputs(cs: Seq<Seq<char>>, trs: Seq<Option<Seq<char>>>) -> Seq<Seq<char>> {
    Seq::new(cs.len(), |i: int| chunk_output(cs[i], trs[i], i == cs.len() - 1))
}

/// Puts a text back together from its pieces and their translations (see
/// [`chunk_output`]).
pub fn assemble_chunks(chunks: &Vec<String>, translations: &Vec<Option<String>>) -> (res: String)
    requires
        translations@.len() == chunks@.len(),
    ensures
        res@ == concat(chunk_outputs(string_views(chunks@), opt_string_views(translations@))),
{
    let ghost outs = chunk_outputs(string_views(chunks@), opt_string_views(translations@));
    let mut out: Vec<char> = Vec::new();
    let mut i: usize = 0;
    while i < chunks.len()
        invariant
            i <= chunks@.len(),
            translations@.len() == chunks@.len(),
            outs == chunk_outputs(string_views(chunks@), opt_string_views(translations@)),
            out@ == concat(outs.take(i as int)),
        decreases chunks@.len() - i,
    {
        let c = chars_of(chunks[i].as_str());
        match &translations[i] {
            Some(t) => {
                let tc = chars_of(t.as_str());
                push_all(&mut out, &tc);
                let n: usize = c.len();
                let m: usize = tc.len();
                if i + 1 < chunks.len() && n > 0 && is_whitespace(c[n - 1]) && !(m > 0
                    && is_whitespace(tc[m - 1])) {
                    out.push(' ');
                }
            },
            None => {
                push_all(&mut out, &c);
            },
        }
        proof {
            assert(outs.take(i + 1).drop_last() =~= outs.take(i as int));
            assert(outs[i as int] == chunk_output(
                chunks@[i as int]@,
                opt_string_views(translations@)[i as int],
                i == chunks@.len() - 1,
            ));
        }
        i = i + 1;
    }
    proof {
        assert(outs.take(chunks@.len() as int) =~= outs);
    }
    string_from(&out)
}

/// Where no translation comes back, the pieces put back together are the
/// pieces as they were.
pub proof fn lemma_untranslated_chunks(cs: Seq<Seq<char>>, trs: Seq<Option<Seq<char>>>)
    requires
        trs.len() == cs.len(),
        forall|i: int| 0 <= i < trs.len() ==> #[trigger] trs[i] is None,
    ensures
        concat(chunk_outputs(cs, trs)) == concat(cs),
{
    assert(chunk_outputs(cs, trs) =~= cs);
}

} // verus!
