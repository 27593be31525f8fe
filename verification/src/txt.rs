//! Plain-text documents: translated line by line, so that the line structure
//! of the file is kept.
use vstd::prelude::*;
use vstd::string::StrSliceExecFns;
use vstd::utf8::{valid_utf8, decode_utf8, encode_utf8};
use std::str::Utf8Error;
use crate::text::{
    replace_all, replace_chars, split_on, join_with, trimmed, trim, string_from, chars_of,
    push_all, lemma_split_on_shape, lemma_split_join,
};

verus! {

#[verifier::external_type_specification]
#[verifier::external_body]
pub struct ExUtf8Error(Utf8Error);

/// Why a text file could not be read.
#[derive(Debug)]
pub enum TxtError {
    InvalidUtf8(Utf8Error),
}

/// Reads bytes as UTF-8 (`std::str::from_utf8`): it succeeds exactly on
/// valid UTF-8, and then gives the text the bytes encode.
#[verifier::external_body]
fn str_from_utf8(bytes: &[u8]) -> (res: Result<&str, Utf8Error>)
    ensures
        res is Ok <==> valid_utf8(bytes@),
        res matches Ok(s) ==> s@ == decode_utf8(bytes@),
{
    std::str::from_utf8(bytes)
}

/// Text with `\r\n` and then lone `\r` turned into `\n`.
pub open spec fn normalize_newlines(s: Seq<char>) -> Seq<char> {
    replace_all(replace_all(s, seq!['\r', '\n'], seq!['\n']), seq!['\r'], seq!['\n'])
}

/// The lines of a text, each trimmed of surrounding white space.
pub open spec fn trimmed_lines(s: Seq<char>) -> Seq<Seq<char>> {
    split_on(normalize_newlines(s), '\n').map_values(|l: Seq<char>| trimmed(l))
}

/// The models of a sequence of strings.
pub open spec fn string_views(v: Seq<String>) -> Seq<Seq<char>> {
    v.map_values(|s: String| s@)
}

fn split_lines(s: &[char]) -> (res: Vec<Vec<char>>)
    ensures
        res@.len() == split_on(s@, '\n').len(),
        forall|i: int| 0 <= i < res@.len() ==> (#[trigger] res@[i])@ == split_on(s@, '\n')[i],
{
    let mut pieces: Vec<Vec<char>> = Vec::new();
    let mut cur: Vec<char> = Vec::new();
    let mut i: usize = 0;
    assert(s@.take(0) =~= Seq::<char>::empty());
    while i < s.len()
        invariant
            i <= s@.len(),
            pieces@.len() + 1 == split_on(s@.take(i as int), '\n').len(),
            forall|k: int|
                0 <= k < pieces@.len() ==> (#[trigger] pieces@[k])@ == split_on(
                    s@.take(i as int),
                    '\n',
                )[k],
            cur@ == split_on(s@.take(i as int), '\n').last(),
        decreases s@.len() - i,
    {
        proof {
            lemma_split_on_shape(s@.take(i as int), '\n');
            assert(s@.take(i + 1).drop_last() =~= s@.take(i as int));
            assert(s@.take(i + 1).last() == s@[i as int]);
        }
        if s[i] == '\n' {
            pieces.push(cur);
            cur = Vec::new();
        } else {
            cur.push(s[i]);
        }
        i = i + 1;
    }
    assert(s@.take(i as int) =~= s@);
    let ghost before = pieces@;
    pieces.push(cur);
    assert forall|k: int| 0 <= k < pieces@.len() implies (#[trigger] pieces@[k])@ == split_on(
        s@,
        '\n',
    )[k] by {
        if k < before.len() {
            assert(pieces@[k] == before[k]);
        }
    }
    pieces
}

/// Reads a text file into its lines: line endings are normalised to `\n`,
/// the text is split at each `\n`, and each line is trimmed. Fails exactly
/// when the bytes are not UTF-8.
pub fn txt_lines(data: &[u8]) -> (res: Result<Vec<String>, TxtError>)
    ensures
        res is Ok <==> valid_utf8(data@),
        res matches Ok(lines) ==> string_views(lines@) == trimmed_lines(decode_utf8(data@)),
{
    let text = match str_from_utf8(data) {
        Ok(t) => t,
        Err(e) => return Err(TxtError::InvalidUtf8(e)),
    };
    let chars = chars_of(text);
    let crlf = ['\r', '\n'];
    let cr = ['\r'];
    let lf = ['\n'];
    assert(crlf@ =~= seq!['\r', '\n']);
    assert(cr@ =~= seq!['\r']);
    assert(lf@ =~= seq!['\n']);
    let a = replace_chars(&chars, &crlf, &lf);
    let normalized = replace_chars(&a, &cr, &lf);
    let pieces = split_lines(&normalized);
    let ghost target = trimmed_lines(decode_utf8(data@));
    let mut lines: Vec<String> = Vec::new();
    let mut i: usize = 0;
    while i < pieces.len()
        invariant
            i <= pieces@.len(),
            target.len() == pieces@.len(),
            forall|k: int| 0 <= k < pieces@.len() ==> target[k] == trimmed((#[trigger] pieces@[k])@),
            lines@.len() == i,
            forall|k: int| 0 <= k < i ==> (#[trigger] lines@[k])@ == target[k],
        decreases pieces@.len() - i,
    {
        let t = trim(&pieces[i]);
        lines.push(string_from(&t));
        i = i + 1;
    }
    assert(string_views(lines@) =~= target);
    Ok(lines)
}

/// The text that one line becomes: a blank line stays blank, a translated
/// line is replaced, and a line whose translation failed is kept.
pub open spec fn output_line(line: Seq<char>, tr: Option<Seq<char>>) -> Seq<char> {
    if line.len() == 0 {
        Seq::empty()
    } else {
        match tr {
            Some(t) => t,
            None => line,
        }
    }
}

/// The models of optional strings.
pub open spec fn opt_string_views(v: Seq<Option<String>>) -> Seq<Option<Seq<char>>> {
    v.map_values(
        |o: Option<String>|
            match o {
                Some(s) => Some(s@),
                None => None,
            },
    )
}

/// The output lines for the given lines and translations.
pub open spec fn output_lines(lines: Seq<Seq<char>>, trs: Seq<Option<Seq<char>>>) -> Seq<Seq<char>> {
    Seq::new(lines.len(), |i: int| output_line(lines[i], trs[i]))
}

/// For each line, the text to send for translation: every line that is not empty.
pub fn pending_lines(lines: &Vec<String>) -> (res: Vec<Option<String>>)
    ensures
        res@.len() == lines@.len(),
        forall|i: int|
            0 <= i < lines@.len() ==> opt_string_views(res@)[i] == (if (#[trigger] lines@[i])@.len()
                == 0 {
                None
            } else {
                Some(lines@[i]@)
            }),
{
    let mut res: Vec<Option<String>> = Vec::new();
    let mut i: usize = 0;
    while i < lines.len()
        invariant
            i <= lines@.len(),
            res@.len() == i,
            forall|k: int|
                0 <= k < i ==> opt_string_views(res@)[k] == (if (#[trigger] lines@[k])@.len() == 0 {
                    None
                } else {
                    Some(lines@[k]@)
                }),
        decreases lines@.len() - i,
    {
        let n = chars_of(lines[i].as_str()).len();
        if n == 0 {
            res.push(None);
        } else {
            res.push(Some(lines[i].clone()));
        }
        i = i + 1;
    }
    res
}

/// Puts the translated text together: the output lines joined with `\n`, as
/// UTF-8 bytes.
pub fn assemble_txt(lines: &Vec<String>, translations: &Vec<Option<String>>) -> (res: Vec<u8>)
    requires
        translations@.len() == lines@.len(),
    ensures
        res@ == encode_utf8(
            join_with(
                output_lines(string_views(lines@), opt_string_views(translations@)),
                '\n',
            ),
        ),
{
    let ghost outs = output_lines(string_views(lines@), opt_string_views(translations@));
    let mut out: Vec<char> = Vec::new();
    let mut i: usize = 0;
    while i < lines.len()
        invariant
            i <= lines@.len(),
            translations@.len() == lines@.len(),
            outs == output_lines(string_views(lines@), opt_string_views(translations@)),
            out@ == join_with(outs.take(i as int), '\n'),
        decreases lines@.len() - i,
    {
        let line = chars_of(lines[i].as_str());
        let piece: Vec<char> = if line.len() == 0 {
            Vec::new()
        } else {
            match &translations[i] {
                Some(t) => chars_of(t.as_str()),
                None => line,
            }
        };
        proof {
            assert(piece@ == outs[i as int]);
            assert(outs.take(i + 1).drop_last() =~= outs.take(i as int));
            assert(outs.take(i + 1).last() == outs[i as int]);
        }
        if i > 0 {
            out.push('\n');
        }
        let ghost before = out@;
        push_all(&mut out, &piece);
        proof {
            if i == 0 {
                assert(outs.take(1) =~= seq![outs[0]]);
                assert(out@ =~= piece@);
            }
        }
        i = i + 1;
    }
    assert(outs.take(i as int) =~= outs);
    let s = string_from(&out);
    s.as_str().as_bytes_vec()
}

/// The line structure of a text survives translation: when no translation
/// holds a line break, the output splits back into exactly one line per
/// input line, and a line is blank in the output wherever it was blank in
/// the input.
pub proof fn lemma_line_structure_kept(lines: Seq<Seq<char>>, trs: Seq<Option<Seq<char>>>)
    requires
        lines.len() >= 1,
        trs.len() == lines.len(),
        forall|i: int| 0 <= i < lines.len() ==> !(#[trigger] lines[i]).contains('\n'),
        forall|i: int| 0 <= i < trs.len() ==> (#[trigger] trs[i] matches Some(t) ==> !t.contains('\n')),
    ensures
        split_on(join_with(output_lines(lines, trs), '\n'), '\n') == output_lines(lines, trs),
        forall|i: int| 0 <= i < lines.len() && lines[i].len() == 0 ==> (#[trigger] output_lines(lines, trs)[i]).len() == 0,
{
    let outs = output_lines(lines, trs);
    assert forall|i: int| 0 <= i < outs.len() implies !(#[trigger] outs[i]).contains('\n') by {
        let l = lines[i];
        let t = trs[i];
        if l.len() != 0 {
            if t is Some {
                assert(trs[i] matches Some(t) ==> !t.contains('\n'));
            }
        } else {
            assert(!Seq::<char>::empty().contains('\n'));
        }
    }
    lemma_split_join(outs, '\n');
}

/// Lines read from a file never hold a line break, and there is at least one.
pub proof fn lemma_trimmed_lines_shape(s: Seq<char>)
    ensures
        trimmed_lines(s).len() >= 1,
        forall|i: int| 0 <= i < trimmed_lines(s).len() ==> !(#[trigger] trimmed_lines(s)[i]).contains('\n'),
{
    let n = normalize_newlines(s);
    lemma_split_on_shape(n, '\n');
    assert forall|i: int| 0 <= i < trimmed_lines(s).len() implies !(#[trigger] trimmed_lines(s)[i]).contains('\n') by {
        let p = split_on(n, '\n')[i];
        crate::text::lemma_trimmed_within(p);
        if trimmed(p).contains('\n') {
            let j = choose|j: int| 0 <= j < trimmed(p).len() && trimmed(p)[j] == '\n';
            let k = choose|k: int| 0 <= k < p.len() && p[k] == trimmed(p)[j];
            assert(p.contains('\n'));
        }
    }
}

} // verus!
