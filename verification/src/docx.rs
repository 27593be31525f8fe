//! The WordprocessingML text-run pipeline: finding `<w:t>` elements,
//! decoding and re-encoding their text, and rebuilding the document XML.
use vstd::prelude::*;
use vstd::slice::slice_subrange;
use vstd::string::StrSliceExecFns;
use vstd::utf8::{valid_utf8, decode_utf8, encode_utf8};
use crate::archive::{
    ArchiveEntry, ArchiveError, ArchiveEntryView, EntryView, entry_views, as_written, write_archive,
    zip_listing, zip_opens, entry_names, archive_writable,
};
use crate::types::request::Language;
use crate::text::{
    occurs_at, matches_at, replace_all, replace_chars, chars_of, string_from, trim, is_blank,
    lemma_trimmed_empty_iff_blank, push_all, lemma_replace_keeps_out, same_text,
    lemma_replace_absent, lemma_replace_split, lemma_replace_char_split, lemma_replace_one,
    lemma_replace_none, lemma_replace_head,
};

verus! {

/// Position of the first occurrence of `pat` in `s` at or after `start`.
pub open spec fn find_from(s: Seq<char>, start: int, pat: Seq<char>) -> Option<int>
    decreases s.len() - start,
{
    if start < 0 || start >= s.len() || start + pat.len() > s.len() {
        None
    } else if occurs_at(s, start, pat) {
        Some(start)
    } else {
        find_from(s, start + 1, pat)
    }
}

/// A found position lies at or after the start and holds the pattern,
/// and no earlier position from the start holds it.
pub proof fn lemma_find_from(s: Seq<char>, start: int, pat: Seq<char>)
    requires
        pat.len() > 0,
        0 <= start,
    ensures
        match find_from(s, start, pat) {
            Some(i) => start <= i && occurs_at(s, i, pat) && forall|j: int|
                start <= j < i ==> !occurs_at(s, j, pat),
            None => forall|j: int| start <= j ==> !occurs_at(s, j, pat),
        },
    decreases s.len() - start,
{
    if start < 0 || start >= s.len() || start + pat.len() > s.len() {
    } else if occurs_at(s, start, pat) {
    } else {
        lemma_find_from(s, start + 1, pat);
    }
}

/// Position of the first occurrence of `needle` in `haystack` at or after `start`.
pub fn find_bytes(haystack: &[char], start: usize, needle: &[char]) -> (res: Option<usize>)
    requires
        start <= haystack@.len(),
        needle@.len() > 0,
    ensures
        match res {
            Some(i) => find_from(haystack@, start as int, needle@) == Some(i as int),
            None => find_from(haystack@, start as int, needle@) is None,
        },
{
    let mut i: usize = start;
    while i < haystack.len()
        invariant
            start <= i <= haystack@.len(),
            find_from(haystack@, start as int, needle@) == find_from(haystack@, i as int, needle@),
        decreases haystack@.len() - i,
    {
        if needle.len() > haystack.len() - i {
            return None;
        }
        if matches_at(haystack, i, needle) {
            return Some(i);
        }
        i = i + 1;
    }
    None
}

/// The opening tag `<w:t>`.
pub open spec fn open_plain() -> Seq<char> {
    seq!['<', 'w', ':', 't', '>']
}

/// The start of an opening tag with attributes, `<w:t `.
pub open spec fn open_attr() -> Seq<char> {
    seq!['<', 'w', ':', 't', ' ']
}

/// The closing tag `</w:t>`.
pub open spec fn close_tag() -> Seq<char> {
    seq!['<', '/', 'w', ':', 't', '>']
}

/// Where the next `<w:t>` or `<w:t ...>` opening tag starts, at or after `start`.
pub open spec fn next_wt(s: Seq<char>, start: int) -> Option<int> {
    match (find_from(s, start, open_plain()), find_from(s, start, open_attr())) {
        (Some(a), Some(b)) => Some(if a <= b { a } else { b }),
        (Some(a), None) => Some(a),
        (None, Some(b)) => Some(b),
        (None, None) => None,
    }
}

/// Where the next text-run opening tag starts, at or after `start`.
pub fn find_next_wt(bytes: &[char], start: usize) -> (res: Option<usize>)
    requires
        start <= bytes@.len(),
    ensures
        match res {
            Some(i) => next_wt(bytes@, start as int) == Some(i as int),
            None => next_wt(bytes@, start as int) is None,
        },
{
    let plain = ['<', 'w', ':', 't', '>'];
    let attr = ['<', 'w', ':', 't', ' '];
    assert(plain@ =~= open_plain());
    assert(attr@ =~= open_attr());
    let p1 = find_bytes(bytes, start, &plain);
    let p2 = find_bytes(bytes, start, &attr);
    match (p1, p2) {
        (Some(a), Some(b)) => Some(if a <= b { a } else { b }),
        (Some(a), None) => Some(a),
        (None, Some(b)) => Some(b),
        (None, None) => None,
    }
}


/// The entity `&amp;`.
pub open spec fn amp_entity() -> Seq<char> {
    seq!['&', 'a', 'm', 'p', ';']
}

/// The entity `&lt;`.
pub open spec fn lt_entity() -> Seq<char> {
    seq!['&', 'l', 't', ';']
}

/// The entity `&gt;`.
pub open spec fn gt_entity() -> Seq<char> {
    seq!['&', 'g', 't', ';']
}

/// The entity `&quot;`.
pub open spec fn quot_entity() -> Seq<char> {
    seq!['&', 'q', 'u', 'o', 't', ';']
}

/// The entity `&apos;`.
pub open spec fn apos_entity() -> Seq<char> {
    seq!['&', 'a', 'p', 'o', 's', ';']
}

/// Text of a `<w:t>` element after entity decoding: `&amp;`, `&lt;`, `&gt;`,
/// `&quot;` and `&apos;` are replaced, one entity after the other, in that order.
pub open spec fn xml_decoded(s: Seq<char>) -> Seq<char> {
    replace_all(
        replace_all(
            replace_all(
                replace_all(replace_all(s, amp_entity(), seq!['&']), lt_entity(), seq!['<']),
                gt_entity(),
                seq!['>'],
            ),
            quot_entity(),
            seq!['"'],
        ),
        apos_entity(),
        seq!['\''],
    )
}

/// Text escaped for a `<w:t>` element: `&` first, then `<`, then `>`.
pub open spec fn xml_encoded(s: Seq<char>) -> Seq<char> {
    replace_all(
        replace_all(replace_all(s, seq!['&'], amp_entity()), seq!['<'], lt_entity()),
        seq!['>'],
        gt_entity(),
    )
}

/// Escaped text holds no `<` and no `>`, so a translation can never add
/// markup to the document.
pub proof fn lemma_encoded_has_no_markup(s: Seq<char>)
    ensures
        !xml_encoded(s).contains('<'),
        !xml_encoded(s).contains('>'),
{
    let a = replace_all(s, seq!['&'], amp_entity());
    let b = replace_all(a, seq!['<'], lt_entity());
    assert(!amp_entity().contains('<') && !amp_entity().contains('>')) by {
        if amp_entity().contains('<') || amp_entity().contains('>') {
            let j = choose|j: int| 0 <= j < 5 && (amp_entity()[j] == '<' || amp_entity()[j] == '>');
        }
    }
    assert(!lt_entity().contains('<') && !lt_entity().contains('>')) by {
        if lt_entity().contains('<') || lt_entity().contains('>') {
            let j = choose|j: int| 0 <= j < 4 && (lt_entity()[j] == '<' || lt_entity()[j] == '>');
        }
    }
    assert(!gt_entity().contains('<') && !gt_entity().contains('>')) by {
        if gt_entity().contains('<') || gt_entity().contains('>') {
            let j = choose|j: int| 0 <= j < 4 && (gt_entity()[j] == '<' || gt_entity()[j] == '>');
        }
    }
    lemma_replace_keeps_out(b, seq!['>'], gt_entity(), '>');
    lemma_replace_keeps_out(a, seq!['<'], lt_entity(), '<');
    lemma_replace_keeps_out(b, seq!['>'], gt_entity(), '<');
}

/// Whether `part` occurs somewhere in `s`.
pub open spec fn holds_entity(s: Seq<char>, part: Seq<char>) -> bool {
    exists|i: int| occurs_at(s, i, part)
}

spec fn lt_escaped(s: Seq<char>) -> Seq<char> {
    replace_all(s, seq!['<'], lt_entity())
}

spec fn gt_escaped(s: Seq<char>) -> Seq<char> {
    replace_all(s, seq!['>'], gt_entity())
}

/// Facts on the entities themselves: which characters they lack, and what
/// decoding makes of each of them.
proof fn lemma_entity_facts()
    ensures
        !amp_entity().contains('<'),
        !amp_entity().contains('>'),
        !lt_entity().contains('>'),
        replace_all(amp_entity(), amp_entity(), seq!['&']) == seq!['&'],
        replace_all(lt_entity(), amp_entity(), seq!['&']) == lt_entity(),
        replace_all(gt_entity(), amp_entity(), seq!['&']) == gt_entity(),
        replace_all(lt_entity(), lt_entity(), seq!['<']) == seq!['<'],
        replace_all(gt_entity(), lt_entity(), seq!['<']) == gt_entity(),
        replace_all(gt_entity(), gt_entity(), seq!['>']) == seq!['>'],
{
    assert(!amp_entity().contains('<') && !amp_entity().contains('>')) by {
        if amp_entity().contains('<') || amp_entity().contains('>') {
            let j = choose|j: int| 0 <= j < 5 && (amp_entity()[j] == '<' || amp_entity()[j] == '>');
        }
    }
    assert(!lt_entity().contains('>')) by {
        if lt_entity().contains('>') {
            let j = choose|j: int| 0 <= j < 4 && lt_entity()[j] == '>';
        }
    }
    let e = Seq::<char>::empty();
    assert(amp_entity().subrange(0, 5) =~= amp_entity());
    assert(amp_entity().skip(5) =~= e);
    assert(seq!['&'] + e =~= seq!['&']);
    assert(lt_entity().subrange(0, 4) =~= lt_entity());
    assert(lt_entity().skip(4) =~= e);
    assert(seq!['<'] + e =~= seq!['<']);
    assert(gt_entity().subrange(0, 4) =~= gt_entity());
    assert(gt_entity().skip(4) =~= e);
    assert(seq!['>'] + e =~= seq!['>']);
    assert(replace_all(e, amp_entity(), seq!['&']) == e);
    assert(replace_all(e, lt_entity(), seq!['<']) == e);
    assert(replace_all(e, gt_entity(), seq!['>']) == e);
    assert(occurs_at(amp_entity(), 0, amp_entity()));
    assert(occurs_at(lt_entity(), 0, lt_entity()));
    assert(occurs_at(gt_entity(), 0, gt_entity()));
    lemma_replace_none(lt_entity(), amp_entity(), seq!['&']);
    lemma_replace_none(gt_entity(), amp_entity(), seq!['&']);
    assert forall|i: int| !#[trigger] occurs_at(gt_entity(), i, lt_entity()) by {
        if occurs_at(gt_entity(), i, lt_entity()) {
            assert(gt_entity().subrange(i, i + 4)[1] == gt_entity()[i + 1]);
        }
    }
    lemma_replace_none(gt_entity(), lt_entity(), seq!['<']);
}

/// What escaping makes of one character.
proof fn lemma_escaped_one(x: char)
    ensures
        xml_encoded(seq![x]) == (if x == '&' {
            amp_entity()
        } else if x == '<' {
            lt_entity()
        } else if x == '>' {
            gt_entity()
        } else {
            seq![x]
        }),
        gt_escaped(lt_escaped(seq![x])) == (if x == '<' {
            lt_entity()
        } else if x == '>' {
            gt_entity()
        } else {
            seq![x]
        }),
        gt_escaped(seq![x]) == (if x == '>' {
            gt_entity()
        } else {
            seq![x]
        }),
{
    lemma_entity_facts();
    lemma_replace_one(x, '&', amp_entity());
    lemma_replace_one(x, '<', lt_entity());
    lemma_replace_one(x, '>', gt_entity());
    lemma_replace_absent(amp_entity(), seq!['<'], lt_entity());
    lemma_replace_absent(amp_entity(), seq!['>'], gt_entity());
    lemma_replace_absent(lt_entity(), seq!['>'], gt_entity());
}

/// Escaping is done character by character.
proof fn lemma_escaped_cons(x: char, t: Seq<char>)
    ensures
        xml_encoded(seq![x] + t) == xml_encoded(seq![x]) + xml_encoded(t),
        gt_escaped(lt_escaped(seq![x] + t)) == gt_escaped(lt_escaped(seq![x])) + gt_escaped(
            lt_escaped(t),
        ),
        gt_escaped(seq![x] + t) == gt_escaped(seq![x]) + gt_escaped(t),
{
    let u = seq![x];
    let a1 = replace_all(u, seq!['&'], amp_entity());
    let a2 = replace_all(t, seq!['&'], amp_entity());
    lemma_replace_char_split(u, t, '&', amp_entity());
    lemma_replace_char_split(a1, a2, '<', lt_entity());
    lemma_replace_char_split(lt_escaped(a1), lt_escaped(a2), '>', gt_entity());
    lemma_replace_char_split(u, t, '<', lt_entity());
    lemma_replace_char_split(lt_escaped(u), lt_escaped(t), '>', gt_entity());
    lemma_replace_char_split(u, t, '>', gt_entity());
}

/// Where `&`, `<` and `>` are escaped text does not start with `&`, its
/// first character is the text's own and the rest is the rest escaped.
proof fn lemma_escaped_head(t: Seq<char>)
    requires
        gt_escaped(lt_escaped(t)).len() > 0,
        gt_escaped(lt_escaped(t))[0] != '&',
    ensures
        t.len() > 0,
        t[0] == gt_escaped(lt_escaped(t))[0],
        gt_escaped(lt_escaped(t)).skip(1) == gt_escaped(lt_escaped(t.skip(1))),
{
    lemma_replace_head(lt_escaped(t), '>', gt_entity());
    lemma_replace_head(t, '<', lt_entity());
}

/// Decoding `&amp;` in escaped text leaves the text with only `<` and `>`
/// escaped.
proof fn lemma_unescape_amp(s: Seq<char>)
    ensures
        replace_all(xml_encoded(s), amp_entity(), seq!['&']) == gt_escaped(lt_escaped(s)),
    decreases s.len(),
{
    if s.len() > 0 {
        let x = s[0];
        let t = s.skip(1);
        assert(s =~= seq![x] + t);
        lemma_escaped_cons(x, t);
        lemma_escaped_one(x);
        lemma_entity_facts();
        let e = xml_encoded(seq![x]);
        let w = e + xml_encoded(t);
        assert forall|i: int| 0 <= i < e.len() && i + 5 > e.len() implies !#[trigger] occurs_at(
            w,
            i,
            amp_entity(),
        ) by {
            if occurs_at(w, i, amp_entity()) {
                assert(w.subrange(i, i + 5)[0] == w[i]);
                assert(w.subrange(i, i + 5)[1] == w[i + 1]);
                assert(w[i] == e[i]);
                if i + 1 < e.len() {
                    assert(w[i + 1] == e[i + 1]);
                }
            }
        }
        lemma_replace_split(e, xml_encoded(t), amp_entity(), seq!['&']);
        lemma_unescape_amp(t);
        lemma_replace_one(x, '&', amp_entity());
        lemma_replace_none(seq![x], amp_entity(), seq!['&']);
    }
}

/// Decoding `&lt;` in text with `<` and `>` escaped leaves only `>`
/// escaped, where the text held no `&lt;` of its own.
proof fn lemma_unescape_lt(s: Seq<char>)
    requires
        !holds_entity(s, lt_entity()),
    ensures
        replace_all(gt_escaped(lt_escaped(s)), lt_entity(), seq!['<']) == gt_escaped(s),
    decreases s.len(),
{
    if s.len() > 0 {
        let x = s[0];
        let t = s.skip(1);
        assert(s =~= seq![x] + t);
        assert(!holds_entity(t, lt_entity())) by {
            if holds_entity(t, lt_entity()) {
                let i = choose|i: int| occurs_at(t, i, lt_entity());
                assert(t.subrange(i, i + 4) =~= s.subrange(i + 1, i + 5));
                assert(occurs_at(s, i + 1, lt_entity()));
            }
        }
        lemma_escaped_cons(x, t);
        lemma_escaped_one(x);
        lemma_entity_facts();
        let f = gt_escaped(lt_escaped(seq![x]));
        let r = gt_escaped(lt_escaped(t));
        let w = f + r;
        assert forall|i: int| 0 <= i < f.len() && i + 4 > f.len() implies !#[trigger] occurs_at(
            w,
            i,
            lt_entity(),
        ) by {
            if occurs_at(w, i, lt_entity()) {
                assert(w.subrange(i, i + 4)[0] == w[i]);
                assert(w.subrange(i, i + 4)[1] == w[i + 1]);
                assert(w.subrange(i, i + 4)[2] == w[i + 2]);
                assert(w.subrange(i, i + 4)[3] == w[i + 3]);
                assert(w[i] == f[i]);
                if i + 1 < f.len() {
                    assert(w[i + 1] == f[i + 1]);
                }
                if x == '&' {
                    assert(r[0] == 'l' && r[1] == 't' && r[2] == ';');
                    lemma_escaped_head(t);
                    let t1 = t.skip(1);
                    assert(gt_escaped(lt_escaped(t1))[0] == r[1]);
                    lemma_escaped_head(t1);
                    let t2 = t1.skip(1);
                    assert(gt_escaped(lt_escaped(t2))[0] == r[2]);
                    lemma_escaped_head(t2);
                    assert(s.subrange(0, 4) =~= lt_entity());
                    assert(occurs_at(s, 0, lt_entity()));
                }
            }
        }
        lemma_replace_split(f, r, lt_entity(), seq!['<']);
        lemma_unescape_lt(t);
        lemma_replace_none(seq![x], lt_entity(), seq!['<']);
    }
}

/// Decoding `&gt;` in text with `>` escaped gives the text back, where it
/// held no `&gt;` of its own.
proof fn lemma_unescape_gt(s: Seq<char>)
    requires
        !holds_entity(s, gt_entity()),
    ensures
        replace_all(gt_escaped(s), gt_entity(), seq!['>']) == s,
    decreases s.len(),
{
    if s.len() > 0 {
        let x = s[0];
        let t = s.skip(1);
        assert(s =~= seq![x] + t);
        assert(!holds_entity(t, gt_entity())) by {
            if holds_entity(t, gt_entity()) {
                let i = choose|i: int| occurs_at(t, i, gt_entity());
                assert(t.subrange(i, i + 4) =~= s.subrange(i + 1, i + 5));
                assert(occurs_at(s, i + 1, gt_entity()));
            }
        }
        lemma_escaped_cons(x, t);
        lemma_escaped_one(x);
        lemma_entity_facts();
        let f = gt_escaped(seq![x]);
        let r = gt_escaped(t);
        let w = f + r;
        assert forall|i: int| 0 <= i < f.len() && i + 4 > f.len() implies !#[trigger] occurs_at(
            w,
            i,
            gt_entity(),
        ) by {
            if occurs_at(w, i, gt_entity()) {
                assert(w.subrange(i, i + 4)[0] == w[i]);
                assert(w.subrange(i, i + 4)[1] == w[i + 1]);
                assert(w.subrange(i, i + 4)[2] == w[i + 2]);
                assert(w.subrange(i, i + 4)[3] == w[i + 3]);
                assert(w[i] == f[i]);
                if x == '&' {
                    assert(r[0] == 'g' && r[1] == 't' && r[2] == ';');
                    lemma_replace_head(t, '>', gt_entity());
                    let t1 = t.skip(1);
                    assert(gt_escaped(t1)[0] == r[1]);
                    lemma_replace_head(t1, '>', gt_entity());
                    let t2 = t1.skip(1);
                    assert(gt_escaped(t2)[0] == r[2]);
                    lemma_replace_head(t2, '>', gt_entity());
                    assert(s.subrange(0, 4) =~= gt_entity());
                    assert(occurs_at(s, 0, gt_entity()));
                }
            }
        }
        lemma_replace_split(f, r, gt_entity(), seq!['>']);
        lemma_unescape_gt(t);
        lemma_replace_none(seq![x], gt_entity(), seq!['>']);
        assert(seq![x] + t =~= s);
    }
}

/// Decoding what was escaped gives the text back, provided the text holds
/// none of the entities `&lt;`, `&gt;`, `&quot;` and `&apos;` itself.
pub proof fn lemma_decode_undoes_encode(s: Seq<char>)
    requires
        !holds_entity(s, lt_entity()),
        !holds_entity(s, gt_entity()),
        !holds_entity(s, quot_entity()),
        !holds_entity(s, apos_entity()),
    ensures
        xml_decoded(xml_encoded(s)) == s,
{
    lemma_unescape_amp(s);
    lemma_unescape_lt(s);
    lemma_unescape_gt(s);
    assert forall|i: int| !#[trigger] occurs_at(s, i, quot_entity()) by {
        if occurs_at(s, i, quot_entity()) {
            assert(holds_entity(s, quot_entity()));
        }
    }
    assert forall|i: int| !#[trigger] occurs_at(s, i, apos_entity()) by {
        if occurs_at(s, i, apos_entity()) {
            assert(holds_entity(s, apos_entity()));
        }
    }
    lemma_replace_none(s, quot_entity(), seq!['"']);
    lemma_replace_none(s, apos_entity(), seq!['\'']);
}

fn decode_chars(s: &[char]) -> (res: Vec<char>)
    ensures
        res@ == xml_decoded(s@),
{
    let amp = ['&', 'a', 'm', 'p', ';'];
    let lt = ['&', 'l', 't', ';'];
    let gt = ['&', 'g', 't', ';'];
    let quot = ['&', 'q', 'u', 'o', 't', ';'];
    let apos = ['&', 'a', 'p', 'o', 's', ';'];
    assert(amp@ =~= amp_entity());
    assert(lt@ =~= lt_entity());
    assert(gt@ =~= gt_entity());
    assert(quot@ =~= quot_entity());
    assert(apos@ =~= apos_entity());
    let c1 = ['&'];
    let c2 = ['<'];
    let c3 = ['>'];
    let c4 = ['"'];
    let c5 = ['\''];
    assert(c1@ =~= seq!['&']);
    assert(c2@ =~= seq!['<']);
    assert(c3@ =~= seq!['>']);
    assert(c4@ =~= seq!['"']);
    assert(c5@ =~= seq!['\'']);
    let a = replace_chars(s, &amp, &c1);
    let b = replace_chars(&a, &lt, &c2);
    let c = replace_chars(&b, &gt, &c3);
    let d = replace_chars(&c, &quot, &c4);
    replace_chars(&d, &apos, &c5)
}

fn encode_chars(s: &[char]) -> (res: Vec<char>)
    ensures
        res@ == xml_encoded(s@),
{
    let amp = ['&', 'a', 'm', 'p', ';'];
    let lt = ['&', 'l', 't', ';'];
    let gt = ['&', 'g', 't', ';'];
    assert(amp@ =~= amp_entity());
    assert(lt@ =~= lt_entity());
    assert(gt@ =~= gt_entity());
    let c1 = ['&'];
    let c2 = ['<'];
    let c3 = ['>'];
    assert(c1@ =~= seq!['&']);
    assert(c2@ =~= seq!['<']);
    assert(c3@ =~= seq!['>']);
    let a = replace_chars(s, &c1, &amp);
    let b = replace_chars(&a, &c2, &lt);
    replace_chars(&b, &c3, &gt)
}

/// Decodes the five predefined XML entities in `s`.
pub fn xml_decode(s: &str) -> (res: String)
    ensures
        res@ == xml_decoded(s@),
{
    let v = chars_of(s);
    let d = decode_chars(&v);
    string_from(&d)
}

/// Escapes `&`, `<` and `>` in `s` for use as element text.
pub fn xml_encode(s: &str) -> (res: String)
    ensures
        res@ == xml_encoded(s@),
{
    let v = chars_of(s);
    let e = encode_chars(&v);
    string_from(&e)
}

/// A `<w:t>` element: its opening tag, its decoded text and its closing tag.
pub struct TextNode {
    pub open_tag: String,
    pub text: String,
    pub close_tag: String,
}

/// A piece of document XML: either copied verbatim, or a text run.
pub enum XmlToken {
    Literal(String),
    Text(TextNode),
}

/// The model of an [`XmlToken`].
pub enum TokenView {
    Literal(Seq<char>),
    Text { open_tag: Seq<char>, text: Seq<char>, close_tag: Seq<char> },
}

impl View for XmlToken {
    type V = TokenView;

    open spec fn view(&self) -> TokenView {
        match self {
            XmlToken::Literal(s) => TokenView::Literal(s@),
            XmlToken::Text(n) => TokenView::Text {
                open_tag: n.open_tag@,
                text: n.text@,
                close_tag: n.close_tag@,
            },
        }
    }
}

/// The models of a sequence of tokens.
pub open spec fn token_views(ts: Seq<XmlToken>) -> Seq<TokenView> {
    ts.map_values(|t: XmlToken| t@)
}

/// A piece of document XML as it stands in the source: a verbatim stretch, or
/// a text run's opening tag and its still-encoded text (the closing tag follows it).
pub enum RawToken {
    Literal(Seq<char>),
    Text { open_tag: Seq<char>, raw: Seq<char> },
}

/// The token that a raw piece becomes: text runs get their text decoded.
pub open spec fn cook(t: RawToken) -> TokenView {
    match t {
        RawToken::Literal(l) => TokenView::Literal(l),
        RawToken::Text { open_tag, raw } => TokenView::Text {
            open_tag,
            text: xml_decoded(raw),
            close_tag: close_tag(),
        },
    }
}

/// The source text of a raw piece.
pub open spec fn raw_source(t: RawToken) -> Seq<char> {
    match t {
        RawToken::Literal(l) => l,
        RawToken::Text { open_tag, raw } => open_tag + raw + close_tag(),
    }
}

/// The pieces of `s` from position `pos` on. A text run is an opening tag
/// (`<w:t>` or `<w:t ...>`, up to its first `>`), its text, and the next
/// `</w:t>`; whatever lies between text runs is copied. Where an opening tag
/// has no `>` or no closing tag follows, the rest from that tag on is copied.
pub open spec fn scan(s: Seq<char>, pos: int) -> Seq<RawToken>
    decreases s.len() - pos,
{
    if pos < 0 || pos >= s.len() {
        Seq::empty()
    } else {
        match next_wt(s, pos) {
            None => seq![RawToken::Literal(s.subrange(pos, s.len() as int))],
            Some(o) => {
                let pre = if o > pos {
                    seq![RawToken::Literal(s.subrange(pos, o))]
                } else {
                    Seq::empty()
                };
                match find_from(s, o, seq!['>']) {
                    None => pre.push(RawToken::Literal(s.subrange(o, s.len() as int))),
                    Some(g) => match find_from(s, g + 1, close_tag()) {
                        None => pre.push(RawToken::Literal(s.subrange(o, s.len() as int))),
                        Some(c) => {
                            proof {
                                lemma_next_wt(s, pos);
                                lemma_find_from(s, o, seq!['>']);
                                lemma_find_from(s, g + 1, close_tag());
                            }
                            pre.push(RawToken::Text { open_tag: s.subrange(o, g + 1), raw: s.subrange(g + 1, c) })
                                + scan(s, c + 6)
                        },
                    },
                }
            },
        }
    }
}

/// A found opening tag lies at or after the start, and starts with `<w:t`.
pub proof fn lemma_next_wt(s: Seq<char>, start: int)
    requires
        0 <= start,
    ensures
        next_wt(s, start) matches Some(o) ==> start <= o && o + 5 <= s.len() && (occurs_at(
            s,
            o,
            open_plain(),
        ) || occurs_at(s, o, open_attr())),
{
    lemma_find_from(s, start, open_plain());
    lemma_find_from(s, start, open_attr());
}


fn piece(s: &Vec<char>, a: usize, b: usize) -> (res: String)
    requires
        a <= b <= s@.len(),
    ensures
        res@ == s@.subrange(a as int, b as int),
{
    string_from(slice_subrange(s.as_slice(), a, b))
}

proof fn lemma_push_views(ts: Seq<XmlToken>, t: XmlToken)
    ensures
        token_views(ts.push(t)) == token_views(ts).push(t@),
{
    assert(token_views(ts.push(t)) =~= token_views(ts).push(t@));
}

proof fn lemma_push_cooked(done: Seq<RawToken>, t: RawToken)
    ensures
        done.push(t).map_values(|r: RawToken| cook(r)) == done.map_values(|r: RawToken| cook(r)).push(
            cook(t),
        ),
{
    assert(done.push(t).map_values(|r: RawToken| cook(r)) =~= done.map_values(
        |r: RawToken| cook(r),
    ).push(cook(t)));
}

/// Splits document XML into verbatim stretches and `<w:t>` text runs, with
/// the text of each run decoded.
pub fn parse_wt_tokens(xml: &str) -> (tokens: Vec<XmlToken>)
    ensures
        token_views(tokens@) == scan(xml@, 0).map_values(|r: RawToken| cook(r)),
{
    let s = chars_of(xml);
    let n = s.len();
    let close = ['<', '/', 'w', ':', 't', '>'];
    let gt = ['>'];
    assert(close@ =~= close_tag());
    assert(gt@ =~= seq!['>']);
    let mut tokens: Vec<XmlToken> = Vec::new();
    let mut pos: usize = 0;
    let ghost mut done: Seq<RawToken> = Seq::empty();
    assert(token_views(tokens@) =~= done.map_values(|r: RawToken| cook(r)));
    while pos < n
        invariant
            n == s@.len(),
            s@ == xml@,
            pos <= n,
            close@ == close_tag(),
            gt@ == seq!['>'],
            done + scan(s@, pos as int) == scan(s@, 0),
            token_views(tokens@) == done.map_values(|r: RawToken| cook(r)),
        decreases n - pos,
    {
        let ghost old_done = done;
        proof {
            lemma_next_wt(s@, pos as int);
        }
        match find_next_wt(&s, pos) {
            None => {
                let ghost t = RawToken::Literal(s@.subrange(pos as int, n as int));
                let lit = XmlToken::Literal(piece(&s, pos, n));
                proof {
                    lemma_push_views(tokens@, lit);
                    lemma_push_cooked(done, t);
                }
                tokens.push(lit);
                proof {
                    done = done.push(t);
                    assert(scan(s@, pos as int) == seq![t]);
                    assert(old_done + scan(s@, pos as int) =~= done + scan(s@, n as int));
                }
                pos = n;
            },
            Some(o) => {
                let ghost pre: Seq<RawToken> = if o > pos {
                    seq![RawToken::Literal(s@.subrange(pos as int, o as int))]
                } else {
                    Seq::empty()
                };
                if o > pos {
                    let ghost t = RawToken::Literal(s@.subrange(pos as int, o as int));
                    let lit = XmlToken::Literal(piece(&s, pos, o));
                    proof {
                        lemma_push_views(tokens@, lit);
                        lemma_push_cooked(done, t);
                    }
                    tokens.push(lit);
                    proof {
                        done = done.push(t);
                    }
                } else {
                }
                assert(done == old_done + pre);
                proof {
                    lemma_find_from(s@, o as int, seq!['>']);
                }
                match find_bytes(&s, o, &gt) {
                    None => {
                        let ghost t = RawToken::Literal(s@.subrange(o as int, n as int));
                        let lit = XmlToken::Literal(piece(&s, o, n));
                        proof {
                            lemma_push_views(tokens@, lit);
                            lemma_push_cooked(done, t);
                        }
                        tokens.push(lit);
                        proof {
                            done = done.push(t);
                            assert(scan(s@, pos as int) == pre.push(t));
                            assert(old_done + scan(s@, pos as int) =~= done + scan(s@, n as int));
                        }
                        pos = n;
                    },
                    Some(g) => {
                        let te = g + 1;
                        proof {
                            lemma_find_from(s@, te as int, close_tag());
                        }
                        match find_bytes(&s, te, &close) {
                            None => {
                                let ghost t = RawToken::Literal(s@.subrange(o as int, n as int));
                                let lit = XmlToken::Literal(piece(&s, o, n));
                                proof {
                                    lemma_push_views(tokens@, lit);
                                    lemma_push_cooked(done, t);
                                }
                                tokens.push(lit);
                                proof {
                                    done = done.push(t);
                                    assert(scan(s@, pos as int) == pre.push(t));
                                    assert(old_done + scan(s@, pos as int) =~= done + scan(
                                        s@,
                                        n as int,
                                    ));
                                }
                                pos = n;
                            },
                            Some(c) => {
                                let ghost t = RawToken::Text {
                                    open_tag: s@.subrange(o as int, te as int),
                                    raw: s@.subrange(te as int, c as int),
                                };
                                let raw = slice_subrange(s.as_slice(), te, c);
                                let text = decode_chars(raw);
                                let node = TextNode {
                                    open_tag: piece(&s, o, te),
                                    text: string_from(&text),
                                    close_tag: string_from(&close),
                                };
                                let tok = XmlToken::Text(node);
                                proof {
                                    lemma_push_views(tokens@, tok);
                                    lemma_push_cooked(done, t);
                                }
                                tokens.push(tok);
                                proof {
                                    done = done.push(t);
                                    assert(scan(s@, pos as int) == pre.push(t) + scan(
                                        s@,
                                        c + 6,
                                    ));
                                    assert(old_done + scan(s@, pos as int) =~= done + scan(
                                        s@,
                                        c + 6,
                                    ));
                                }
                                pos = c + 6;
                            },
                        }
                    },
                }
            },
        }
    }
    assert(scan(s@, pos as int) =~= Seq::<RawToken>::empty());
    assert(done =~= done + scan(s@, pos as int));
    tokens
}


/// The source text that a sequence of raw pieces stands for.
pub open spec fn flatten_raw(ts: Seq<RawToken>) -> Seq<char>
    decreases ts.len(),
{
    if ts.len() == 0 {
        Seq::empty()
    } else {
        raw_source(ts[0]) + flatten_raw(ts.skip(1))
    }
}

proof fn lemma_flatten_concat(a: Seq<RawToken>, b: Seq<RawToken>)
    ensures
        flatten_raw(a + b) == flatten_raw(a) + flatten_raw(b),
    decreases a.len(),
{
    if a.len() == 0 {
        assert(a + b =~= b);
        assert(flatten_raw(a) + flatten_raw(b) =~= flatten_raw(b));
    } else {
        assert((a + b).skip(1) =~= a.skip(1) + b);
        lemma_flatten_concat(a.skip(1), b);
        assert(flatten_raw(a + b) =~= raw_source(a[0]) + flatten_raw(a.skip(1) + b));
        assert(flatten_raw(a) + flatten_raw(b) =~= raw_source(a[0]) + (flatten_raw(a.skip(1))
            + flatten_raw(b)));
    }
}

proof fn lemma_flatten_one(t: RawToken)
    ensures
        flatten_raw(seq![t]) == raw_source(t),
{
    let e = seq![t].skip(1);
    assert(e =~= Seq::<RawToken>::empty());
    assert(flatten_raw(e) == Seq::<char>::empty());
    assert(flatten_raw(seq![t]) == raw_source(t) + flatten_raw(e));
    assert(raw_source(t) + Seq::<char>::empty() =~= raw_source(t));
}

/// Nothing of the document is lost in scanning: the pieces found from `pos`
/// on, put back together, are exactly the text from `pos` on.
pub proof fn lemma_scan_reassembles(s: Seq<char>, pos: int)
    requires
        0 <= pos <= s.len(),
    ensures
        flatten_raw(scan(s, pos)) == s.subrange(pos, s.len() as int),
    decreases s.len() - pos,
{
    let n = s.len() as int;
    if pos >= n {
        assert(s.subrange(pos, n) =~= Seq::<char>::empty());
    } else {
        lemma_next_wt(s, pos);
        match next_wt(s, pos) {
            None => {
                lemma_flatten_one(RawToken::Literal(s.subrange(pos, n)));
            },
            Some(o) => {
                let pre = if o > pos {
                    seq![RawToken::Literal(s.subrange(pos, o))]
                } else {
                    Seq::<RawToken>::empty()
                };
                assert(flatten_raw(pre) == s.subrange(pos, o)) by {
                    if o > pos {
                        lemma_flatten_one(RawToken::Literal(s.subrange(pos, o)));
                    } else {
                        assert(s.subrange(pos, o) =~= Seq::<char>::empty());
                    }
                }
                lemma_find_from(s, o, seq!['>']);
                match find_from(s, o, seq!['>']) {
                    None => {
                        let t = RawToken::Literal(s.subrange(o, n));
                        lemma_flatten_concat(pre, seq![t]);
                        lemma_flatten_one(t);
                        assert(pre.push(t) =~= pre + seq![t]);
                        assert(s.subrange(pos, o) + s.subrange(o, n) =~= s.subrange(pos, n));
                    },
                    Some(g) => {
                        lemma_find_from(s, g + 1, close_tag());
                        match find_from(s, g + 1, close_tag()) {
                            None => {
                                let t = RawToken::Literal(s.subrange(o, n));
                                lemma_flatten_concat(pre, seq![t]);
                                lemma_flatten_one(t);
                                assert(pre.push(t) =~= pre + seq![t]);
                                assert(s.subrange(pos, o) + s.subrange(o, n) =~= s.subrange(
                                    pos,
                                    n,
                                ));
                            },
                            Some(c) => {
                                let t = RawToken::Text {
                                    open_tag: s.subrange(o, g + 1),
                                    raw: s.subrange(g + 1, c),
                                };
                                lemma_scan_reassembles(s, c + 6);
                                lemma_flatten_concat(pre, seq![t]);
                                lemma_flatten_one(t);
                                assert(pre.push(t) =~= pre + seq![t]);
                                lemma_flatten_concat(pre.push(t), scan(s, c + 6));
                                assert(s.subrange(c, c + 6) == close_tag());
                                assert(s.subrange(pos, o) + (s.subrange(o, g + 1) + s.subrange(
                                    g + 1,
                                    c,
                                ) + s.subrange(c, c + 6)) + s.subrange(c + 6, n) =~= s.subrange(
                                    pos,
                                    n,
                                ));
                            },
                        }
                    },
                }
            },
        }
    }
}

/// The text that a run carries after translation: blank text is never sent
/// for translation; otherwise a translation replaces it, and where none came
/// back the original text stays.
pub open spec fn chosen_text(text: Seq<char>, tr: Option<Seq<char>>) -> Seq<char> {
    if is_blank(text) {
        text
    } else {
        match tr {
            Some(t) => t,
            None => text,
        }
    }
}

/// The XML that one token becomes.
pub open spec fn render_token(t: TokenView, tr: Option<Seq<char>>) -> Seq<char> {
    match t {
        TokenView::Literal(l) => l,
        TokenView::Text { open_tag, text, close_tag } => open_tag + xml_encoded(
            chosen_text(text, tr),
        ) + close_tag,
    }
}

/// The XML that a token sequence becomes, each token with the translation at its index.
pub open spec fn render(ts: Seq<TokenView>, trs: Seq<Option<Seq<char>>>) -> Seq<char>
    decreases ts.len(),
{
    if ts.len() == 0 {
        Seq::empty()
    } else {
        render(ts.drop_last(), trs.take(ts.len() - 1)) + render_token(
            ts.last(),
            trs[ts.len() - 1],
        )
    }
}

/// The models of optional strings.
pub open spec fn opt_views(v: Seq<Option<String>>) -> Seq<Option<Seq<char>>> {
    v.map_values(
        |o: Option<String>|
            match o {
                Some(s) => Some(s@),
                None => None,
            },
    )
}

/// What a token asks to have translated: the text of a run that is not blank.
pub open spec fn pending_text(t: TokenView) -> Option<Seq<char>> {
    match t {
        TokenView::Text { text, .. } => if is_blank(text) {
            None
        } else {
            Some(text)
        },
        TokenView::Literal(_) => None,
    }
}

fn is_blank_text(s: &String) -> (res: bool)
    ensures
        res == is_blank(s@),
{
    let v = chars_of(s.as_str());
    let t = trim(&v);
    proof {
        lemma_trimmed_empty_iff_blank(s@);
    }
    t.len() == 0
}

/// For each token, the text to send for translation, if any.
pub fn texts_to_translate(tokens: &Vec<XmlToken>) -> (res: Vec<Option<String>>)
    ensures
        res@.len() == tokens@.len(),
        forall|i: int|
            0 <= i < tokens@.len() ==> opt_views(res@)[i] == pending_text(#[trigger] tokens@[i]@),
{
    let mut res: Vec<Option<String>> = Vec::new();
    let mut i: usize = 0;
    while i < tokens.len()
        invariant
            i <= tokens@.len(),
            res@.len() == i,
            forall|j: int|
                0 <= j < i ==> opt_views(res@)[j] == pending_text(#[trigger] tokens@[j]@),
        decreases tokens@.len() - i,
    {
        let item = match &tokens[i] {
            XmlToken::Literal(_) => None,
            XmlToken::Text(node) => if is_blank_text(&node.text) {
                None
            } else {
                Some(node.text.clone())
            },
        };
        res.push(item);
        i = i + 1;
    }
    res
}

/// Puts the document XML back together: verbatim pieces as they were, and
/// each text run with its (translated or kept) text re-escaped.
pub fn rebuild_xml(tokens: &Vec<XmlToken>, translations: &Vec<Option<String>>) -> (res: String)
    requires
        translations@.len() == tokens@.len(),
    ensures
        res@ == render(token_views(tokens@), opt_views(translations@)),
{
    let mut out: Vec<char> = Vec::new();
    let mut i: usize = 0;
    let ghost ts = token_views(tokens@);
    let ghost trs = opt_views(translations@);
    while i < tokens.len()
        invariant
            i <= tokens@.len(),
            translations@.len() == tokens@.len(),
            ts == token_views(tokens@),
            trs == opt_views(translations@),
            out@ == render(ts.take(i as int), trs.take(i as int)),
        decreases tokens@.len() - i,
    {
        let ghost before = out@;
        match &tokens[i] {
            XmlToken::Literal(l) => {
                let v = chars_of(l.as_str());
                push_all(&mut out, &v);
            },
            XmlToken::Text(node) => {
                let chosen: &String = if is_blank_text(&node.text) {
                    &node.text
                } else {
                    match &translations[i] {
                        Some(t) => t,
                        None => &node.text,
                    }
                };
                let open = chars_of(node.open_tag.as_str());
                let body = chars_of(chosen.as_str());
                let enc = encode_chars(&body);
                let close = chars_of(node.close_tag.as_str());
                push_all(&mut out, &open);
                push_all(&mut out, &enc);
                push_all(&mut out, &close);
            },
        }
        proof {
            let k = i as int;
            assert(ts.take(k + 1).drop_last() =~= ts.take(k));
            assert(trs.take(k + 1).take(k) =~= trs.take(k));
            assert(ts.take(k + 1).last() == ts[k]);
            assert(trs.take(k + 1)[k] == trs[k]);
            assert(out@ =~= before + render_token(ts[k], trs[k]));
        }
        i = i + 1;
    }
    assert(ts.take(i as int) =~= ts);
    assert(trs.take(i as int) =~= trs);
    string_from(&out)
}


/// Handing back each pending text unchanged is the same as translating
/// nothing: a run's text only changes when a translation differs from it.
pub proof fn lemma_identity_translation(ts: Seq<TokenView>, none: Seq<Option<Seq<char>>>)
    requires
        none.len() == ts.len(),
        forall|i: int| 0 <= i < none.len() ==> #[trigger] none[i] is None,
    ensures
        render(ts, ts.map_values(|t: TokenView| pending_text(t))) == render(ts, none),
    decreases ts.len(),
{
    let pend = ts.map_values(|t: TokenView| pending_text(t));
    if ts.len() > 0 {
        let k = ts.len() - 1;
        assert(pend.take(k) =~= ts.drop_last().map_values(|t: TokenView| pending_text(t)));
        lemma_identity_translation(ts.drop_last(), none.take(k));
        assert(render_token(ts.last(), pend[k]) == render_token(ts.last(), none[k])) by {
            match ts.last() {
                TokenView::Text { text, .. } => {
                    assert(chosen_text(text, pend[k]) == chosen_text(text, None));
                },
                TokenView::Literal(_) => {},
            }
        }
    }
}

/// Every text run in `ts` is written the way it would be re-escaped: its raw
/// text is the escaping of its decoded text.
pub open spec fn runs_canonical(ts: Seq<RawToken>) -> bool {
    forall|i: int|
        0 <= i < ts.len() ==> match #[trigger] ts[i] {
            RawToken::Text { raw, .. } => xml_encoded(xml_decoded(raw)) == raw,
            RawToken::Literal(_) => true,
        }
}

/// Whether the closing tag `</w:t>` occurs in a text.
pub open spec fn holds_close_tag(t: Seq<char>) -> bool {
    exists|i: int| occurs_at(t, i, close_tag())
}

/// Every text run found from `pos` on is a stretch of the document: its
/// raw text holds no closing tag, and each of its characters occurs in the
/// document.
pub proof fn lemma_scan_runs(s: Seq<char>, pos: int)
    requires
        0 <= pos <= s.len(),
    ensures
        forall|k: int|
            0 <= k < scan(s, pos).len() ==> match #[trigger] scan(s, pos)[k] {
                RawToken::Text { raw, .. } => !holds_close_tag(raw) && forall|j: int|
                    0 <= j < raw.len() ==> s.contains(raw[j]),
                RawToken::Literal(_) => true,
            },
    decreases s.len() - pos,
{
    let n = s.len() as int;
    if pos < n {
        lemma_next_wt(s, pos);
        match next_wt(s, pos) {
            None => {},
            Some(o) => {
                lemma_find_from(s, o, seq!['>']);
                match find_from(s, o, seq!['>']) {
                    None => {},
                    Some(g) => {
                        lemma_find_from(s, g + 1, close_tag());
                        match find_from(s, g + 1, close_tag()) {
                            None => {},
                            Some(c) => {
                                lemma_scan_runs(s, c + 6);
                                let raw = s.subrange(g + 1, c);
                                let pre = if o > pos {
                                    seq![RawToken::Literal(s.subrange(pos, o))]
                                } else {
                                    Seq::<RawToken>::empty()
                                };
                                let t = RawToken::Text { open_tag: s.subrange(o, g + 1), raw };
                                let rest = scan(s, c + 6);
                                assert(scan(s, pos) == pre.push(t) + rest);
                                assert(!holds_close_tag(raw)) by {
                                    if holds_close_tag(raw) {
                                        let i = choose|i: int| occurs_at(raw, i, close_tag());
                                        assert(s.subrange(g + 1 + i, g + 1 + i + 6) =~= raw.subrange(
                                            i,
                                            i + 6,
                                        ));
                                        assert(occurs_at(s, g + 1 + i, close_tag()));
                                    }
                                }
                                assert forall|j: int| 0 <= j < raw.len() implies s.contains(raw[j]) by {
                                    assert(s[g + 1 + j] == raw[j]);
                                }
                                assert forall|k: int| 0 <= k < scan(s, pos).len() implies match #[trigger] scan(
                                    s,
                                    pos,
                                )[k] {
                                    RawToken::Text { raw, .. } => !holds_close_tag(raw) && forall|j: int|
                                        0 <= j < raw.len() ==> s.contains(raw[j]),
                                    RawToken::Literal(_) => true,
                                } by {
                                    if k < pre.len() + 1 {
                                        if k == pre.len() {
                                            assert(scan(s, pos)[k] == t);
                                        } else {
                                            assert(scan(s, pos)[k] == pre[k]);
                                        }
                                    } else {
                                        assert(scan(s, pos)[k] == rest[k - pre.len() - 1]);
                                    }
                                }
                            },
                        }
                    },
                }
            },
        }
    }
}

/// A document is canonical when it holds no `&` and no run's text holds `<`
/// or `>`: then decoding and re-escaping leave each run's text as it was.
pub proof fn lemma_plain_document_canonical(xml: Seq<char>)
    requires
        !xml.contains('&'),
        forall|k: int|
            0 <= k < scan(xml, 0).len() ==> match #[trigger] scan(xml, 0)[k] {
                RawToken::Text { raw, .. } => !raw.contains('<') && !raw.contains('>'),
                RawToken::Literal(_) => true,
            },
    ensures
        runs_canonical(scan(xml, 0)),
{
    lemma_scan_runs(xml, 0);
    let ts = scan(xml, 0);
    assert forall|i: int| 0 <= i < ts.len() implies match #[trigger] ts[i] {
        RawToken::Text { raw, .. } => xml_encoded(xml_decoded(raw)) == raw,
        RawToken::Literal(_) => true,
    } by {
        match ts[i] {
            RawToken::Text { raw, .. } => {
                assert(!raw.contains('&')) by {
                    if raw.contains('&') {
                        let j = choose|j: int| 0 <= j < raw.len() && raw[j] == '&';
                        assert(xml.contains(raw[j]));
                    }
                }
                lemma_replace_absent(raw, amp_entity(), seq!['&']);
                lemma_replace_absent(raw, lt_entity(), seq!['<']);
                lemma_replace_absent(raw, gt_entity(), seq!['>']);
                lemma_replace_absent(raw, quot_entity(), seq!['"']);
                lemma_replace_absent(raw, apos_entity(), seq!['\'']);
                assert(xml_decoded(raw) == raw);
                lemma_replace_absent(raw, seq!['&'], amp_entity());
                lemma_replace_absent(raw, seq!['<'], lt_entity());
                lemma_replace_absent(raw, seq!['>'], gt_entity());
            },
            RawToken::Literal(_) => {},
        }
    }
}

/// A document that holds no `&`, and whose runs hold no `<` or `>`, comes
/// back exactly as it was when no translation replaces any text.
pub proof fn lemma_plain_document_unchanged(xml: Seq<char>, trs: Seq<Option<Seq<char>>>)
    requires
        !xml.contains('&'),
        forall|k: int|
            0 <= k < scan(xml, 0).len() ==> match #[trigger] scan(xml, 0)[k] {
                RawToken::Text { raw, .. } => !raw.contains('<') && !raw.contains('>'),
                RawToken::Literal(_) => true,
            },
        trs.len() == scan(xml, 0).len(),
        forall|i: int| 0 <= i < trs.len() ==> #[trigger] trs[i] is None,
    ensures
        render(scan(xml, 0).map_values(|r: RawToken| cook(r)), trs) == xml,
{
    lemma_plain_document_canonical(xml);
    lemma_untranslated_document_unchanged(xml, trs);
}

proof fn lemma_render_untranslated(ts: Seq<RawToken>, trs: Seq<Option<Seq<char>>>)
    requires
        trs.len() == ts.len(),
        forall|i: int| 0 <= i < trs.len() ==> #[trigger] trs[i] is None,
        runs_canonical(ts),
    ensures
        render(ts.map_values(|r: RawToken| cook(r)), trs) == flatten_raw(ts),
    decreases ts.len(),
{
    let cooked = ts.map_values(|r: RawToken| cook(r));
    if ts.len() > 0 {
        let k = ts.len() - 1;
        let front = ts.drop_last();
        assert(cooked.drop_last() =~= front.map_values(|r: RawToken| cook(r)));
        assert(runs_canonical(front)) by {
            assert forall|i: int| 0 <= i < front.len() implies match #[trigger] front[i] {
                RawToken::Text { raw, .. } => xml_encoded(xml_decoded(raw)) == raw,
                RawToken::Literal(_) => true,
            } by {
                assert(front[i] == ts[i]);
            }
        }
        lemma_render_untranslated(front, trs.take(k));
        let t = ts[k];
        assert(render_token(cooked.last(), trs[k]) == raw_source(t)) by {
            match t {
                RawToken::Text { raw, .. } => {
                    assert(xml_encoded(xml_decoded(raw)) == raw);
                },
                RawToken::Literal(_) => {},
            }
        }
        assert(ts =~= front + seq![t]);
        lemma_flatten_concat(front, seq![t]);
        lemma_flatten_one(t);
    } else {
        assert(flatten_raw(ts) == Seq::<char>::empty());
    }
}

/// A document whose text runs are all written canonically comes back exactly
/// as it was when no translation replaces any text.
pub proof fn lemma_untranslated_document_unchanged(xml: Seq<char>, trs: Seq<Option<Seq<char>>>)
    requires
        trs.len() == scan(xml, 0).len(),
        forall|i: int| 0 <= i < trs.len() ==> #[trigger] trs[i] is None,
        runs_canonical(scan(xml, 0)),
    ensures
        render(scan(xml, 0).map_values(|r: RawToken| cook(r)), trs) == xml,
{
    lemma_render_untranslated(scan(xml, 0), trs);
    lemma_scan_reassembles(xml, 0);
    assert(xml.subrange(0, xml.len() as int) =~= xml);
}


/// The parts of a DOCX package whose text is translated: the body, and the
/// first three headers and footers.
pub open spec fn target_parts() -> Seq<Seq<char>> {
    seq![
        "word/document.xml"@,
        "word/header1.xml"@,
        "word/header2.xml"@,
        "word/header3.xml"@,
        "word/footer1.xml"@,
        "word/footer2.xml"@,
        "word/footer3.xml"@,
    ]
}

/// The parts whose text is translated are exactly seven: the body
/// `word/document.xml`, the headers `word/header1.xml` to
/// `word/header3.xml` and the footers `word/footer1.xml` to
/// `word/footer3.xml`.
pub proof fn lemma_translated_parts(name: Seq<char>)
    ensures
        target_parts().contains(name) <==> (name == "word/document.xml"@ || name
            == "word/header1.xml"@ || name == "word/header2.xml"@ || name == "word/header3.xml"@
            || name == "word/footer1.xml"@ || name == "word/footer2.xml"@ || name
            == "word/footer3.xml"@),
{
    let p = target_parts();
    assert(p[0] == "word/document.xml"@);
    assert(p[1] == "word/header1.xml"@);
    assert(p[2] == "word/header2.xml"@);
    assert(p[3] == "word/header3.xml"@);
    assert(p[4] == "word/footer1.xml"@);
    assert(p[5] == "word/footer2.xml"@);
    assert(p[6] == "word/footer3.xml"@);
    if p.contains(name) {
        let k = choose|k: int| 0 <= k < p.len() && p[k] == name;
    }
}

/// Whether an archive entry is one whose text gets translated: a file (not a
/// directory) named as one of the [`target_parts`], that is, the body, one of
/// the first three headers or one of the first three footers.
pub fn is_translation_target(name: &str, is_dir: bool) -> (res: bool)
    ensures
        res == (!is_dir && target_parts().contains(name@)),
        res == (!is_dir && (name@ == "word/document.xml"@ || name@ == "word/header1.xml"@ || name@
            == "word/header2.xml"@ || name@ == "word/header3.xml"@ || name@ == "word/footer1.xml"@
            || name@ == "word/footer2.xml"@ || name@ == "word/footer3.xml"@)),
{
    proof {
        lemma_translated_parts(name@);
    }
    if is_dir {
        return false;
    }
    let targets = [
        "word/document.xml",
        "word/header1.xml",
        "word/header2.xml",
        "word/header3.xml",
        "word/footer1.xml",
        "word/footer2.xml",
        "word/footer3.xml",
    ];
    let ghost parts = target_parts();
    assert(parts.len() == 7);
    let mut i: usize = 0;
    while i < 7
        invariant
            !is_dir,
            parts == target_parts(),
            i <= 7,
            targets@.len() == 7,
            forall|k: int| 0 <= k < 7 ==> (#[trigger] targets@[k])@ == parts[k],
            forall|k: int| 0 <= k < i ==> parts[k] != name@,
        decreases 7 - i,
    {
        if same_text(name, targets[i]) {
            assert(parts[i as int] == name@);
            return true;
        }
        i = i + 1;
    }
    assert(!parts.contains(name@)) by {
        if parts.contains(name@) {
            let k = choose|k: int| 0 <= k < parts.len() && parts[k] == name@;
        }
    }
    false
}

/// The text that `String::from_utf8_lossy` reads from bytes: each invalid
/// sequence becomes U+FFFD.
pub uninterp spec fn utf8_lossy(bytes: Seq<u8>) -> Seq<char>;

/// Reads bytes as UTF-8 text, replacing invalid sequences
/// (`String::from_utf8_lossy`). Valid UTF-8 is read exactly.
#[verifier::external_body]
fn decode_utf8_lossy(bytes: &[u8]) -> (res: String)
    ensures
        res@ == utf8_lossy(bytes@),
        valid_utf8(bytes@) ==> res@ == decode_utf8(bytes@),
{
    String::from_utf8_lossy(bytes).into_owned()
}

/// The tokens of a document part: its bytes read as UTF-8 (invalid
/// sequences replaced), then split into verbatim stretches and text runs.
pub fn parse_part(content: &[u8]) -> (tokens: Vec<XmlToken>)
    ensures
        token_views(tokens@) == scan(utf8_lossy(content@), 0).map_values(|r: RawToken| cook(r)),
{
    let xml = decode_utf8_lossy(content);
    parse_wt_tokens(xml.as_str())
}

/// Whether text in the target language needs smaller fonts to fit: Nepali
/// and Tamang run longer than the English they come from.
pub fn needs_smaller_font(target: Language) -> (res: bool)
    ensures
        res == (target == Language::Nepali || target == Language::Tamang),
{
    match target {
        Language::Nepali | Language::Tamang => true,
        Language::English => false,
    }
}

/// The entry that a rewritten part becomes: a file under the same name
/// holding the UTF-8 bytes of the new XML.
pub open spec fn rewritten(e: ArchiveEntryView, xml: Option<Seq<char>>) -> ArchiveEntryView {
    match xml {
        Some(x) => ArchiveEntryView { name: e.name, content: encode_utf8(x), is_dir: false },
        None => e,
    }
}

/// The entries that packing the document records.
pub open spec fn packed_entries(entries: Seq<ArchiveEntry>, new_xml: Seq<Option<String>>) -> Seq<EntryView> {
    Seq::new(entries.len(), |i: int| as_written(rewritten(entries[i]@, opt_views(new_xml)[i])))
}

/// Packs the document again: each entry with new XML is replaced by a file
/// holding that XML, the others are kept as they were. It succeeds whenever
/// the zip writer takes the entries (distinct names that fit in a header,
/// each file under 3.5 GiB, all of it within memory), and only for
/// distinct names.
pub fn finish_docx(entries: Vec<ArchiveEntry>, new_xml: Vec<Option<String>>) -> (res: Result<Vec<u8>, ArchiveError>)
    requires
        new_xml@.len() == entries@.len(),
    ensures
        res matches Ok(bytes) ==> zip_opens(bytes@) && zip_listing(bytes@) == packed_entries(
            entries@,
            new_xml@,
        ),
        res is Ok ==> entry_names(packed_entries(entries@, new_xml@)).no_duplicates(),
        archive_writable(packed_entries(entries@, new_xml@)) ==> res is Ok,
{
    let mut out: Vec<ArchiveEntry> = Vec::new();
    let mut rest = entries;
    let mut xmls = new_xml;
    let ghost es = rest@;
    let ghost xs = opt_views(xmls@);
    let n = rest.len();
    while rest.len() > 0
        invariant
            n == es.len(),
            xs.len() == n,
            rest@.len() == xmls@.len(),
            out@.len() + rest@.len() == n,
            rest@ == es.skip(out@.len() as int),
            opt_views(xmls@) == xs.skip(out@.len() as int),
            forall|k: int| 0 <= k < out@.len() ==> (#[trigger] out@[k])@ == rewritten(es[k]@, xs[k]),
        decreases rest@.len(),
    {
        let k = out.len();
        let ghost old_x = xmls@;
        let e = rest.remove(0);
        let x = xmls.remove(0);
        proof {
            assert(e == es[k as int]);
            assert(x == old_x[0]);
            assert(xmls@ =~= old_x.skip(1));
            assert(opt_views(xmls@) =~= opt_views(old_x).skip(1));
            assert(xs.skip(k as int).skip(1) =~= xs.skip(k + 1));
            assert(rest@ =~= es.skip(k + 1));
            assert(opt_views(old_x)[0] == xs[k as int]);
        }
        let ghost xv = match x {
            Some(ref s) => Some(s@),
            None => None::<Seq<char>>,
        };
        assert(xv == xs[k as int]);
        let item = match x {
            Some(xml) => ArchiveEntry { name: e.name, content: xml.as_str().as_bytes_vec(), is_dir: false },
            None => e,
        };
        out.push(item);
    }
    let ghost target = Seq::new(n as nat, |i: int| as_written(rewritten(es[i]@, xs[i])));
    assert(entry_views(out@).map_values(|e: ArchiveEntryView| as_written(e)) =~= target);
    write_archive(&out)
}

} // verus!
