//! Character-level text utilities shared by the document formats.
use vstd::prelude::*;

verus! {

/// Unicode `White_Space` characters, the set that `char::is_whitespace` accepts.
pub open spec fn is_ws(c: char) -> bool {
    ||| ('\u{9}' <= c && c <= '\u{d}')
    ||| c == ' '
    ||| c == '\u{85}'
    ||| c == '\u{a0}'
    ||| c == '\u{1680}'
    ||| ('\u{2000}' <= c && c <= '\u{200a}')
    ||| c == '\u{2028}'
    ||| c == '\u{2029}'
    ||| c == '\u{202f}'
    ||| c == '\u{205f}'
    ||| c == '\u{3000}'
}

/// Whether `c` is a Unicode white-space character.
pub fn is_whitespace(c: char) -> (res: bool)
    ensures
        res == is_ws(c),
{
    ('\u{9}' <= c && c <= '\u{d}') || c == ' ' || c == '\u{85}' || c == '\u{a0}' || c == '\u{1680}'
        || ('\u{2000}' <= c && c <= '\u{200a}') || c == '\u{2028}' || c == '\u{2029}' || c
        == '\u{202f}' || c == '\u{205f}' || c == '\u{3000}'
}

/// The characters of `s`, in order.
pub fn chars_of(s: &str) -> (res: Vec<char>)
    ensures
        res@ == s@,
{
    let mut out: Vec<char> = Vec::new();
    for c in it: s.chars()
        invariant
            out@ == it.seq().take(it.index() as int),
    {
        out.push(c);
    }
    out
}


/// Whether two texts are equal, character by character.
pub fn same_text(a: &str, b: &str) -> (res: bool)
    ensures
        res == (a@ == b@),
{
    let x = chars_of(a);
    let y = chars_of(b);
    if x.len() != y.len() {
        return false;
    }
    let mut i: usize = 0;
    while i < x.len()
        invariant
            x@ == a@,
            y@ == b@,
            x@.len() == y@.len(),
            i <= x@.len(),
            forall|j: int| 0 <= j < i ==> x@[j] == y@[j],
        decreases x@.len() - i,
    {
        if x[i] != y[i] {
            assert(x@[i as int] != y@[i as int]);
            return false;
        }
        i = i + 1;
    }
    assert(x@ =~= y@);
    true
}

/// A `String` holding exactly the characters of `v`.
///
/// Wraps `String::from_iter`, which collects the characters in order.
#[verifier::external_body]
pub(crate) fn string_from(v: &[char]) -> (res: String)
    ensures
        res@ == v@,
{
    String::from_iter(v.iter())
}

/// Appends the characters of `v` to `out`.
pub fn push_all(out: &mut Vec<char>, v: &[char])
    ensures
        final(out)@ == old(out)@ + v@,
{
    let ghost start = out@;
    let mut k: usize = 0;
    while k < v.len()
        invariant
            k <= v@.len(),
            out@ == start + v@.take(k as int),
        decreases v@.len() - k,
    {
        out.push(v[k]);
        k = k + 1;
        assert(out@ =~= start + v@.take(k as int));
    }
    assert(v@.take(k as int) =~= v@);
}

/// Whether `pat` occurs in `s` at position `i`.
pub open spec fn occurs_at(s: Seq<char>, i: int, pat: Seq<char>) -> bool {
    0 <= i && i + pat.len() <= s.len() && s.subrange(i, i + pat.len()) == pat
}

/// `s` with every non-overlapping occurrence of `pat`, scanned from the left,
/// replaced by `rep` (the behaviour of `str::replace` for a non-empty pattern).
pub open spec fn replace_all(s: Seq<char>, pat: Seq<char>, rep: Seq<char>) -> Seq<char>
    decreases s.len(),
{
    if s.len() == 0 || pat.len() == 0 {
        s
    } else if occurs_at(s, 0, pat) {
        rep + replace_all(s.skip(pat.len() as int), pat, rep)
    } else {
        seq![s[0]] + replace_all(s.skip(1), pat, rep)
    }
}

/// Whether `pat` occurs in `s` at position `i`.
pub fn matches_at(s: &[char], i: usize, pat: &[char]) -> (res: bool)
    ensures
        res == occurs_at(s@, i as int, pat@),
{
    if i > s.len() || pat.len() > s.len() - i {
        return false;
    }
    let mut j: usize = 0;
    while j < pat.len()
        invariant
            i + pat.len() <= s.len(),
            i + pat@.len() <= s@.len(),
            j <= pat@.len(),
            forall|k: int| 0 <= k < j ==> s@[i + k] == pat@[k],
        decreases pat@.len() - j,
    {
        if s[i + j] != pat[j] {
            assert(s@.subrange(i as int, i + pat@.len())[j as int] != pat@[j as int]);
            return false;
        }
        j = j + 1;
    }
    assert(s@.subrange(i as int, i + pat@.len()) =~= pat@);
    true
}

/// `s` with every occurrence of `pat` replaced by `rep`, as `str::replace` does.
pub fn replace_chars(s: &[char], pat: &[char], rep: &[char]) -> (res: Vec<char>)
    requires
        pat@.len() > 0,
    ensures
        res@ == replace_all(s@, pat@, rep@),
{
    let mut out: Vec<char> = Vec::new();
    let mut i: usize = 0;
    assert(s@.skip(0) =~= s@);
    while i < s.len()
        invariant
            i <= s@.len(),
            pat@.len() > 0,
            out@ + replace_all(s@.skip(i as int), pat@, rep@) == replace_all(s@, pat@, rep@),
        decreases s@.len() - i,
    {
        let ghost rest = s@.skip(i as int);
        if matches_at(s, i, pat) {
            assert(occurs_at(rest, 0, pat@)) by {
                assert(rest.subrange(0, pat@.len() as int) =~= s@.subrange(
                    i as int,
                    i + pat@.len(),
                ));
            }
            assert(rest.skip(pat@.len() as int) =~= s@.skip(i + pat@.len()));
            let mut k: usize = 0;
            let ghost out0 = out@;
            while k < rep.len()
                invariant
                    k <= rep@.len(),
                    out@ == out0 + rep@.take(k as int),
                decreases rep@.len() - k,
            {
                out.push(rep[k]);
                k = k + 1;
                assert(out@ =~= out0 + rep@.take(k as int));
            }
            assert(rep@.take(rep@.len() as int) =~= rep@);
            assert(out@ + replace_all(s@.skip(i + pat@.len()), pat@, rep@) =~= out0 + (rep@
                + replace_all(rest.skip(pat@.len() as int), pat@, rep@)));
            i = i + pat.len();
        } else {
            assert(!occurs_at(rest, 0, pat@)) by {
                if occurs_at(rest, 0, pat@) {
                    assert(rest.subrange(0, pat@.len() as int) =~= s@.subrange(
                        i as int,
                        i + pat@.len(),
                    ));
                }
            }
            assert(rest.skip(1) =~= s@.skip(i + 1));
            let ghost out0 = out@;
            out.push(s[i]);
            assert(out@ + replace_all(s@.skip(i + 1), pat@, rep@) =~= out0 + (seq![rest[0]]
                + replace_all(rest.skip(1), pat@, rep@)));
            i = i + 1;
        }
    }
    assert(s@.skip(i as int) =~= Seq::<char>::empty());
    assert(out@ =~= out@ + Seq::<char>::empty());
    out
}

/// Text that lacks the pattern's first character is left as it is.
pub proof fn lemma_replace_absent(s: Seq<char>, pat: Seq<char>, rep: Seq<char>)
    requires
        pat.len() > 0,
        !s.contains(pat[0]),
    ensures
        replace_all(s, pat, rep) == s,
    decreases s.len(),
{
    if s.len() > 0 {
        assert(s[0] != pat[0]);
        assert(!occurs_at(s, 0, pat)) by {
            if occurs_at(s, 0, pat) {
                assert(s.subrange(0, pat.len() as int)[0] == s[0]);
            }
        }
        let t = s.skip(1);
        assert(!t.contains(pat[0])) by {
            if t.contains(pat[0]) {
                let j = choose|j: int| 0 <= j < t.len() && t[j] == pat[0];
                assert(s[j + 1] == pat[0]);
            }
        }
        lemma_replace_absent(t, pat, rep);
        assert(seq![s[0]] + t =~= s);
    }
}

/// Replacing works piece by piece across a cut that no occurrence of the
/// pattern straddles.
pub proof fn lemma_replace_split(u: Seq<char>, v: Seq<char>, pat: Seq<char>, rep: Seq<char>)
    requires
        pat.len() > 0,
        forall|i: int|
            0 <= i < u.len() && i + pat.len() > u.len() ==> !#[trigger] occurs_at(u + v, i, pat),
    ensures
        replace_all(u + v, pat, rep) == replace_all(u, pat, rep) + replace_all(v, pat, rep),
    decreases u.len(),
{
    let w = u + v;
    if u.len() == 0 {
        assert(w =~= v);
        assert(replace_all(u, pat, rep) + replace_all(v, pat, rep) =~= replace_all(v, pat, rep));
    } else if occurs_at(w, 0, pat) {
        let n: int = pat.len() as int;
        assert(n <= u.len());
        assert(u.subrange(0, n) =~= w.subrange(0, n));
        let u2 = u.skip(n);
        assert(w.skip(n) =~= u2 + v);
        assert forall|i: int| 0 <= i < u2.len() && i + n > u2.len() implies !#[trigger] occurs_at(
            u2 + v,
            i,
            pat,
        ) by {
            if occurs_at(u2 + v, i, pat) {
                assert((u2 + v).subrange(i, i + n) =~= w.subrange(i + n, i + n + n));
                assert(occurs_at(w, i + n, pat));
            }
        }
        lemma_replace_split(u2, v, pat, rep);
        assert(rep + (replace_all(u2, pat, rep) + replace_all(v, pat, rep)) =~= (rep + replace_all(
            u2,
            pat,
            rep,
        )) + replace_all(v, pat, rep));
    } else {
        let n: int = pat.len() as int;
        assert(!occurs_at(u, 0, pat)) by {
            if occurs_at(u, 0, pat) {
                assert(w.subrange(0, n) =~= u.subrange(0, n));
            }
        }
        let u2 = u.skip(1);
        assert(w.skip(1) =~= u2 + v);
        assert forall|i: int| 0 <= i < u2.len() && i + n > u2.len() implies !#[trigger] occurs_at(
            u2 + v,
            i,
            pat,
        ) by {
            if occurs_at(u2 + v, i, pat) {
                assert((u2 + v).subrange(i, i + n) =~= w.subrange(i + 1, i + 1 + n));
                assert(occurs_at(w, i + 1, pat));
            }
        }
        lemma_replace_split(u2, v, pat, rep);
        assert(seq![w[0]] + (replace_all(u2, pat, rep) + replace_all(v, pat, rep)) =~= (seq![u[0]]
            + replace_all(u2, pat, rep)) + replace_all(v, pat, rep));
    }
}

/// Replacing a single character is done character by character.
pub proof fn lemma_replace_char_split(u: Seq<char>, v: Seq<char>, c: char, rep: Seq<char>)
    ensures
        replace_all(u + v, seq![c], rep) == replace_all(u, seq![c], rep) + replace_all(
            v,
            seq![c],
            rep,
        ),
{
    lemma_replace_split(u, v, seq![c], rep);
}

/// What replacing `c` makes of a one-character text.
pub proof fn lemma_replace_one(x: char, c: char, rep: Seq<char>)
    ensures
        replace_all(seq![x], seq![c], rep) == (if x == c {
            rep
        } else {
            seq![x]
        }),
{
    let s = seq![x];
    assert(s.subrange(0, 1) =~= s);
    assert(s.skip(1) =~= Seq::<char>::empty());
    assert(replace_all(s.skip(1), seq![c], rep) =~= Seq::<char>::empty());
    if x == c {
        assert(rep + Seq::<char>::empty() =~= rep);
    } else {
        assert(s.subrange(0, 1) != seq![c]) by {
            assert(s.subrange(0, 1)[0] == x);
        }
        assert(seq![x] + Seq::<char>::empty() =~= s);
    }
}

/// Text in which the pattern never occurs is left as it is.
pub proof fn lemma_replace_none(s: Seq<char>, pat: Seq<char>, rep: Seq<char>)
    requires
        pat.len() > 0,
        forall|i: int| !#[trigger] occurs_at(s, i, pat),
    ensures
        replace_all(s, pat, rep) == s,
    decreases s.len(),
{
    if s.len() > 0 {
        assert(!occurs_at(s, 0, pat));
        let t = s.skip(1);
        let n: int = pat.len() as int;
        assert forall|i: int| !#[trigger] occurs_at(t, i, pat) by {
            if occurs_at(t, i, pat) {
                assert(t.subrange(i, i + n) =~= s.subrange(i + 1, i + 1 + n));
                assert(occurs_at(s, i + 1, pat));
            }
        }
        lemma_replace_none(t, pat, rep);
        assert(seq![s[0]] + t =~= s);
    }
}

/// Where the result of replacing `c` by text that starts with `&` does not
/// start with `&`, its first character is the text's own.
pub proof fn lemma_replace_head(t: Seq<char>, c: char, rep: Seq<char>)
    requires
        rep.len() > 0,
        rep[0] == '&',
        replace_all(t, seq![c], rep).len() > 0,
        replace_all(t, seq![c], rep)[0] != '&',
    ensures
        t.len() > 0,
        t[0] == replace_all(t, seq![c], rep)[0],
        t[0] != c,
        replace_all(t, seq![c], rep).skip(1) == replace_all(t.skip(1), seq![c], rep),
{
    let r = replace_all(t, seq![c], rep);
    assert(t.len() > 0);
    if occurs_at(t, 0, seq![c]) {
        assert(r[0] == rep[0]);
    } else {
        assert(t.subrange(0, 1) =~= seq![t[0]]);
        assert(r.skip(1) =~= replace_all(t.skip(1), seq![c], rep));
    }
}

/// Replacing with text that lacks `c` never brings `c` in; replacing `c`
/// itself by such text removes every `c`.
pub proof fn lemma_replace_keeps_out(s: Seq<char>, pat: Seq<char>, rep: Seq<char>, c: char)
    requires
        pat.len() > 0,
        !rep.contains(c),
        !s.contains(c) || pat == seq![c],
    ensures
        !replace_all(s, pat, rep).contains(c),
    decreases s.len(),
{
    let r = replace_all(s, pat, rep);
    if s.len() > 0 {
        if occurs_at(s, 0, pat) {
            let t = s.skip(pat.len() as int);
            assert(!s.contains(c) ==> !t.contains(c)) by {
                if t.contains(c) {
                    let j = choose|j: int| 0 <= j < t.len() && t[j] == c;
                    assert(s[j + pat.len()] == c);
                }
            }
            lemma_replace_keeps_out(t, pat, rep, c);
            assert(!r.contains(c)) by {
                if r.contains(c) {
                    let j = choose|j: int| 0 <= j < r.len() && r[j] == c;
                    if j < rep.len() {
                        assert(rep[j] == c);
                    } else {
                        assert(replace_all(t, pat, rep)[j - rep.len()] == c);
                    }
                }
            }
        } else {
            let t = s.skip(1);
            assert(s[0] != c) by {
                if s[0] == c {
                    if pat == seq![c] {
                        assert(s.subrange(0, 1) =~= pat);
                    } else {
                        assert(s.contains(c));
                    }
                }
            }
            assert(!s.contains(c) ==> !t.contains(c)) by {
                if t.contains(c) {
                    let j = choose|j: int| 0 <= j < t.len() && t[j] == c;
                    assert(s[j + 1] == c);
                }
            }
            lemma_replace_keeps_out(t, pat, rep, c);
            assert(!r.contains(c)) by {
                if r.contains(c) {
                    let j = choose|j: int| 0 <= j < r.len() && r[j] == c;
                    if j == 0 {
                        assert(r[0] == s[0]);
                    } else {
                        assert(replace_all(t, pat, rep)[j - 1] == c);
                    }
                }
            }
        }
    }
}

/// The pieces of `s` between occurrences of `sep`, as `str::split` gives
/// them: there is always one more piece than there are separators.
pub open spec fn split_on(s: Seq<char>, sep: char) -> Seq<Seq<char>>
    decreases s.len(),
{
    if s.len() == 0 {
        seq![Seq::empty()]
    } else {
        let p = split_on(s.drop_last(), sep);
        if s.last() == sep {
            p.push(Seq::empty())
        } else {
            p.update(p.len() - 1, p.last().push(s.last()))
        }
    }
}

/// `split_on` always yields at least one piece, and no piece holds the separator.
pub proof fn lemma_split_on_shape(s: Seq<char>, sep: char)
    ensures
        split_on(s, sep).len() >= 1,
        forall|i: int|
            0 <= i < split_on(s, sep).len() ==> !(#[trigger] split_on(s, sep)[i]).contains(sep),
    decreases s.len(),
{
    if s.len() > 0 {
        lemma_split_on_shape(s.drop_last(), sep);
        let p = split_on(s.drop_last(), sep);
        if s.last() != sep {
            let q = p.last().push(s.last());
            assert(!q.contains(sep)) by {
                if q.contains(sep) {
                    let j = choose|j: int| 0 <= j < q.len() && q[j] == sep;
                    if j < p.last().len() {
                        assert(p.last()[j] == sep);
                        assert(p.last().contains(sep));
                    }
                }
            }
        } else {
            assert(!Seq::<char>::empty().contains(sep));
        }
    }
}

/// The pieces joined with `sep` between neighbours (`[..].join`).
pub open spec fn join_with(pieces: Seq<Seq<char>>, sep: char) -> Seq<char>
    decreases pieces.len(),
{
    if pieces.len() == 0 {
        Seq::empty()
    } else if pieces.len() == 1 {
        pieces[0]
    } else {
        join_with(pieces.drop_last(), sep).push(sep) + pieces.last()
    }
}

proof fn lemma_split_append_plain(s: Seq<char>, t: Seq<char>, sep: char)
    requires
        !t.contains(sep),
    ensures
        split_on(s + t, sep) == split_on(s, sep).update(
            split_on(s, sep).len() - 1,
            split_on(s, sep).last() + t,
        ),
    decreases t.len(),
{
    lemma_split_on_shape(s, sep);
    if t.len() == 0 {
        assert(s + t =~= s);
        assert(split_on(s, sep).last() + t =~= split_on(s, sep).last());
        assert(split_on(s, sep).update(split_on(s, sep).len() - 1, split_on(s, sep).last())
            =~= split_on(s, sep));
    } else {
        let t0 = t.drop_last();
        assert(!t0.contains(sep)) by {
            if t0.contains(sep) {
                let j = choose|j: int| 0 <= j < t0.len() && t0[j] == sep;
                assert(t[j] == sep);
            }
        }
        assert(t.last() != sep) by {
            assert(t[t.len() - 1] == t.last());
        }
        lemma_split_append_plain(s, t0, sep);
        assert((s + t).drop_last() =~= s + t0);
        assert((s + t).last() == t.last());
        lemma_split_on_shape(s + t0, sep);
        let p = split_on(s, sep);
        let q = split_on(s + t0, sep);
        assert(q.len() == p.len());
        assert(q.last() == p.last() + t0);
        assert(split_on(s + t, sep) == q.update(q.len() - 1, q.last().push(t.last())));
        assert(q.last().push(t.last()) =~= p.last() + t);
        assert(split_on(s + t, sep) =~= split_on(s, sep).update(
            split_on(s, sep).len() - 1,
            split_on(s, sep).last() + t,
        ));
    }
}

/// Splitting what was joined gives the pieces back, when no piece holds the
/// separator.
pub proof fn lemma_split_join(pieces: Seq<Seq<char>>, sep: char)
    requires
        pieces.len() >= 1,
        forall|i: int| 0 <= i < pieces.len() ==> !(#[trigger] pieces[i]).contains(sep),
    ensures
        split_on(join_with(pieces, sep), sep) == pieces,
    decreases pieces.len(),
{
    if pieces.len() == 1 {
        lemma_split_append_plain(Seq::empty(), pieces[0], sep);
        assert(Seq::<char>::empty() + pieces[0] =~= pieces[0]);
        assert(split_on(Seq::<char>::empty(), sep) == seq![Seq::<char>::empty()]);
        assert(Seq::<char>::empty() + pieces[0] =~= pieces[0]);
        assert(seq![Seq::<char>::empty()].update(0, Seq::<char>::empty() + pieces[0]) =~= pieces);
    } else {
        let front = pieces.drop_last();
        assert forall|i: int| 0 <= i < front.len() implies !(#[trigger] front[i]).contains(sep) by {
            assert(front[i] == pieces[i]);
        }
        lemma_split_join(front, sep);
        let j = join_with(front, sep);
        let jp = j.push(sep);
        assert(jp.drop_last() =~= j);
        assert(split_on(jp, sep) == split_on(j, sep).push(Seq::empty()));
        assert(!pieces.last().contains(sep)) by {
            assert(pieces[pieces.len() - 1] == pieces.last());
        }
        lemma_split_append_plain(jp, pieces.last(), sep);
        assert(Seq::<char>::empty() + pieces.last() =~= pieces.last());
        assert(split_on(jp, sep).update(split_on(jp, sep).len() - 1, split_on(jp, sep).last()
            + pieces.last()) =~= pieces);
    }
}

/// `s` without its leading white space.
pub open spec fn trim_start(s: Seq<char>) -> Seq<char>
    decreases s.len(),
{
    if s.len() > 0 && is_ws(s[0]) {
        trim_start(s.skip(1))
    } else {
        s
    }
}

/// `s` without its trailing white space.
pub open spec fn trim_end(s: Seq<char>) -> Seq<char>
    decreases s.len(),
{
    if s.len() > 0 && is_ws(s.last()) {
        trim_end(s.drop_last())
    } else {
        s
    }
}

/// `s` without leading and trailing white space, as `str::trim` gives it.
pub open spec fn trimmed(s: Seq<char>) -> Seq<char> {
    trim_end(trim_start(s))
}

/// Whether `s` holds nothing but white space.
pub open spec fn is_blank(s: Seq<char>) -> bool {
    forall|i: int| 0 <= i < s.len() ==> is_ws(#[trigger] s[i])
}

proof fn lemma_trim_start_suffix(s: Seq<char>, k: int)
    requires
        0 <= k <= s.len(),
        forall|i: int| 0 <= i < k ==> is_ws(#[trigger] s[i]),
    ensures
        trim_start(s) == trim_start(s.skip(k)),
    decreases k,
{
    if k > 0 {
        assert(s.skip(1).skip(k - 1) =~= s.skip(k));
        lemma_trim_start_suffix(s.skip(1), k - 1);
    } else {
        assert(s.skip(0) =~= s);
    }
}

proof fn lemma_trim_end_prefix(s: Seq<char>, k: int)
    requires
        0 <= k <= s.len(),
        forall|i: int| k <= i < s.len() ==> is_ws(#[trigger] s[i]),
    ensures
        trim_end(s) == trim_end(s.take(k)),
    decreases s.len() - k,
{
    if k < s.len() {
        assert(s.drop_last().take(k) =~= s.take(k));
        lemma_trim_end_prefix(s.drop_last(), k);
    } else {
        assert(s.take(k) =~= s);
    }
}

/// Trimming the start stops at or before a character that is not white
/// space: what is left is a suffix of the text.
pub proof fn lemma_trim_start_at(s: Seq<char>, i: int) -> (a: int)
    requires
        0 <= i < s.len(),
        !is_ws(s[i]),
    ensures
        0 <= a <= i,
        trim_start(s) == s.skip(a),
    decreases s.len(),
{
    if s.len() > 0 && is_ws(s[0]) {
        assert(s.skip(1)[i - 1] == s[i]);
        let a1 = lemma_trim_start_at(s.skip(1), i - 1);
        assert(s.skip(1).skip(a1) =~= s.skip(a1 + 1));
        a1 + 1
    } else {
        assert(s.skip(0) =~= s);
        0
    }
}

/// Trimming the end stops after a character that is not white space: what
/// is left is a prefix of the text that holds it.
pub proof fn lemma_trim_end_at(s: Seq<char>, k: int) -> (b: int)
    requires
        0 <= k < s.len(),
        !is_ws(s[k]),
    ensures
        k < b <= s.len(),
        trim_end(s) == s.take(b),
    decreases s.len(),
{
    if is_ws(s.last()) {
        assert(s.drop_last()[k] == s[k]);
        let b1 = lemma_trim_end_at(s.drop_last(), k);
        assert(s.drop_last().take(b1) =~= s.take(b1));
        b1
    } else {
        assert(s.take(s.len() as int) =~= s);
        s.len() as int
    }
}

/// White space between two other characters survives trimming.
pub proof fn lemma_trimmed_keeps_inner_space(s: Seq<char>, i: int, j: int, k: int)
    requires
        0 <= i < j < k < s.len(),
        !is_ws(s[i]),
        is_ws(s[j]),
        !is_ws(s[k]),
    ensures
        exists|m: int| 0 <= m < trimmed(s).len() && is_ws(#[trigger] trimmed(s)[m]),
{
    let a = lemma_trim_start_at(s, i);
    let t = s.skip(a);
    assert(t[k - a] == s[k]);
    let b = lemma_trim_end_at(t, k - a);
    assert(trimmed(s) == t.take(b));
    assert(trimmed(s)[j - a] == s[j]);
}

/// Every character of the trimmed text comes from the text.
pub proof fn lemma_trimmed_within(s: Seq<char>)
    ensures
        forall|j: int| 0 <= j < trimmed(s).len() ==> exists|k: int| 0 <= k < s.len() && s[k] == #[trigger] trimmed(s)[j],
{
    lemma_trim_start_within(s);
    lemma_trim_end_within(trim_start(s));
    assert forall|j: int| 0 <= j < trimmed(s).len() implies exists|k: int| 0 <= k < s.len() && s[k] == #[trigger] trimmed(s)[j] by {
        let k1 = choose|k: int| 0 <= k < trim_start(s).len() && trim_start(s)[k] == trimmed(s)[j];
        let k2 = choose|k: int| 0 <= k < s.len() && s[k] == trim_start(s)[k1];
    }
}

proof fn lemma_trim_start_within(s: Seq<char>)
    ensures
        forall|j: int| 0 <= j < trim_start(s).len() ==> exists|k: int| 0 <= k < s.len() && s[k] == #[trigger] trim_start(s)[j],
    decreases s.len(),
{
    if s.len() > 0 && is_ws(s[0]) {
        lemma_trim_start_within(s.skip(1));
        assert forall|j: int| 0 <= j < trim_start(s).len() implies exists|k: int| 0 <= k < s.len() && s[k] == #[trigger] trim_start(s)[j] by {
            let k = choose|k: int| 0 <= k < s.skip(1).len() && s.skip(1)[k] == trim_start(s.skip(1))[j];
            assert(s[k + 1] == s.skip(1)[k]);
        }
    } else {
        assert forall|j: int| 0 <= j < trim_start(s).len() implies exists|k: int| 0 <= k < s.len() && s[k] == #[trigger] trim_start(s)[j] by {
            assert(s[j] == trim_start(s)[j]);
        }
    }
}

proof fn lemma_trim_end_within(s: Seq<char>)
    ensures
        forall|j: int| 0 <= j < trim_end(s).len() ==> exists|k: int| 0 <= k < s.len() && s[k] == #[trigger] trim_end(s)[j],
    decreases s.len(),
{
    if s.len() > 0 && is_ws(s.last()) {
        lemma_trim_end_within(s.drop_last());
        assert forall|j: int| 0 <= j < trim_end(s).len() implies exists|k: int| 0 <= k < s.len() && s[k] == #[trigger] trim_end(s)[j] by {
            let k = choose|k: int| 0 <= k < s.drop_last().len() && s.drop_last()[k] == trim_end(s.drop_last())[j];
            assert(s[k] == s.drop_last()[k]);
        }
    } else {
        assert forall|j: int| 0 <= j < trim_end(s).len() implies exists|k: int| 0 <= k < s.len() && s[k] == #[trigger] trim_end(s)[j] by {
            assert(s[j] == trim_end(s)[j]);
        }
    }
}

/// Trimming leaves nothing exactly when the text is all white space.
pub proof fn lemma_trimmed_empty_iff_blank(s: Seq<char>)
    ensures
        trimmed(s).len() == 0 <==> is_blank(s),
    decreases s.len(),
{
    lemma_trim_start_shape(s);
    if s.len() > 0 {
        if is_ws(s[0]) {
            lemma_trimmed_empty_iff_blank(s.skip(1));
            if is_blank(s.skip(1)) {
                assert forall|i: int| 0 <= i < s.len() implies is_ws(#[trigger] s[i]) by {
                    if i > 0 {
                        assert(s[i] == s.skip(1)[i - 1]);
                    }
                }
            } else {
                let j = choose|j: int| 0 <= j < s.skip(1).len() && !is_ws(#[trigger] s.skip(1)[j]);
                assert(!is_ws(s[j + 1]));
            }
        } else {
            lemma_trim_end_keeps_head(s);
        }
    }
}

proof fn lemma_trim_start_shape(s: Seq<char>)
    ensures
        trim_start(s).len() <= s.len(),
    decreases s.len(),
{
    if s.len() > 0 && is_ws(s[0]) {
        lemma_trim_start_shape(s.skip(1));
    }
}

proof fn lemma_trim_end_keeps_head(s: Seq<char>)
    requires
        s.len() > 0,
        !is_ws(s[0]),
    ensures
        trim_end(s).len() > 0,
    decreases s.len(),
{
    if is_ws(s.last()) {
        assert(s.len() > 1);
        assert(s.drop_last()[0] == s[0]);
        lemma_trim_end_keeps_head(s.drop_last());
    }
}

/// `s` without leading and trailing white space (`str::trim`).
pub fn trim(s: &[char]) -> (res: Vec<char>)
    ensures
        res@ == trimmed(s@),
{
    let mut lo: usize = 0;
    while lo < s.len() && is_whitespace(s[lo])
        invariant
            lo <= s@.len(),
            forall|i: int| 0 <= i < lo ==> is_ws(#[trigger] s@[i]),
        decreases s@.len() - lo,
    {
        lo = lo + 1;
    }
    proof {
        lemma_trim_start_suffix(s@, lo as int);
        assert(trim_start(s@.skip(lo as int)) == s@.skip(lo as int));
    }
    let mut hi: usize = s.len();
    while hi > lo && is_whitespace(s[hi - 1])
        invariant
            lo <= hi <= s@.len(),
            forall|i: int| hi <= i < s@.len() ==> is_ws(#[trigger] s@[i]),
        decreases hi,
    {
        hi = hi - 1;
    }
    let ghost mid = s@.skip(lo as int);
    proof {
        assert forall|i: int| hi - lo <= i < mid.len() implies is_ws(#[trigger] mid[i]) by {
            assert(mid[i] == s@[lo + i]);
        }
        lemma_trim_end_prefix(mid, hi - lo);
        let m = mid.take(hi - lo);
        if m.len() > 0 {
            assert(m.last() == s@[hi - 1]);
        }
        assert(trim_end(m) == m);
    }
    let mut out: Vec<char> = Vec::new();
    let mut k: usize = lo;
    while k < hi
        invariant
            lo <= k <= hi <= s@.len(),
            out@ == s@.subrange(lo as int, k as int),
        decreases hi - k,
    {
        out.push(s[k]);
        k = k + 1;
        assert(out@ =~= s@.subrange(lo as int, k as int));
    }
    assert(out@ =~= mid.take(hi - lo));
    out
}

} // verus!
