//! Finding and rewriting the font sizes (`w:sz`, `w:szCs`) of document XML.
use vstd::prelude::*;
use vstd::slice::slice_subrange;
use crate::client::{digits_value, is_dec_digit};
use crate::text::{chars_of, is_whitespace, is_ws, matches_at, occurs_at, push_all, string_from};

verus! {

/// The attribute name `w:sz`.
pub open spec fn sz_name() -> Seq<char> {
    seq!['w', ':', 's', 'z']
}

/// The attribute name `w:szCs`.
pub open spec fn sz_cs_name() -> Seq<char> {
    seq!['w', ':', 's', 'z', 'C', 's']
}

/// The text `w:val="` that opens a size value.
pub open spec fn val_open() -> Seq<char> {
    seq!['w', ':', 'v', 'a', 'l', '=', '"']
}

/// How many white-space characters stand in `s` from `j` on.
pub open spec fn ws_run(s: Seq<char>, j: int) -> nat
    decreases s.len() - j,
{
    if 0 <= j < s.len() && is_ws(s[j]) {
        1 + ws_run(s, j + 1)
    } else {
        0
    }
}

/// How many decimal digits stand in `s` from `j` on.
pub open spec fn digit_run(s: Seq<char>, j: int) -> nat
    decreases s.len() - j,
{
    if 0 <= j < s.len() && is_dec_digit(s[j]) {
        1 + digit_run(s, j + 1)
    } else {
        0
    }
}

/// A size attribute at `i`: `w:sz` or `w:szCs`, white space, `w:val="`,
/// decimal digits and `"`. Gives where the digits start and how many there
/// are. (`w:szCs` is taken where white space follows it, else `w:sz`.)
pub open spec fn size_at(s: Seq<char>, i: int) -> Option<(int, int)> {
    let a = if occurs_at(s, i, sz_cs_name()) && ws_run(s, i + 6) > 0 {
        i + 6
    } else {
        i + 4
    };
    let b = a + ws_run(s, a);
    let c = b + 7;
    let d = digit_run(s, c) as int;
    if occurs_at(s, i, sz_name()) && ws_run(s, a) > 0 && occurs_at(s, b, val_open()) && d > 0 && c
        + d < s.len() && s[c + d] == '"' {
        Some((c, d))
    } else {
        None
    }
}

/// The largest size that is read: a value must be an `i32`.
pub open spec fn size_max() -> nat {
    0x7fff_ffff
}

/// The sizes that `s` gives from `i` on, left to right, each attribute read
/// once, those whose value is an `i32`.
pub open spec fn sizes_from(s: Seq<char>, i: int) -> Seq<nat>
    decreases s.len() - i,
{
    if i < 0 || i >= s.len() {
        Seq::empty()
    } else {
        match size_at(s, i) {
            Some((c, d)) => {
                let v = digits_value(s.subrange(c, c + d));
                if v <= size_max() {
                    seq![v] + sizes_from(s, c + d + 1)
                } else {
                    sizes_from(s, c + d + 1)
                }
            },
            None => sizes_from(s, i + 1),
        }
    }
}

/// The character of a decimal digit.
pub open spec fn digit_char(d: nat) -> char {
    seq!['0', '1', '2', '3', '4', '5', '6', '7', '8', '9'][d as int]
}

/// The decimal digits of `n`.
pub open spec fn decimal(n: nat) -> Seq<char>
    decreases n,
{
    if n < 10 {
        seq![digit_char(n)]
    } else {
        decimal(n / 10).push(digit_char(n % 10))
    }
}

/// `s` from `i` on with the sizes that [`sizes_from`] reads replaced, in
/// order, by `vals`; all else, size attributes whose value is no `i32`
/// included, is kept as it is.
pub open spec fn resized_from(s: Seq<char>, i: int, vals: Seq<nat>) -> Seq<char>
    decreases s.len() - i,
{
    if i < 0 || i >= s.len() {
        Seq::empty()
    } else {
        match size_at(s, i) {
            Some((c, d)) => {
                let v = digits_value(s.subrange(c, c + d));
                if v <= size_max() {
                    s.subrange(i, c) + decimal(vals[0]) + seq!['"'] + resized_from(
                        s,
                        c + d + 1,
                        vals.drop_first(),
                    )
                } else {
                    s.subrange(i, c + d + 1) + resized_from(s, c + d + 1, vals)
                }
            },
            None => seq![s[i]] + resized_from(s, i + 1, vals),
        }
    }
}

/// The values of a sequence of sizes.
pub open spec fn nat_views(v: Seq<u32>) -> Seq<nat> {
    v.map_values(|x: u32| x as nat)
}

fn ws_run_exec(s: &Vec<char>, j: usize) -> (res: usize)
    requires
        j <= s@.len(),
    ensures
        res == ws_run(s@, j as int),
        j + res <= s@.len(),
{
    let mut k: usize = j;
    while k < s.len() && is_whitespace(s[k])
        invariant
            j <= k <= s@.len(),
            ws_run(s@, j as int) == (k - j) + ws_run(s@, k as int),
        decreases s@.len() - k,
    {
        k = k + 1;
    }
    k - j
}

fn digit_run_exec(s: &Vec<char>, j: usize) -> (res: usize)
    requires
        j <= s@.len(),
    ensures
        res == digit_run(s@, j as int),
        j + res <= s@.len(),
        forall|m: int| j <= m < j + res ==> is_dec_digit(#[trigger] s@[m]),
{
    let mut k: usize = j;
    while k < s.len() && '0' <= s[k] && s[k] <= '9'
        invariant
            j <= k <= s@.len(),
            digit_run(s@, j as int) == (k - j) + digit_run(s@, k as int),
            forall|m: int| j <= m < k ==> is_dec_digit(#[trigger] s@[m]),
        decreases s@.len() - k,
    {
        k = k + 1;
    }
    k - j
}

fn size_at_exec(s: &Vec<char>, i: usize) -> (res: Option<(usize, usize)>)
    requires
        i < s@.len(),
    ensures
        match res {
            Some((c, d)) => size_at(s@, i as int) == Some((c as int, d as int)) && c + d < s@.len()
                && forall|m: int| c <= m < c + d ==> is_dec_digit(#[trigger] s@[m]),
            None => size_at(s@, i as int) is None,
        },
{
    let len: usize = s.len();
    let sz = ['w', ':', 's', 'z'];
    let sz_cs = ['w', ':', 's', 'z', 'C', 's'];
    let val = ['w', ':', 'v', 'a', 'l', '=', '"'];
    assert(sz@ =~= sz_name());
    assert(sz_cs@ =~= sz_cs_name());
    assert(val@ =~= val_open());
    if !matches_at(s.as_slice(), i, &sz) {
        return None;
    }
    assert(occurs_at(s@, i as int, sz_name()));
    let mut a: usize = i + 4;
    if matches_at(s.as_slice(), i, &sz_cs) {
        assert(occurs_at(s@, i as int, sz_cs_name()));
        let w = ws_run_exec(s, i + 6);
        if w > 0 {
            a = i + 6;
        }
    }
    let wa = ws_run_exec(s, a);
    if wa == 0 {
        return None;
    }
    let b = a + wa;
    if !matches_at(s.as_slice(), b, &val) {
        return None;
    }
    assert(occurs_at(s@, b as int, val_open()));
    let c = b + 7;
    let d = digit_run_exec(s, c);
    if d == 0 || c + d >= s.len() || s[c + d] != '"' {
        return None;
    }
    Some((c, d))
}

/// The value of the digits `s[c..c + d]`, where it is at most
/// [`size_max`].
fn size_value(s: &Vec<char>, c: usize, d: usize) -> (res: Option<u32>)
    requires
        c + d <= s@.len(),
        forall|m: int| c <= m < c + d ==> is_dec_digit(#[trigger] s@[m]),
    ensures
        match res {
            Some(v) => v as nat == digits_value(s@.subrange(c as int, c + d)) && v <= size_max(),
            None => digits_value(s@.subrange(c as int, c + d)) > size_max(),
        },
{
    let len: usize = s.len();
    assert(c + d <= len);
    let e: usize = c + d;
    let mut v: u64 = 0;
    let mut k: usize = c;
    while k < e
        invariant
            e == c + d,
            c <= k <= c + d <= s@.len(),
            forall|m: int| c <= m < c + d ==> is_dec_digit(#[trigger] s@[m]),
            v == digits_value(s@.subrange(c as int, k as int)),
            v <= size_max(),
        decreases c + d - k,
    {
        let ch = s[k];
        assert(is_dec_digit(s@[k as int]));
        let digit = (ch as u32 - '0' as u32) as u64;
        proof {
            let p = s@.subrange(c as int, k + 1);
            assert(p.drop_last() =~= s@.subrange(c as int, k as int));
            assert(p.last() == ch);
        }
        let next = v * 10 + digit;
        if next > 0x7fff_ffff {
            proof {
                lemma_digits_stay_large(s@, c as int, k + 1, (c + d) as int);
            }
            return None;
        }
        v = next;
        k = k + 1;
    }
    Some(v as u32)
}

proof fn lemma_digits_stay_large(s: Seq<char>, c: int, k: int, e: int)
    requires
        0 <= c <= k <= e <= s.len(),
        forall|m: int| c <= m < e ==> is_dec_digit(#[trigger] s[m]),
        digits_value(s.subrange(c, k)) > size_max(),
    ensures
        digits_value(s.subrange(c, e)) > size_max(),
    decreases e - k,
{
    if k < e {
        let p = s.subrange(c, k + 1);
        assert(p.drop_last() =~= s.subrange(c, k));
        assert(is_dec_digit(s[k]));
        lemma_digits_stay_large(s, c, k + 1, e);
    }
}

fn push_decimal(out: &mut Vec<char>, n: u32)
    ensures
        final(out)@ == old(out)@ + decimal(n as nat),
    decreases n,
{
    let digits = ['0', '1', '2', '3', '4', '5', '6', '7', '8', '9'];
    assert(digits@ =~= seq!['0', '1', '2', '3', '4', '5', '6', '7', '8', '9']);
    let ghost start = out@;
    if n >= 10 {
        push_decimal(out, n / 10);
    }
    out.push(digits[(n % 10) as usize]);
    proof {
        if n >= 10 {
            assert((start + decimal((n / 10) as nat)).push(digit_char((n % 10) as nat)) =~= start
                + decimal((n / 10) as nat).push(digit_char((n % 10) as nat)));
        } else {
            assert(start.push(digit_char(n as nat)) =~= start + seq![digit_char(n as nat)]);
        }
    }
}

/// The font sizes of document XML, left to right (see [`sizes_from`]).
pub fn font_sizes(xml: &str) -> (res: Vec<u32>)
    ensures
        nat_views(res@) == sizes_from(xml@, 0),
{
    let s = chars_of(xml);
    let mut res: Vec<u32> = Vec::new();
    let mut i: usize = 0;
    while i < s.len()
        invariant
            s@ == xml@,
            i <= s@.len(),
            nat_views(res@) + sizes_from(s@, i as int) == sizes_from(s@, 0),
        decreases s@.len() - i,
    {
        let ghost r0 = nat_views(res@);
        match size_at_exec(&s, i) {
            Some((c, d)) => {
                match size_value(&s, c, d) {
                    Some(v) => {
                        res.push(v);
                        proof {
                            assert(nat_views(res@) =~= r0.push(v as nat));
                            assert(r0.push(v as nat) + sizes_from(s@, c + d + 1) =~= r0 + (seq![
                                v as nat] + sizes_from(s@, c + d + 1)));
                        }
                    },
                    None => {},
                }
                i = c + d + 1;
            },
            None => {
                i = i + 1;
            },
        }
    }
    proof {
        assert(nat_views(res@) + Seq::<nat>::empty() =~= nat_views(res@));
    }
    res
}

/// Document XML with its font sizes replaced, in order, by `sizes` (see
/// [`resized_from`]); there is one new size for each size that
/// [`font_sizes`] finds.
pub fn resize_fonts(xml: &str, sizes: &Vec<u32>) -> (res: String)
    requires
        sizes@.len() == sizes_from(xml@, 0).len(),
    ensures
        res@ == resized_from(xml@, 0, nat_views(sizes@)),
{
    let s = chars_of(xml);
    let ghost vals = nat_views(sizes@);
    let n: usize = sizes.len();
    let mut out: Vec<char> = Vec::new();
    let mut i: usize = 0;
    let mut k: usize = 0;
    assert(vals.skip(0) =~= vals);
    assert(out@ + resized_from(s@, 0, vals) =~= resized_from(s@, 0, vals));
    while i < s.len()
        invariant
            n == sizes@.len(),
            s@ == xml@,
            i <= s@.len(),
            vals == nat_views(sizes@),
            k <= sizes@.len(),
            sizes_from(s@, i as int).len() == sizes@.len() - k,
            out@ + resized_from(s@, i as int, vals.skip(k as int)) == resized_from(s@, 0, vals),
        decreases s@.len() - i,
    {
        let ghost o0 = out@;
        let ghost rest = vals.skip(k as int);
        match size_at_exec(&s, i) {
            Some((c, d)) => {
                match size_value(&s, c, d) {
                    Some(_v) => {
                        assert(k < sizes@.len());
                        push_all(&mut out, slice_subrange(s.as_slice(), i, c));
                        push_decimal(&mut out, sizes[k]);
                        out.push('"');
                        proof {
                            assert(rest[0] == sizes@[k as int] as nat);
                            assert(rest.drop_first() =~= vals.skip(k + 1));
                            assert(out@ =~= o0 + (s@.subrange(i as int, c as int) + decimal(
                                rest[0],
                            ) + seq!['"']));
                            assert(out@ + resized_from(s@, c + d + 1, vals.skip(k + 1)) =~= o0
                                + (s@.subrange(i as int, c as int) + decimal(rest[0]) + seq!['"']
                                + resized_from(s@, c + d + 1, rest.drop_first())));
                        }
                        k = k + 1;
                    },
                    None => {
                        push_all(&mut out, slice_subrange(s.as_slice(), i, c + d + 1));
                        proof {
                            assert(out@ + resized_from(s@, c + d + 1, rest) =~= o0 + (
                            s@.subrange(i as int, c + d + 1) + resized_from(s@, c + d + 1, rest)));
                        }
                    },
                }
                i = c + d + 1;
            },
            None => {
                out.push(s[i]);
                proof {
                    assert(out@ + resized_from(s@, i + 1, rest) =~= o0 + (seq![s@[i as int]]
                        + resized_from(s@, i + 1, rest)));
                }
                i = i + 1;
            },
        }
    }
    proof {
        assert(out@ + Seq::<char>::empty() =~= out@);
    }
    string_from(&out)
}

} // verus!
