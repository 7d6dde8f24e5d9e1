//! Page identification: a path names a page when one of the category keywords
//! ("slide" or "slideMaster") is followed by a digit run, one further
//! character, and "xml". The leftmost such occurrence decides, its digit run
//! is read greedily, and its value is the page number.

use vstd::prelude::*;

use crate::strs::{chars_of, lit_match_at, matches_at};
use crate::ExtractError;

verus! {

pub open spec fn lit_slide() -> Seq<char> {
    "slide"@
}

pub open spec fn lit_slide_master() -> Seq<char> {
    "slideMaster"@
}

pub open spec fn lit_xml() -> Seq<char> {
    "xml"@
}

/// A decimal digit.
pub open spec fn is_digit(c: char) -> bool {
    48 <= c as int <= 57
}

/// The numeric value of a digit character.
pub open spec fn digit_val(c: char) -> int {
    c as int - 48
}

/// Length of the run of digits in `s` starting at `j`.
pub open spec fn digits_run(s: Seq<char>, j: int) -> int
    decreases s.len() - j,
{
    if 0 <= j < s.len() && is_digit(s[j]) {
        1 + digits_run(s, j + 1)
    } else {
        0
    }
}

/// The pattern's tail holds at `j` with digit-group length `k`: `k` digits,
/// one arbitrary character, then "xml".
pub open spec fn k_ok(s: Seq<char>, j: int, k: int) -> bool {
    &&& 1 <= k <= digits_run(s, j)
    &&& matches_at(s, j + k + 1, lit_xml())
}

/// The largest digit-group length at most `hi` whose tail holds at `j`: the
/// digit group is read greedily and gives characters back only as far as the
/// rest of the pattern needs.
pub open spec fn best_k_from(s: Seq<char>, j: int, hi: int) -> Option<int>
    decreases hi,
{
    if hi < 1 {
        None::<int>
    } else if k_ok(s, j, hi) {
        Some(hi)
    } else {
        best_k_from(s, j, hi - 1)
    }
}

pub open spec fn best_k(s: Seq<char>, j: int) -> Option<int> {
    best_k_from(s, j, digits_run(s, j))
}

/// A whole-pattern match at `i`: the category keyword length and the
/// digit-group length. The "slide" keyword is tried first; the two cannot
/// both complete at one position, since completion demands a digit right
/// after the keyword and "slideMaster" has 'M' there.
pub open spec fn match_at(s: Seq<char>, i: int) -> Option<(int, int)> {
    if matches_at(s, i, lit_slide()) && best_k(s, i + lit_slide().len()) is Some {
        Some((lit_slide().len() as int, best_k(s, i + lit_slide().len())->Some_0))
    } else if matches_at(s, i, lit_slide_master()) && best_k(s, i + lit_slide_master().len()) is Some {
        Some((lit_slide_master().len() as int, best_k(s, i + lit_slide_master().len())->Some_0))
    } else {
        None::<(int, int)>
    }
}

/// The leftmost whole-pattern match in `s` at or after `i`:
/// (start, keyword length, digit-group length).
pub open spec fn first_match_from(s: Seq<char>, i: int) -> Option<(int, int, int)>
    decreases s.len() - i,
{
    if i < 0 || i >= s.len() {
        None::<(int, int, int)>
    } else if match_at(s, i) is Some {
        Some((i, match_at(s, i)->Some_0.0, match_at(s, i)->Some_0.1))
    } else {
        first_match_from(s, i + 1)
    }
}

/// The numeric value of a digit string, most significant digit first.
pub open spec fn digits_val(ds: Seq<char>) -> int
    decreases ds.len(),
{
    if ds.len() == 0 {
        0
    } else {
        digits_val(ds.drop_last()) * 10 + digit_val(ds.last())
    }
}

/// The page number carried by `s`: the value of the digit group of the
/// leftmost pattern match, or None when no match exists.
pub open spec fn page_no_spec(s: Seq<char>) -> Option<int> {
    match first_match_from(s, 0) {
        None => None::<int>,
        Some((i, cl, k)) => Some(digits_val(s.subrange(i + cl, i + cl + k))),
    }
}

/// Every position covered by a digit run holds a digit.
proof fn lemma_digits_run_chars(s: Seq<char>, j: int, t: int)
    requires
        0 <= j <= t,
        t < j + digits_run(s, j),
    ensures
        t < s.len() && is_digit(s[t]),
    decreases t - j,
{
    if t == j {
    } else {
        lemma_digits_run_chars(s, j + 1, t);
    }
}

/// The value of an all-digit string is not negative.
proof fn lemma_digits_val_nonneg(ds: Seq<char>)
    requires
        forall|t: int| 0 <= t < ds.len() ==> is_digit(ds[t]),
    ensures
        digits_val(ds) >= 0,
    decreases ds.len(),
{
    if ds.len() > 0 {
        lemma_digits_val_nonneg(ds.drop_last());
    }
}

/// Extending an all-digit prefix of `s` cannot shrink its value.
proof fn lemma_digits_val_monotone(s: Seq<char>, j: int, a: int, b: int)
    requires
        0 <= j <= a <= b <= s.len(),
        forall|t: int| j <= t < b ==> is_digit(s[t]),
    ensures
        digits_val(s.subrange(j, a)) <= digits_val(s.subrange(j, b)),
    decreases b - a,
{
    if a < b {
        assert(s.subrange(j, a + 1).drop_last() =~= s.subrange(j, a));
        assert(s.subrange(j, a + 1).last() == s[a]);
        assert(forall|t: int| 0 <= t < a - j ==> is_digit(s.subrange(j, a)[t]));
        lemma_digits_val_nonneg(s.subrange(j, a));
        lemma_digits_val_monotone(s, j, a + 1, b);
    }
}

/// Run of digits in `v` starting at `j`.
fn digits_run_exec(v: &Vec<char>, j: usize) -> (r: usize)
    requires
        j <= v@.len(),
    ensures
        r as int == digits_run(v@, j as int),
        j + r <= v@.len(),
{
    let n = v.len();
    let mut e: usize = j;
    loop
        invariant
            n == v@.len(),
            j <= e <= n,
            digits_run(v@, j as int) == e - j + digits_run(v@, e as int),
        decreases n - e,
    {
        if e >= n {
            return e - j;
        }
        let c = v[e];
        if c < '0' || c > '9' {
            return e - j;
        }
        proof {
            assert(digits_run(v@, e as int) == 1 + digits_run(v@, (e + 1) as int));
        }
        e += 1;
    }
}

/// The largest digit-group length completing the pattern's tail at `j`.
fn best_k_exec(v: &Vec<char>, j: usize, xml_lit: &Vec<char>) -> (r: Option<usize>)
    requires
        j <= v@.len(),
        xml_lit@ == lit_xml(),
    ensures
        match r {
            Some(k) => best_k(v@, j as int) == Some(k as int) && 1 <= k && j + k <= v@.len(),
            None => best_k(v@, j as int) is None,
        },
{
    let n = v.len();
    let run = digits_run_exec(v, j);
    let mut k: usize = run;
    loop
        invariant
            n == v@.len(),
            xml_lit@ == lit_xml(),
            j + run <= n,
            k <= run,
            run as int == digits_run(v@, j as int),
            best_k(v@, j as int) == best_k_from(v@, j as int, k as int),
        decreases k,
    {
        if k < 1 {
            return None;
        }
        let pos = j + k;
        if pos < n && lit_match_at(v, pos + 1, xml_lit) {
            proof {
                assert(k_ok(v@, j as int, k as int));
            }
            return Some(k);
        }
        proof {
            assert(!matches_at(v@, (j + k + 1) as int, lit_xml()));
            assert(!k_ok(v@, j as int, k as int));
        }
        k -= 1;
    }
}

/// A whole-pattern match at `i` in `v`, as (keyword length, digit-group length).
fn try_match_at(v: &Vec<char>, i: usize, slide_lit: &Vec<char>, master_lit: &Vec<char>, xml_lit: &Vec<char>) -> (r: Option<(usize, usize)>)
    requires
        i <= v@.len(),
        slide_lit@ == lit_slide(),
        master_lit@ == lit_slide_master(),
        xml_lit@ == lit_xml(),
    ensures
        match r {
            Some(p) => match_at(v@, i as int) == Some((p.0 as int, p.1 as int))
                && i + p.0 + p.1 <= v@.len(),
            None => match_at(v@, i as int) is None,
        },
{
    let n = v.len();
    if lit_match_at(v, i, slide_lit) {
        let j = i + slide_lit.len();
        if let Some(k) = best_k_exec(v, j, xml_lit) {
            return Some((slide_lit.len(), k));
        }
    }
    if lit_match_at(v, i, master_lit) {
        let j = i + master_lit.len();
        if let Some(k) = best_k_exec(v, j, xml_lit) {
            return Some((master_lit.len(), k));
        }
    }
    None
}

/// Digits `v[j .. j+k]` as a `u32`; `MissingPageNumber` when their value
/// does not fit.
fn parse_page_value(v: &Vec<char>, j: usize, k: usize) -> (r: Result<u32, ExtractError>)
    requires
        j + k <= v@.len(),
        forall|t: int| j <= t < j + k ==> is_digit(v@[t]),
    ensures
        match r {
            Ok(m) => m as int == digits_val(v@.subrange(j as int, (j + k) as int)),
            Err(e) => e is MissingPageNumber
                && digits_val(v@.subrange(j as int, (j + k) as int)) > u32::MAX,
        },
{
    let n = v.len();
    let mut acc: u64 = 0;
    let mut t: usize = 0;
    while t < k
        invariant
            n == v@.len(),
            j + k <= n,
            t <= k,
            forall|u: int| j <= u < j + k ==> is_digit(v@[u]),
            acc as int == digits_val(v@.subrange(j as int, (j + t) as int)),
            acc <= u32::MAX as u64,
        decreases k - t,
    {
        let d = (v[j + t] as u32) - 48;
        proof {
            assert(v@.subrange(j as int, (j + t + 1) as int).drop_last() =~= v@.subrange(
                j as int,
                (j + t) as int,
            ));
            assert(v@.subrange(j as int, (j + t + 1) as int).last() == v@[j + t]);
        }
        acc = acc * 10 + (d as u64);
        if acc > u32::MAX as u64 {
            proof {
                lemma_digits_val_monotone(v@, j as int, (j + t + 1) as int, (j + k) as int);
            }
            return Err(ExtractError::MissingPageNumber);
        }
        t += 1;
    }
    Ok(acc as u32)
}

/// The page number named by `fname`: the value of the digit group at the
/// leftmost occurrence of the page pattern. Returns `Ok(n)` exactly when the
/// pattern occurs and the value fits a `u32`; `MissingPageNumber` otherwise.
pub fn page_no(fname: &str) -> (r: Result<u32, ExtractError>)
    ensures
        match r {
            Ok(n) => page_no_spec(fname@) == Some(n as int),
            Err(e) => e is MissingPageNumber && (page_no_spec(fname@) is None
                || page_no_spec(fname@)->Some_0 > u32::MAX),
        },
{
    let v = chars_of(fname);
    let slide_lit = chars_of("slide");
    let master_lit = chars_of("slideMaster");
    let xml_lit = chars_of("xml");
    let n = v.len();
    let mut i: usize = 0;
    while i < n
        invariant
            n == v@.len(),
            v@ == fname@,
            i <= n,
            slide_lit@ == lit_slide(),
            master_lit@ == lit_slide_master(),
            xml_lit@ == lit_xml(),
            first_match_from(v@, 0) == first_match_from(v@, i as int),
        decreases n - i,
    {
        match try_match_at(&v, i, &slide_lit, &master_lit, &xml_lit) {
            Some(p) => {
                let (cl, k) = p;
                proof {
                    assert(first_match_from(v@, i as int) == Some(
                        (i as int, cl as int, k as int),
                    ));
                    assert(best_k(v@, (i + cl) as int) == Some(k as int));
                    lemma_best_k_from_ok(v@, (i + cl) as int, digits_run(v@, (i + cl) as int));
                    assert(k_ok(v@, (i + cl) as int, k as int));
                    assert forall|t: int| i + cl <= t < i + cl + k implies is_digit(v@[t]) by {
                        lemma_digits_run_chars(v@, (i + cl) as int, t);
                    }
                }
                return parse_page_value(&v, i + cl, k);
            },
            None => {
                proof {
                    assert(first_match_from(v@, i as int) == first_match_from(
                        v@,
                        (i + 1) as int,
                    ));
                }
                i += 1;
            },
        }
    }
    Err(ExtractError::MissingPageNumber)
}

/// A digit run is exactly as long as the digits placed at its start.
proof fn lemma_digits_run_exact(s: Seq<char>, j: int, m: int)
    requires
        0 <= j,
        m >= 0,
        j + m <= s.len(),
        forall|t: int| j <= t < j + m ==> is_digit(s[t]),
        j + m == s.len() || !is_digit(s[j + m]),
    ensures
        digits_run(s, j) == m,
    decreases m,
{
    if m == 0 {
    } else {
        lemma_digits_run_exact(s, j + 1, m - 1);
    }
}

/// Page identification law: on a path of exactly the form
/// `<category><digits>.xml` — a category keyword, one or more digits, the
/// ".xml" extension — the identified page number is the integer value of the
/// digit group, whatever leading zeros it carries.
pub proof fn lemma_page_no_of_pattern(cat: Seq<char>, ds: Seq<char>)
    requires
        cat == lit_slide() || cat == lit_slide_master(),
        ds.len() >= 1,
        forall|t: int| 0 <= t < ds.len() ==> is_digit(ds[t]),
    ensures
        page_no_spec(cat + ds + ".xml"@) == Some(digits_val(ds)),
{
    reveal_strlit("slide");
    reveal_strlit("slideMaster");
    reveal_strlit("xml");
    reveal_strlit(".xml");
    let s = cat + ds + ".xml"@;
    let cl = cat.len() as int;
    let dl = ds.len() as int;
    assert(s.len() == cl + dl + 4);
    assert forall|t: int| cl <= t < cl + dl implies is_digit(s[t]) by {
        assert(s[t] == ds[t - cl]);
    }
    assert(s[cl + dl] == '.');
    assert(!is_digit(s[cl + dl]));
    lemma_digits_run_exact(s, cl, dl);
    assert(matches_at(s, cl + dl + 1, lit_xml())) by {
        assert(s.subrange(cl + dl + 1, cl + dl + 4) =~= lit_xml());
    }
    assert(k_ok(s, cl, dl));
    assert(best_k(s, cl) == Some(dl));
    assert(matches_at(s, 0, cat)) by {
        assert(s.subrange(0, cl) =~= cat);
    }
    if cat == lit_slide() {
        assert(match_at(s, 0) == Some((cl, dl)));
    } else {
        // the "slide" keyword also sits at 0, but no digit follows it
        assert(matches_at(s, 0, lit_slide())) by {
            assert(s.subrange(0, 5) =~= lit_slide());
        }
        assert(s[5] == 'M');
        assert(digits_run(s, 5) == 0);
        assert(best_k(s, 5) is None);
        assert(match_at(s, 0) == Some((cl, dl)));
    }
    assert(first_match_from(s, 0) == Some((0int, cl, dl)));
    assert(s.subrange(cl, cl + dl) =~= ds);
    assert(page_no_spec(s) == Some(digits_val(ds)));
}

/// When `best_k_from` answers, its answer satisfies the tail pattern.
proof fn lemma_best_k_from_ok(s: Seq<char>, j: int, hi: int)
    ensures
        best_k_from(s, j, hi) is Some ==> k_ok(s, j, best_k_from(s, j, hi)->Some_0),
    decreases hi,
{
    if hi < 1 {
    } else if k_ok(s, j, hi) {
    } else {
        lemma_best_k_from_ok(s, j, hi - 1);
    }
}

} // verus!
