//! Character-level scanning primitives: literal matching, substring search,
//! and base-filename extraction on slash-delimited paths.

use vstd::prelude::*;
use vstd::string::StrSliceExecFns;

verus! {

/// `lit` occurs in `s` starting at index `i`.
pub open spec fn matches_at(s: Seq<char>, i: int, lit: Seq<char>) -> bool {
    &&& 0 <= i
    &&& i + lit.len() <= s.len()
    &&& s.subrange(i, i + lit.len() as int) == lit
}

/// `p` is a prefix of `s`.
pub open spec fn has_prefix(s: Seq<char>, p: Seq<char>) -> bool {
    matches_at(s, 0, p)
}

/// The first index at or after `from` where `lit` occurs in `s`.
pub open spec fn find_from(s: Seq<char>, from: int, lit: Seq<char>) -> Option<int>
    decreases s.len() - from
        when 0 <= from && lit.len() >= 1
{
    if from + lit.len() > s.len() {
        None::<int>
    } else if matches_at(s, from, lit) {
        Some(from)
    } else {
        find_from(s, from + 1, lit)
    }
}

/// `find_from` returns the first occurrence: the found index matches and no
/// earlier index at or after `from` does; `None` means no occurrence at all.
pub proof fn lemma_find_from(s: Seq<char>, from: int, lit: Seq<char>)
    requires
        0 <= from,
        lit.len() >= 1,
    ensures
        match find_from(s, from, lit) {
            Some(j) => from <= j && j + lit.len() <= s.len() && matches_at(s, j, lit)
                && (forall|t: int| from <= t < j ==> !matches_at(s, t, lit)),
            None => forall|t: int| from <= t ==> !matches_at(s, t, lit),
        },
    decreases s.len() - from,
{
    if from + lit.len() > s.len() {
    } else if matches_at(s, from, lit) {
    } else {
        lemma_find_from(s, from + 1, lit);
    }
}

/// The characters of `s`, as a vector.
pub fn chars_of(s: &str) -> (v: Vec<char>)
    ensures
        v@ == s@,
{
    let n = s.unicode_len();
    let mut v: Vec<char> = Vec::new();
    let mut i: usize = 0;
    while i < n
        invariant
            n == s@.len(),
            i <= n,
            v@ == s@.subrange(0, i as int),
        decreases n - i,
    {
        v.push(s.get_char(i));
        assert(v@ =~= s@.subrange(0, (i + 1) as int));
        i += 1;
    }
    proof {
        assert(s@.subrange(0, n as int) =~= s@);
    }
    v
}

/// Whether `lit` occurs in `v` at index `i`.
pub fn lit_match_at(v: &Vec<char>, i: usize, lit: &Vec<char>) -> (r: bool)
    ensures
        r == matches_at(v@, i as int, lit@),
{
    let n = v.len();
    let m = lit.len();
    if i > n || m > n - i {
        return false;
    }
    let mut t: usize = 0;
    while t < m
        invariant
            n == v@.len(),
            m == lit@.len(),
            i + m <= n,
            t <= m,
            forall|u: int| 0 <= u < t ==> v@[i + u] == lit@[u],
        decreases m - t,
    {
        if v[i + t] != lit[t] {
            proof {
                assert(v@.subrange(i as int, i + lit@.len() as int)[t as int] == v@[i + t]);
            }
            return false;
        }
        t += 1;
    }
    proof {
        assert(v@.subrange(i as int, i + lit@.len() as int) =~= lit@);
    }
    true
}

/// The first index at or after `from` where `lit` occurs in `v`.
pub fn find_lit(v: &Vec<char>, from: usize, lit: &Vec<char>) -> (r: Option<usize>)
    requires
        lit@.len() >= 1,
    ensures
        match r {
            Some(j) => from <= j && find_from(v@, from as int, lit@) == Some(j as int),
            None => find_from(v@, from as int, lit@) is None,
        },
{
    let mut i: usize = from;
    loop
        invariant
            from <= i,
            lit@.len() >= 1,
            find_from(v@, from as int, lit@) == find_from(v@, i as int, lit@),
        decreases v@.len() + lit@.len() - i,
    {
        if i >= v.len() || lit.len() > v.len() - i {
            return None;
        }
        if lit_match_at(v, i, lit) {
            return Some(i);
        }
        i += 1;
    }
}

/// Whether `p`'s characters are a prefix of `s`'s.
pub fn str_has_prefix(s: &str, p: &str) -> (r: bool)
    ensures
        r == has_prefix(s@, p@),
{
    let v = chars_of(s);
    let pv = chars_of(p);
    lit_match_at(&v, 0, &pv)
}

/// The index where the base filename starts: just after the last '/' of `s`.
pub open spec fn start_of_base(s: Seq<char>) -> int
    decreases s.len()
{
    if s.len() == 0 {
        0
    } else if s.last() == '/' {
        s.len() as int
    } else {
        start_of_base(s.drop_last())
    }
}

/// The base filename of a slash-delimited path: the part after the last '/';
/// `None` when that part is empty (the path is empty or ends in '/').
pub open spec fn base_name_spec(s: Seq<char>) -> Option<Seq<char>> {
    if start_of_base(s) == s.len() {
        None::<Seq<char>>
    } else {
        Some(s.subrange(start_of_base(s), s.len() as int))
    }
}

/// The base filename of a slash-delimited path.
pub fn base_name(s: &str) -> (r: Option<String>)
    ensures
        match r {
            Some(b) => base_name_spec(s@) == Some(b@),
            None => base_name_spec(s@) is None,
        },
{
    let n = s.unicode_len();
    proof {
        assert(s@.subrange(0, n as int) =~= s@);
    }
    let mut i: usize = n;
    while i > 0
        invariant
            n == s@.len(),
            i <= n,
            start_of_base(s@) == start_of_base(s@.subrange(0, i as int)),
        decreases i,
    {
        if s.get_char(i - 1) == '/' {
            proof {
                assert(s@.subrange(0, i as int).last() == '/');
                assert(start_of_base(s@) == i as int);
            }
            if i == n {
                return None;
            }
            return Some(s.substring_char(i, n).to_owned());
        }
        proof {
            assert(s@.subrange(0, i as int).drop_last() =~= s@.subrange(0, (i - 1) as int));
        }
        i -= 1;
    }
    proof {
        assert(s@.subrange(0, 0) =~= Seq::<char>::empty());
        assert(start_of_base(s@) == 0);
    }
    if n == 0 {
        None
    } else {
        Some(s.substring_char(0, n).to_owned())
    }
}

} // verus!
