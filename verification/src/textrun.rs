//! Text extraction from slide markup: every non-overlapping text-run tag
//! pair, in document order. Each run is the shortest stretch between an
//! opening tag and the next closing tag; scanning resumes after the close.

use vstd::prelude::*;
use vstd::string::StrSliceExecFns;

use crate::pages::{page_no, page_no_spec};
use crate::strs::{chars_of, find_from, find_lit, lemma_find_from};
use crate::ExtractError;

verus! {

pub open spec fn lit_open_tag() -> Seq<char> {
    seq!['<', 'a', ':', 't', '>']
}

pub open spec fn lit_close_tag() -> Seq<char> {
    seq!['<', '/', 'a', ':', 't', '>']
}

/// The text runs of `s` at or after `i`: at each leftmost opening tag, the
/// stretch up to the next closing tag, resuming after that closing tag.
/// A final opening tag without a closing tag yields nothing.
pub open spec fn texts_from(s: Seq<char>, i: int) -> Seq<Seq<char>>
    decreases s.len() - i,
{
    if i < 0 {
        Seq::<Seq<char>>::empty()
    } else {
        match find_from(s, i, lit_open_tag()) {
            None => Seq::<Seq<char>>::empty(),
            Some(o) => match find_from(s, o + 5, lit_close_tag()) {
                None => Seq::<Seq<char>>::empty(),
                Some(c) => if i <= c && c + 6 <= s.len() {
                    seq![s.subrange(o + 5, c)] + texts_from(s, c + 6)
                } else {
                    Seq::<Seq<char>>::empty()
                },
            },
        }
    }
}

/// All text runs in `content`, in document order.
pub fn extract_texts(content: &str) -> (r: Vec<String>)
    ensures
        r@.map_values(|t: String| t@) == texts_from(content@, 0),
{
    let v = chars_of(content);
    let open_lit = chars_of("<a:t>");
    let close_lit = chars_of("</a:t>");
    proof {
        reveal_strlit("<a:t>");
        reveal_strlit("</a:t>");
        assert(open_lit@ =~= lit_open_tag());
        assert(close_lit@ =~= lit_close_tag());
    }
    let n = v.len();
    let mut res: Vec<String> = Vec::new();
    let mut i: usize = 0;
    loop
        invariant
            n == v@.len(),
            v@ == content@,
            open_lit@ == lit_open_tag(),
            close_lit@ == lit_close_tag(),
            i <= n,
            texts_from(v@, 0) == res@.map_values(|t: String| t@) + texts_from(v@, i as int),
        decreases n - i,
    {
        let found_open = find_lit(&v, i, &open_lit);
        if found_open.is_none() {
            proof {
                assert(texts_from(v@, i as int) =~= Seq::<Seq<char>>::empty());
                assert(res@.map_values(|t: String| t@) =~= texts_from(v@, 0));
            }
            return res;
        }
        let o = found_open.unwrap();
        proof {
            lemma_find_from(v@, i as int, lit_open_tag());
        }
        let found_close = find_lit(&v, o + 5, &close_lit);
        if found_close.is_none() {
            proof {
                assert(texts_from(v@, i as int) =~= Seq::<Seq<char>>::empty());
                assert(res@.map_values(|t: String| t@) =~= texts_from(v@, 0));
            }
            return res;
        }
        let c = found_close.unwrap();
        proof {
            lemma_find_from(v@, (o + 5) as int, lit_close_tag());
        }
        let ghost prev = res@.map_values(|t: String| t@);
        let run = content.substring_char(o + 5, c).to_owned();
        res.push(run);
        proof {
            assert(res@.map_values(|t: String| t@) =~= prev + seq![v@.subrange((o + 5) as int, c as int)]);
            assert(texts_from(v@, i as int) == seq![v@.subrange((o + 5) as int, c as int)]
                + texts_from(v@, (c + 6) as int));
            assert(texts_from(v@, 0) =~= res@.map_values(|t: String| t@) + texts_from(
                v@,
                (c + 6) as int,
            ));
        }
        i = c + 6;
    }
}

/// The page number and text runs of one slide markup entry: every text run of
/// `content` in document order, and the page number read from `path`.
pub fn slide(content: &str, path: &str) -> (r: Result<(u32, Vec<String>), ExtractError>)
    ensures
        match r {
            Ok(p) => page_no_spec(path@) == Some(p.0 as int) && p.1@.map_values(|t: String| t@)
                == texts_from(content@, 0),
            Err(e) => e is MissingPageNumber && (page_no_spec(path@) is None || page_no_spec(
                path@,
            )->Some_0 > u32::MAX),
        },
{
    let texts = extract_texts(content);
    match page_no(path) {
        Ok(n) => Ok((n, texts)),
        Err(e) => Err(e),
    }
}

} // verus!
