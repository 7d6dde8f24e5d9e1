//! The document index: entry classification, per-page records, and the merge
//! operations that build one consistent index out of per-entry results.

use vstd::prelude::*;
use vstd::string::StringExecFns;

use crate::pages::page_no_spec;
use crate::rels::{pairs_view, rels, resolve_named, xml_root_view};
use crate::strs::{has_prefix, str_has_prefix};
use crate::textrun::{slide, texts_from};
use crate::ExtractError;

verus! {

/// One page's extracted content.
pub struct PageRecord {
    pub page_no: u32,
    pub slide_master: bool,
    pub images: Vec<String>,
    pub texts: Vec<String>,
}

/// The mathematical model of a page record.
pub struct PageRecordView {
    pub page_no: int,
    pub slide_master: bool,
    pub images: Seq<Seq<char>>,
    pub texts: Seq<Seq<char>>,
}

impl View for PageRecord {
    type V = PageRecordView;

    open spec fn view(&self) -> PageRecordView {
        PageRecordView {
            page_no: self.page_no as int,
            slide_master: self.slide_master,
            images: self.images@.map_values(|t: String| t@),
            texts: self.texts@.map_values(|t: String| t@),
        }
    }
}

/// The models of a record list.
pub open spec fn recs_view(s: Seq<PageRecord>) -> Seq<PageRecordView> {
    s.map_values(|r: PageRecord| r@)
}

/// A record list is well formed for a category when its page numbers are
/// pairwise distinct and every record carries the category's flag.
pub open spec fn recs_wf(s: Seq<PageRecordView>, master: bool) -> bool {
    &&& forall|a: int, b: int| 0 <= a < b < s.len() ==> s[a].page_no != s[b].page_no
    &&& forall|a: int| 0 <= a < s.len() ==> s[a].slide_master == master
}

/// `s` with page `p`'s images set to `imgs`: an existing record for `p` keeps
/// its other fields; a missing one is created with empty texts.
pub open spec fn set_images(
    s: Seq<PageRecordView>,
    master: bool,
    p: int,
    imgs: Seq<Seq<char>>,
) -> Seq<PageRecordView>
    decreases s.len(),
{
    if s.len() == 0 {
        seq![
            PageRecordView {
                page_no: p,
                slide_master: master,
                images: imgs,
                texts: Seq::<Seq<char>>::empty(),
            },
        ]
    } else if s[0].page_no == p {
        seq![
            PageRecordView {
                page_no: s[0].page_no,
                slide_master: s[0].slide_master,
                images: imgs,
                texts: s[0].texts,
            },
        ] + s.drop_first()
    } else {
        seq![s[0]] + set_images(s.drop_first(), master, p, imgs)
    }
}

/// `s` with page `p`'s texts set to `texts`: an existing record for `p` keeps
/// its other fields; a missing one is created with empty images.
pub open spec fn set_texts(
    s: Seq<PageRecordView>,
    master: bool,
    p: int,
    texts: Seq<Seq<char>>,
) -> Seq<PageRecordView>
    decreases s.len(),
{
    if s.len() == 0 {
        seq![
            PageRecordView {
                page_no: p,
                slide_master: master,
                images: Seq::<Seq<char>>::empty(),
                texts: texts,
            },
        ]
    } else if s[0].page_no == p {
        seq![
            PageRecordView {
                page_no: s[0].page_no,
                slide_master: s[0].slide_master,
                images: s[0].images,
                texts: texts,
            },
        ] + s.drop_first()
    } else {
        seq![s[0]] + set_texts(s.drop_first(), master, p, texts)
    }
}

/// Setting images touches no other record: positions below `s.len()` keep
/// their page number, flag and texts; a record is appended only when `p` was
/// absent, and then carries `p`, the flag and empty texts.
pub proof fn lemma_set_images_shape(s: Seq<PageRecordView>, master: bool, p: int, imgs: Seq<Seq<char>>)
    ensures
        s.len() <= set_images(s, master, p, imgs).len() <= s.len() + 1,
        forall|t: int|
            0 <= t < s.len() ==> (#[trigger] set_images(s, master, p, imgs)[t]).page_no
                == s[t].page_no && set_images(s, master, p, imgs)[t].slide_master
                == s[t].slide_master && set_images(s, master, p, imgs)[t].texts == s[t].texts,
        set_images(s, master, p, imgs).len() == s.len() + 1 ==> set_images(s, master, p, imgs)[
            s.len() as int
        ] == (PageRecordView {
            page_no: p,
            slide_master: master,
            images: imgs,
            texts: Seq::<Seq<char>>::empty(),
        }),
        set_images(s, master, p, imgs).len() == s.len() + 1 ==> forall|t: int|
            0 <= t < s.len() ==> (#[trigger] s[t]).page_no != p,
    decreases s.len(),
{
    let r = set_images(s, master, p, imgs);
    if s.len() == 0 {
    } else if s[0].page_no == p {
        assert(forall|t: int| 1 <= t < r.len() ==> r[t] == s.drop_first()[t - 1] && r[t] == s[t]);
    } else {
        lemma_set_images_shape(s.drop_first(), master, p, imgs);
        let rr = set_images(s.drop_first(), master, p, imgs);
        assert(forall|t: int| 1 <= t < r.len() ==> r[t] == rr[t - 1]);
        assert(forall|t: int| 0 <= t < s.drop_first().len() ==> s.drop_first()[t] == s[t + 1]);
        if r.len() == s.len() + 1 {
            assert forall|t: int| 0 <= t < s.len() implies (#[trigger] s[t]).page_no != p by {
                if t >= 1 {
                    assert(s.drop_first()[t - 1] == s[t]);
                }
            }
        }
    }
}

/// Setting texts touches no other record, as `lemma_set_images_shape` says of
/// images.
pub proof fn lemma_set_texts_shape(s: Seq<PageRecordView>, master: bool, p: int, texts: Seq<Seq<char>>)
    ensures
        s.len() <= set_texts(s, master, p, texts).len() <= s.len() + 1,
        forall|t: int|
            0 <= t < s.len() ==> (#[trigger] set_texts(s, master, p, texts)[t]).page_no
                == s[t].page_no && set_texts(s, master, p, texts)[t].slide_master
                == s[t].slide_master && set_texts(s, master, p, texts)[t].images == s[t].images,
        set_texts(s, master, p, texts).len() == s.len() + 1 ==> set_texts(s, master, p, texts)[
            s.len() as int
        ] == (PageRecordView {
            page_no: p,
            slide_master: master,
            images: Seq::<Seq<char>>::empty(),
            texts: texts,
        }),
        set_texts(s, master, p, texts).len() == s.len() + 1 ==> forall|t: int|
            0 <= t < s.len() ==> (#[trigger] s[t]).page_no != p,
    decreases s.len(),
{
    let r = set_texts(s, master, p, texts);
    if s.len() == 0 {
    } else if s[0].page_no == p {
        assert(forall|t: int| 1 <= t < r.len() ==> r[t] == s.drop_first()[t - 1] && r[t] == s[t]);
    } else {
        lemma_set_texts_shape(s.drop_first(), master, p, texts);
        let rr = set_texts(s.drop_first(), master, p, texts);
        assert(forall|t: int| 1 <= t < r.len() ==> r[t] == rr[t - 1]);
        assert(forall|t: int| 0 <= t < s.drop_first().len() ==> s.drop_first()[t] == s[t + 1]);
        if r.len() == s.len() + 1 {
            assert forall|t: int| 0 <= t < s.len() implies (#[trigger] s[t]).page_no != p by {
                if t >= 1 {
                    assert(s.drop_first()[t - 1] == s[t]);
                }
            }
        }
    }
}

/// Well-formedness survives a merge of images.
pub proof fn lemma_set_images_wf(s: Seq<PageRecordView>, master: bool, p: int, imgs: Seq<Seq<char>>)
    requires
        recs_wf(s, master),
    ensures
        recs_wf(set_images(s, master, p, imgs), master),
{
    lemma_set_images_shape(s, master, p, imgs);
}

/// Well-formedness survives a merge of texts.
pub proof fn lemma_set_texts_wf(s: Seq<PageRecordView>, master: bool, p: int, texts: Seq<Seq<char>>)
    requires
        recs_wf(s, master),
    ensures
        recs_wf(set_texts(s, master, p, texts), master),
{
    lemma_set_texts_shape(s, master, p, texts);
}

/// Merge commutativity per key: recording a page's images and recording its
/// texts reach the same record list in either order.
pub proof fn lemma_merge_commutes(
    s: Seq<PageRecordView>,
    master: bool,
    p: int,
    imgs: Seq<Seq<char>>,
    texts: Seq<Seq<char>>,
)
    ensures
        set_texts(set_images(s, master, p, imgs), master, p, texts) == set_images(
            set_texts(s, master, p, texts),
            master,
            p,
            imgs,
        ),
    decreases s.len(),
{
    let li = set_images(s, master, p, imgs);
    let lt = set_texts(s, master, p, texts);
    if s.len() == 0 {
        assert(li.drop_first() =~= Seq::<PageRecordView>::empty());
        assert(lt.drop_first() =~= Seq::<PageRecordView>::empty());
        assert(set_texts(li, master, p, texts) =~= set_images(lt, master, p, imgs));
    } else if s[0].page_no == p {
        assert(li.drop_first() =~= s.drop_first());
        assert(lt.drop_first() =~= s.drop_first());
        assert(set_texts(li, master, p, texts) =~= set_images(lt, master, p, imgs));
    } else {
        lemma_merge_commutes(s.drop_first(), master, p, imgs, texts);
        assert(li.drop_first() =~= set_images(s.drop_first(), master, p, imgs));
        assert(lt.drop_first() =~= set_texts(s.drop_first(), master, p, texts));
        assert(set_texts(li, master, p, texts) =~= set_images(lt, master, p, imgs));
    }
}

/// At the first record carrying `p`, setting images is an update in place.
proof fn lemma_set_images_at(s: Seq<PageRecordView>, master: bool, p: int, imgs: Seq<Seq<char>>, j: int)
    requires
        0 <= j < s.len(),
        s[j].page_no == p,
        forall|t: int| 0 <= t < j ==> s[t].page_no != p,
    ensures
        set_images(s, master, p, imgs) == s.update(
            j,
            PageRecordView {
                page_no: s[j].page_no,
                slide_master: s[j].slide_master,
                images: imgs,
                texts: s[j].texts,
            },
        ),
    decreases j,
{
    if j == 0 {
        assert(set_images(s, master, p, imgs) =~= s.update(
            0,
            PageRecordView {
                page_no: s[0].page_no,
                slide_master: s[0].slide_master,
                images: imgs,
                texts: s[0].texts,
            },
        ));
    } else {
        assert(forall|t: int| 0 <= t < s.drop_first().len() ==> s.drop_first()[t] == s[t + 1]);
        lemma_set_images_at(s.drop_first(), master, p, imgs, j - 1);
        assert(set_images(s, master, p, imgs) =~= s.update(
            j,
            PageRecordView {
                page_no: s[j].page_no,
                slide_master: s[j].slide_master,
                images: imgs,
                texts: s[j].texts,
            },
        ));
    }
}

/// When no record carries `p`, setting images appends a fresh record.
proof fn lemma_set_images_absent(s: Seq<PageRecordView>, master: bool, p: int, imgs: Seq<Seq<char>>)
    requires
        forall|t: int| 0 <= t < s.len() ==> s[t].page_no != p,
    ensures
        set_images(s, master, p, imgs) == s.push(
            PageRecordView {
                page_no: p,
                slide_master: master,
                images: imgs,
                texts: Seq::<Seq<char>>::empty(),
            },
        ),
    decreases s.len(),
{
    if s.len() == 0 {
        assert(set_images(s, master, p, imgs) =~= s.push(
            PageRecordView {
                page_no: p,
                slide_master: master,
                images: imgs,
                texts: Seq::<Seq<char>>::empty(),
            },
        ));
    } else {
        assert(forall|t: int| 0 <= t < s.drop_first().len() ==> s.drop_first()[t] == s[t + 1]);
        lemma_set_images_absent(s.drop_first(), master, p, imgs);
        assert(set_images(s, master, p, imgs) =~= s.push(
            PageRecordView {
                page_no: p,
                slide_master: master,
                images: imgs,
                texts: Seq::<Seq<char>>::empty(),
            },
        ));
    }
}

/// At the first record carrying `p`, setting texts is an update in place.
proof fn lemma_set_texts_at(s: Seq<PageRecordView>, master: bool, p: int, texts: Seq<Seq<char>>, j: int)
    requires
        0 <= j < s.len(),
        s[j].page_no == p,
        forall|t: int| 0 <= t < j ==> s[t].page_no != p,
    ensures
        set_texts(s, master, p, texts) == s.update(
            j,
            PageRecordView {
                page_no: s[j].page_no,
                slide_master: s[j].slide_master,
                images: s[j].images,
                texts: texts,
            },
        ),
    decreases j,
{
    if j == 0 {
        assert(set_texts(s, master, p, texts) =~= s.update(
            0,
            PageRecordView {
                page_no: s[0].page_no,
                slide_master: s[0].slide_master,
                images: s[0].images,
                texts: texts,
            },
        ));
    } else {
        assert(forall|t: int| 0 <= t < s.drop_first().len() ==> s.drop_first()[t] == s[t + 1]);
        lemma_set_texts_at(s.drop_first(), master, p, texts, j - 1);
        assert(set_texts(s, master, p, texts) =~= s.update(
            j,
            PageRecordView {
                page_no: s[j].page_no,
                slide_master: s[j].slide_master,
                images: s[j].images,
                texts: texts,
            },
        ));
    }
}

/// When no record carries `p`, setting texts appends a fresh record.
proof fn lemma_set_texts_absent(s: Seq<PageRecordView>, master: bool, p: int, texts: Seq<Seq<char>>)
    requires
        forall|t: int| 0 <= t < s.len() ==> s[t].page_no != p,
    ensures
        set_texts(s, master, p, texts) == s.push(
            PageRecordView {
                page_no: p,
                slide_master: master,
                images: Seq::<Seq<char>>::empty(),
                texts: texts,
            },
        ),
    decreases s.len(),
{
    if s.len() == 0 {
        assert(set_texts(s, master, p, texts) =~= s.push(
            PageRecordView {
                page_no: p,
                slide_master: master,
                images: Seq::<Seq<char>>::empty(),
                texts: texts,
            },
        ));
    } else {
        assert(forall|t: int| 0 <= t < s.drop_first().len() ==> s.drop_first()[t] == s[t + 1]);
        lemma_set_texts_absent(s.drop_first(), master, p, texts);
        assert(set_texts(s, master, p, texts) =~= s.push(
            PageRecordView {
                page_no: p,
                slide_master: master,
                images: Seq::<Seq<char>>::empty(),
                texts: texts,
            },
        ));
    }
}

/// The position of the first record for page `p`.
fn find_page_index(recs: &Vec<PageRecord>, p: u32) -> (r: Option<usize>)
    ensures
        match r {
            Some(j) => j < recs@.len() && recs@[j as int].page_no == p && (forall|t: int|
                0 <= t < j ==> recs@[t].page_no != p),
            None => forall|t: int| 0 <= t < recs@.len() ==> recs@[t].page_no != p,
        },
{
    let n = recs.len();
    let mut i: usize = 0;
    while i < n
        invariant
            n == recs@.len(),
            i <= n,
            forall|t: int| 0 <= t < i ==> recs@[t].page_no != p,
        decreases n - i,
    {
        if recs[i].page_no == p {
            return Some(i);
        }
        i += 1;
    }
    None
}

/// Set page `p`'s images in one category's record list.
fn set_images_vec(recs: &mut Vec<PageRecord>, master: bool, p: u32, imgs: Vec<String>)
    ensures
        recs_view(final(recs)@) == set_images(
            recs_view(old(recs)@),
            master,
            p as int,
            imgs@.map_values(|t: String| t@),
        ),
{
    let ghost iv = imgs@.map_values(|t: String| t@);
    match find_page_index(recs, p) {
        Some(j) => {
            recs[j].images = imgs;
            proof {
                assert(forall|t: int|
                    0 <= t < old(recs)@.len() ==> recs_view(old(recs)@)[t] == old(recs)@[t]@);
                lemma_set_images_at(recs_view(old(recs)@), master, p as int, iv, j as int);
                assert(recs_view(recs@) =~= recs_view(old(recs)@).update(
                    j as int,
                    PageRecordView {
                        page_no: old(recs)@[j as int]@.page_no,
                        slide_master: old(recs)@[j as int]@.slide_master,
                        images: iv,
                        texts: old(recs)@[j as int]@.texts,
                    },
                ));
            }
        },
        None => {
            let rec = PageRecord { page_no: p, slide_master: master, images: imgs, texts: Vec::new() };
            proof {
                assert(rec@.texts =~= Seq::<Seq<char>>::empty());
            }
            recs.push(rec);
            proof {
                assert(forall|t: int|
                    0 <= t < old(recs)@.len() ==> recs_view(old(recs)@)[t] == old(recs)@[t]@);
                lemma_set_images_absent(recs_view(old(recs)@), master, p as int, iv);
                assert(recs_view(recs@) =~= recs_view(old(recs)@).push(
                    PageRecordView {
                        page_no: p as int,
                        slide_master: master,
                        images: iv,
                        texts: Seq::<Seq<char>>::empty(),
                    },
                ));
            }
        },
    }
}

/// Set page `p`'s texts in one category's record list.
fn set_texts_vec(recs: &mut Vec<PageRecord>, master: bool, p: u32, texts: Vec<String>)
    ensures
        recs_view(final(recs)@) == set_texts(
            recs_view(old(recs)@),
            master,
            p as int,
            texts@.map_values(|t: String| t@),
        ),
{
    let ghost tv = texts@.map_values(|t: String| t@);
    match find_page_index(recs, p) {
        Some(j) => {
            recs[j].texts = texts;
            proof {
                assert(forall|t: int|
                    0 <= t < old(recs)@.len() ==> recs_view(old(recs)@)[t] == old(recs)@[t]@);
                lemma_set_texts_at(recs_view(old(recs)@), master, p as int, tv, j as int);
                assert(recs_view(recs@) =~= recs_view(old(recs)@).update(
                    j as int,
                    PageRecordView {
                        page_no: old(recs)@[j as int]@.page_no,
                        slide_master: old(recs)@[j as int]@.slide_master,
                        images: old(recs)@[j as int]@.images,
                        texts: tv,
                    },
                ));
            }
        },
        None => {
            let rec = PageRecord { page_no: p, slide_master: master, images: Vec::new(), texts: texts };
            proof {
                assert(rec@.images =~= Seq::<Seq<char>>::empty());
            }
            recs.push(rec);
            proof {
                assert(forall|t: int|
                    0 <= t < old(recs)@.len() ==> recs_view(old(recs)@)[t] == old(recs)@[t]@);
                lemma_set_texts_absent(recs_view(old(recs)@), master, p as int, tv);
                assert(recs_view(recs@) =~= recs_view(old(recs)@).push(
                    PageRecordView {
                        page_no: p as int,
                        slide_master: master,
                        images: Seq::<Seq<char>>::empty(),
                        texts: tv,
                    },
                ));
            }
        },
    }
}

/// The kind of a container entry, decided by its internal path.
#[derive(Clone, Copy, Debug, PartialEq, Eq, Structural)]
pub enum EntryKind {
    /// A raw media file to copy out.
    Media,
    /// A slide's relationship document.
    SlideRels,
    /// A slide master's relationship document.
    MasterRels,
    /// Slide markup to read text runs from.
    Slide,
    /// Anything else; ignored.
    Other,
}

pub open spec fn dir_media() -> Seq<char> {
    "ppt/media"@
}

pub open spec fn dir_slides_rels() -> Seq<char> {
    "ppt/slides/_rels"@
}

pub open spec fn dir_master_rels() -> Seq<char> {
    "ppt/slideMasters/_rels"@
}

pub open spec fn dir_slides() -> Seq<char> {
    "ppt/slides"@
}

/// The classification rules in their precedence order: media first, then the
/// two relationship directories, then the generic slide directory, which is a
/// prefix of the slide relationship directory and so must come after it.
pub open spec fn classify_spec(s: Seq<char>) -> EntryKind {
    if has_prefix(s, dir_media()) {
        EntryKind::Media
    } else if has_prefix(s, dir_slides_rels()) {
        EntryKind::SlideRels
    } else if has_prefix(s, dir_master_rels()) {
        EntryKind::MasterRels
    } else if has_prefix(s, dir_slides()) {
        EntryKind::Slide
    } else {
        EntryKind::Other
    }
}

/// Classify one entry path.
pub fn classify(path: &str) -> (r: EntryKind)
    ensures
        r == classify_spec(path@),
{
    if str_has_prefix(path, "ppt/media") {
        EntryKind::Media
    } else if str_has_prefix(path, "ppt/slides/_rels") {
        EntryKind::SlideRels
    } else if str_has_prefix(path, "ppt/slideMasters/_rels") {
        EntryKind::MasterRels
    } else if str_has_prefix(path, "ppt/slides") {
        EntryKind::Slide
    } else {
        EntryKind::Other
    }
}

/// Dispatch precedence law: a path under the slide relationship directory is
/// routed to relationship resolution, never to text extraction, although the
/// generic slide directory is a prefix of the relationship directory.
pub proof fn lemma_rels_routing(s: Seq<char>)
    requires
        has_prefix(s, dir_slides_rels()),
    ensures
        classify_spec(s) == EntryKind::SlideRels,
{
    reveal_strlit("ppt/media");
    reveal_strlit("ppt/slides/_rels");
    if has_prefix(s, dir_media()) {
        assert(s.subrange(0, 9)[4] == 'm');
        assert(s.subrange(0, 16)[4] == 's');
        assert(false);
    }
}

/// The filenames of an identifier-to-filename mapping, in mapping order.
pub open spec fn pairs_vals(m: Seq<(Seq<char>, Seq<char>)>) -> Seq<Seq<char>> {
    m.map_values(|q: (Seq<char>, Seq<char>)| q.1)
}

/// The filenames of a mapping, cloned in mapping order.
fn values_of(m: &Vec<(String, String)>) -> (r: Vec<String>)
    ensures
        r@.map_values(|t: String| t@) == pairs_vals(pairs_view(m@)),
{
    let n = m.len();
    let mut out: Vec<String> = Vec::new();
    let mut i: usize = 0;
    while i < n
        invariant
            n == m@.len(),
            i <= n,
            out@.len() == i,
            forall|t: int| 0 <= t < i ==> (#[trigger] out@[t])@ == m@[t].1@,
        decreases n - i,
    {
        out.push(m[i].1.clone());
        i += 1;
    }
    proof {
        assert(out@.map_values(|t: String| t@) =~= pairs_vals(pairs_view(m@)));
    }
    out
}

/// The aggregate result for one input file.
pub struct DocumentIndex {
    pub title: String,
    pub slides: Vec<PageRecord>,
    pub masters: Vec<PageRecord>,
}

/// The mathematical model of a document index.
pub struct DocumentIndexView {
    pub title: Seq<char>,
    pub slides: Seq<PageRecordView>,
    pub masters: Seq<PageRecordView>,
}

impl View for DocumentIndex {
    type V = DocumentIndexView;

    open spec fn view(&self) -> DocumentIndexView {
        DocumentIndexView {
            title: self.title@,
            slides: recs_view(self.slides@),
            masters: recs_view(self.masters@),
        }
    }
}

impl DocumentIndex {
    /// Both record lists are well formed and carry their category's flag.
    pub open spec fn wf(&self) -> bool {
        recs_wf(self@.slides, false) && recs_wf(self@.masters, true)
    }

    /// A fresh, empty index titled `title`.
    pub fn new(title: String) -> (r: DocumentIndex)
        ensures
            r@.title == title@,
            r@.slides == Seq::<PageRecordView>::empty(),
            r@.masters == Seq::<PageRecordView>::empty(),
            r.wf(),
    {
        let r = DocumentIndex { title, slides: Vec::new(), masters: Vec::new() };
        proof {
            assert(recs_view(r.slides@) =~= Seq::<PageRecordView>::empty());
            assert(recs_view(r.masters@) =~= Seq::<PageRecordView>::empty());
        }
        r
    }

    /// Record `imgs` as the images of page `p` in the given category.
    pub fn merge_images(&mut self, master: bool, p: u32, imgs: Vec<String>)
        requires
            old(self).wf(),
        ensures
            final(self).wf(),
            final(self)@.title == old(self)@.title,
            master ==> final(self)@.masters == set_images(
                old(self)@.masters,
                true,
                p as int,
                imgs@.map_values(|t: String| t@),
            ) && final(self)@.slides == old(self)@.slides,
            !master ==> final(self)@.slides == set_images(
                old(self)@.slides,
                false,
                p as int,
                imgs@.map_values(|t: String| t@),
            ) && final(self)@.masters == old(self)@.masters,
    {
        let ghost iv = imgs@.map_values(|t: String| t@);
        if master {
            set_images_vec(&mut self.masters, true, p, imgs);
            proof {
                lemma_set_images_wf(old(self)@.masters, true, p as int, iv);
            }
        } else {
            set_images_vec(&mut self.slides, false, p, imgs);
            proof {
                lemma_set_images_wf(old(self)@.slides, false, p as int, iv);
            }
        }
    }

    /// Record `texts` as the texts of page `p` in the given category.
    pub fn merge_texts(&mut self, master: bool, p: u32, texts: Vec<String>)
        requires
            old(self).wf(),
        ensures
            final(self).wf(),
            final(self)@.title == old(self)@.title,
            master ==> final(self)@.masters == set_texts(
                old(self)@.masters,
                true,
                p as int,
                texts@.map_values(|t: String| t@),
            ) && final(self)@.slides == old(self)@.slides,
            !master ==> final(self)@.slides == set_texts(
                old(self)@.slides,
                false,
                p as int,
                texts@.map_values(|t: String| t@),
            ) && final(self)@.masters == old(self)@.masters,
    {
        let ghost tv = texts@.map_values(|t: String| t@);
        if master {
            set_texts_vec(&mut self.masters, true, p, texts);
            proof {
                lemma_set_texts_wf(old(self)@.masters, true, p as int, tv);
            }
        } else {
            set_texts_vec(&mut self.slides, false, p, texts);
            proof {
                lemma_set_texts_wf(old(self)@.slides, false, p as int, tv);
            }
        }
    }

    /// Process one container entry: classify its path, extract what its kind
    /// carries, and merge the result into this index. Media entries are a
    /// side effect the caller performs; here, like unknown entries, they
    /// change nothing. A failing entry leaves the index unchanged.
    pub fn process_entry(&mut self, path: &str, content: &str) -> (r: Result<(), ExtractError>)
        requires
            old(self).wf(),
        ensures
            final(self).wf(),
            final(self)@.title == old(self)@.title,
            r is Err ==> final(self)@ == old(self)@,
            (classify_spec(path@) == EntryKind::Media || classify_spec(path@) == EntryKind::Other)
                ==> r is Ok && final(self)@ == old(self)@,
            classify_spec(path@) == EntryKind::Slide ==> {
                &&& r is Ok <==> (page_no_spec(path@) is Some && page_no_spec(path@)->Some_0
                    <= u32::MAX)
                &&& r is Ok ==> final(self)@.slides == set_texts(
                    old(self)@.slides,
                    false,
                    page_no_spec(path@)->Some_0,
                    texts_from(content@, 0),
                ) && final(self)@.masters == old(self)@.masters
                &&& r is Err ==> r->Err_0 is MissingPageNumber
            },
            classify_spec(path@) == EntryKind::SlideRels ==> {
                &&& r is Ok <==> (xml_root_view(content@) is Some && page_no_spec(path@) is Some
                    && page_no_spec(path@)->Some_0 <= u32::MAX)
                &&& r is Ok ==> final(self)@.slides == set_images(
                    old(self)@.slides,
                    false,
                    page_no_spec(path@)->Some_0,
                    pairs_vals(resolve_named(xml_root_view(content@)->Some_0)),
                ) && final(self)@.masters == old(self)@.masters
                &&& r is Err ==> match r->Err_0 {
                    ExtractError::Parse { path: at, detail } => xml_root_view(content@) is None
                        && at@ == path@,
                    ExtractError::MissingPageNumber => xml_root_view(content@) is Some && (
                    page_no_spec(path@) is None || page_no_spec(path@)->Some_0 > u32::MAX),
                }
            },
            classify_spec(path@) == EntryKind::MasterRels ==> {
                &&& r is Ok <==> (xml_root_view(content@) is Some && page_no_spec(path@) is Some
                    && page_no_spec(path@)->Some_0 <= u32::MAX)
                &&& r is Ok ==> final(self)@.masters == set_images(
                    old(self)@.masters,
                    true,
                    page_no_spec(path@)->Some_0,
                    pairs_vals(resolve_named(xml_root_view(content@)->Some_0)),
                ) && final(self)@.slides == old(self)@.slides
                &&& r is Err ==> match r->Err_0 {
                    ExtractError::Parse { path: at, detail } => xml_root_view(content@) is None
                        && at@ == path@,
                    ExtractError::MissingPageNumber => xml_root_view(content@) is Some && (
                    page_no_spec(path@) is None || page_no_spec(path@)->Some_0 > u32::MAX),
                }
            },
    {
        match classify(path) {
            EntryKind::Media => Ok(()),
            EntryKind::Other => Ok(()),
            EntryKind::Slide => match slide(content, path) {
                Ok(p) => {
                    let (n, texts) = p;
                    self.merge_texts(false, n, texts);
                    Ok(())
                },
                Err(e) => Err(e),
            },
            EntryKind::SlideRels => match rels(content, path) {
                Ok(p) => {
                    let (n, mapping) = p;
                    let imgs = values_of(&mapping);
                    self.merge_images(false, n, imgs);
                    Ok(())
                },
                Err(e) => Err(e),
            },
            EntryKind::MasterRels => match rels(content, path) {
                Ok(p) => {
                    let (n, mapping) = p;
                    let imgs = values_of(&mapping);
                    self.merge_images(true, n, imgs);
                    Ok(())
                },
                Err(e) => Err(e),
            },
        }
    }
}

} // verus!
