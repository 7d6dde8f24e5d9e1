//! Relationship resolution: parse a relationship-descriptor XML document,
//! keep the elements whose declared type is the image relationship type, and
//! pair each identifier with the base filename of its target.

use vstd::prelude::*;
use vstd::string::StringExecFns;

use crate::pages::{page_no, page_no_spec};
use crate::strs::{base_name, base_name_spec};
use crate::ExtractError;

verus! {

/// One child node of a relationship document's root, reduced to what the
/// resolver reads: an element's name and attribute pairs, or any other node.
pub enum XmlChild {
    Element { name: String, attrs: Vec<(String, String)> },
    Other,
}

/// The well-known relationship type that marks an image target.
pub open spec fn image_rel_type() -> Seq<char> {
    "http://schemas.openxmlformats.org/officeDocument/2006/relationships/image"@
}

/// The value of the first attribute named `key`.
pub open spec fn attr_lookup(attrs: Seq<(String, String)>, key: Seq<char>) -> Option<Seq<char>>
    decreases attrs.len(),
{
    if attrs.len() == 0 {
        None::<Seq<char>>
    } else if attrs[0].0@ == key {
        Some(attrs[0].1@)
    } else {
        attr_lookup(attrs.drop_first(), key)
    }
}

/// `m` with the pair for `id` set to `v`: an existing pair for `id` is
/// replaced in place, a new one goes to the end.
pub open spec fn upsert(
    m: Seq<(Seq<char>, Seq<char>)>,
    id: Seq<char>,
    v: Seq<char>,
) -> Seq<(Seq<char>, Seq<char>)>
    decreases m.len(),
{
    if m.len() == 0 {
        seq![(id, v)]
    } else if m[0].0 == id {
        seq![(id, v)] + m.drop_first()
    } else {
        seq![m[0]] + upsert(m.drop_first(), id, v)
    }
}

/// One child's contribution to the mapping: an element named "Relationship"
/// whose Type is the image type and which carries Id and a Target with a base
/// filename adds (Id, base filename); every other child adds nothing.
pub open spec fn resolve_step(
    m: Seq<(Seq<char>, Seq<char>)>,
    child: XmlChild,
) -> Seq<(Seq<char>, Seq<char>)> {
    match child {
        XmlChild::Other => m,
        XmlChild::Element { name, attrs } => {
            if name@ == "Relationship"@ && attr_lookup(attrs@, "Type"@) == Some(image_rel_type()) {
                match (attr_lookup(attrs@, "Id"@), attr_lookup(attrs@, "Target"@)) {
                    (Some(id), Some(target)) => match base_name_spec(target) {
                        Some(b) => upsert(m, id, b),
                        None => m,
                    },
                    _ => m,
                }
            } else {
                m
            }
        },
    }
}

/// The identifier-to-filename mapping declared by a relationship document's
/// children, processed in document order.
pub open spec fn resolve_spec(children: Seq<XmlChild>) -> Seq<(Seq<char>, Seq<char>)>
    decreases children.len(),
{
    if children.len() == 0 {
        Seq::<(Seq<char>, Seq<char>)>::empty()
    } else {
        resolve_step(resolve_spec(children.drop_last()), children.last())
    }
}

/// The view of an identifier-to-filename pair list.
pub open spec fn pairs_view(m: Seq<(String, String)>) -> Seq<(Seq<char>, Seq<char>)> {
    m.map_values(|p: (String, String)| (p.0@, p.1@))
}

/// The identifiers of a pair list are pairwise distinct: the list is a mapping.
pub open spec fn distinct_ids(m: Seq<(Seq<char>, Seq<char>)>) -> bool {
    forall|a: int, b: int| 0 <= a < b < m.len() ==> m[a].0 != m[b].0
}

/// An upsert touches no other identifier: positions below `m.len()` keep
/// their identifier; a pair is appended only when `id` was absent.
proof fn lemma_upsert_shape(m: Seq<(Seq<char>, Seq<char>)>, id: Seq<char>, v: Seq<char>)
    ensures
        m.len() <= upsert(m, id, v).len() <= m.len() + 1,
        forall|t: int| 0 <= t < m.len() ==> (#[trigger] upsert(m, id, v)[t]).0 == m[t].0,
        upsert(m, id, v).len() == m.len() + 1 ==> upsert(m, id, v)[m.len() as int] == (id, v),
        upsert(m, id, v).len() == m.len() + 1 ==> forall|t: int|
            0 <= t < m.len() ==> (#[trigger] m[t]).0 != id,
    decreases m.len(),
{
    let r = upsert(m, id, v);
    if m.len() == 0 {
    } else if m[0].0 == id {
        assert(forall|t: int| 1 <= t < r.len() ==> r[t] == m.drop_first()[t - 1] && r[t] == m[t]);
    } else {
        lemma_upsert_shape(m.drop_first(), id, v);
        let rr = upsert(m.drop_first(), id, v);
        assert(forall|t: int| 1 <= t < r.len() ==> r[t] == rr[t - 1]);
        assert(forall|t: int| 0 <= t < m.drop_first().len() ==> m.drop_first()[t] == m[t + 1]);
        if r.len() == m.len() + 1 {
            assert forall|t: int| 0 <= t < m.len() implies (#[trigger] m[t]).0 != id by {
                if t >= 1 {
                    assert(m.drop_first()[t - 1] == m[t]);
                }
            }
        }
    }
}

/// A resolved mapping stays a mapping: its identifiers are pairwise distinct.
pub proof fn lemma_resolve_distinct_ids(children: Seq<XmlChild>)
    ensures
        distinct_ids(resolve_spec(children)),
    decreases children.len(),
{
    if children.len() > 0 {
        lemma_resolve_distinct_ids(children.drop_last());
        let m = resolve_spec(children.drop_last());
        match children.last() {
            XmlChild::Other => {},
            XmlChild::Element { name, attrs } => {
                if name@ == "Relationship"@ && attr_lookup(attrs@, "Type"@) == Some(
                    image_rel_type(),
                ) {
                    match (attr_lookup(attrs@, "Id"@), attr_lookup(attrs@, "Target"@)) {
                        (Some(id), Some(target)) => match base_name_spec(target) {
                            Some(b) => {
                                lemma_upsert_shape(m, id, b);
                            },
                            None => {},
                        },
                        _ => {},
                    }
                }
            },
        }
    }
}

/// The value of the first attribute named `key`, cloned.
fn attr_get(attrs: &Vec<(String, String)>, key: &String) -> (r: Option<String>)
    ensures
        match r {
            Some(val) => attr_lookup(attrs@, key@) == Some(val@),
            None => attr_lookup(attrs@, key@) is None,
        },
{
    let n = attrs.len();
    proof {
        assert(attrs@.skip(0) =~= attrs@);
    }
    let mut i: usize = 0;
    while i < n
        invariant
            n == attrs@.len(),
            i <= n,
            attr_lookup(attrs@, key@) == attr_lookup(attrs@.skip(i as int), key@),
        decreases n - i,
    {
        proof {
            assert(attrs@.skip(i as int)[0] == attrs@[i as int]);
            assert(attrs@.skip(i as int).drop_first() =~= attrs@.skip((i + 1) as int));
        }
        if attrs[i].0 == *key {
            return Some(attrs[i].1.clone());
        }
        i += 1;
    }
    proof {
        assert(attrs@.skip(n as int) =~= Seq::<(String, String)>::empty());
    }
    None
}

/// Set `id`'s pair in `m` to (`id`, `v`): replace the first pair carrying
/// `id`, or append a new one.
fn upsert_exec(m: &mut Vec<(String, String)>, id: String, v: String)
    ensures
        pairs_view(final(m)@) == upsert(pairs_view(old(m)@), id@, v@),
{
    let n = m.len();
    proof {
        assert(m@.skip(0) =~= m@);
        assert(pairs_view(m@.subrange(0, 0)) =~= Seq::<(Seq<char>, Seq<char>)>::empty());
        assert(pairs_view(m@.subrange(0, 0)) + upsert(pairs_view(m@.skip(0)), id@, v@) =~= upsert(
            pairs_view(m@),
            id@,
            v@,
        ));
    }
    let mut i: usize = 0;
    while i < n
        invariant
            n == m@.len(),
            i <= n,
            *m == *old(m),
            forall|t: int| 0 <= t < i ==> m@[t].0@ != id@,
            upsert(pairs_view(m@), id@, v@) == pairs_view(m@.subrange(0, i as int)) + upsert(
                pairs_view(m@.skip(i as int)),
                id@,
                v@,
            ),
        decreases n - i,
    {
        proof {
            assert(pairs_view(m@.skip(i as int))[0] == (m@[i as int].0@, m@[i as int].1@));
            assert(pairs_view(m@.skip(i as int)).drop_first() =~= pairs_view(
                m@.skip((i + 1) as int),
            ));
        }
        if m[i].0 == id {
            let ghost before = m@;
            m[i] = (id, v);
            proof {
                assert(pairs_view(m@) =~= pairs_view(before.subrange(0, i as int)) + (seq![
                    (id@, v@),
                ] + pairs_view(before.skip(i as int)).drop_first()));
            }
            return ;
        }
        proof {
            assert(pairs_view(m@.subrange(0, (i + 1) as int)) =~= pairs_view(
                m@.subrange(0, i as int),
            ) + seq![pairs_view(m@.skip(i as int))[0]]);
            assert(pairs_view(m@.subrange(0, i as int)) + (seq![pairs_view(m@.skip(i as int))[0]]
                + upsert(pairs_view(m@.skip((i + 1) as int)), id@, v@)) =~= pairs_view(
                m@.subrange(0, (i + 1) as int),
            ) + upsert(pairs_view(m@.skip((i + 1) as int)), id@, v@));
        }
        i += 1;
    }
    let ghost before = m@;
    m.push((id, v));
    proof {
        assert(pairs_view(before.skip(n as int)) =~= Seq::<(Seq<char>, Seq<char>)>::empty());
        assert(before.subrange(0, n as int) =~= before);
        assert(pairs_view(m@) =~= pairs_view(before) + seq![(id@, v@)]);
        assert(pairs_view(before) + upsert(Seq::<(Seq<char>, Seq<char>)>::empty(), id@, v@)
            =~= pairs_view(before) + seq![(id@, v@)]);
    }
}

/// The identifier-to-filename mapping declared by parsed children: the image
/// relationships only, in document order.
pub fn resolve_image_rels(children: &Vec<XmlChild>) -> (r: Vec<(String, String)>)
    ensures
        pairs_view(r@) == resolve_spec(children@),
        distinct_ids(pairs_view(r@)),
{
    proof {
        lemma_resolve_distinct_ids(children@);
    }
    let rel_name = String::from_str("Relationship");
    let type_key = String::from_str("Type");
    let id_key = String::from_str("Id");
    let target_key = String::from_str("Target");
    let image_type = String::from_str(
        "http://schemas.openxmlformats.org/officeDocument/2006/relationships/image",
    );
    let n = children.len();
    let mut out: Vec<(String, String)> = Vec::new();
    let mut i: usize = 0;
    while i < n
        invariant
            n == children@.len(),
            i <= n,
            rel_name@ == "Relationship"@,
            type_key@ == "Type"@,
            id_key@ == "Id"@,
            target_key@ == "Target"@,
            image_type@ == image_rel_type(),
            pairs_view(out@) == resolve_spec(children@.subrange(0, i as int)),
        decreases n - i,
    {
        proof {
            assert(children@.subrange(0, (i + 1) as int).drop_last() =~= children@.subrange(
                0,
                i as int,
            ));
            assert(children@.subrange(0, (i + 1) as int).last() == children@[i as int]);
        }
        match &children[i] {
            XmlChild::Other => {},
            XmlChild::Element { name, attrs } => {
                if *name == rel_name {
                    let ty = attr_get(attrs, &type_key);
                    if ty.is_some() && ty.unwrap() == image_type {
                        let id = attr_get(attrs, &id_key);
                        let target = attr_get(attrs, &target_key);
                        if id.is_some() && target.is_some() {
                            let base = base_name(target.unwrap().as_str());
                            if base.is_some() {
                                upsert_exec(&mut out, id.unwrap(), base.unwrap());
                            }
                        }
                    }
                }
            },
        }
        i += 1;
    }
    proof {
        assert(children@.subrange(0, n as int) =~= children@);
    }
    out
}

/// What xmltree's `Element::parse` yields on a document: `None` on malformed
/// input; otherwise, per child of the root element, `None` for a non-element
/// node, or the element's local name and its attribute map. The outcome is a
/// function of the document alone; only the iteration order of one element's
/// attributes is not, so the attributes are named as a map.
pub uninterp spec fn xml_root_view(content: Seq<char>) -> Option<
    Seq<Option<(Seq<char>, Map<Seq<char>, Seq<char>>)>>,
>;

/// The attribute pairs as a map; where a key repeats, the first pair wins,
/// as in `attr_lookup`.
pub open spec fn pairs_to_map(attrs: Seq<(String, String)>) -> Map<Seq<char>, Seq<char>>
    decreases attrs.len(),
{
    if attrs.len() == 0 {
        Map::<Seq<char>, Seq<char>>::empty()
    } else {
        pairs_to_map(attrs.drop_first()).insert(attrs[0].0@, attrs[0].1@)
    }
}

/// Lookup in a named attribute map.
pub open spec fn map_attr(am: Map<Seq<char>, Seq<char>>, k: Seq<char>) -> Option<Seq<char>> {
    if am.contains_key(k) {
        Some(am[k])
    } else {
        None::<Seq<char>>
    }
}

/// A returned child agrees with a named one: same kind, same element name,
/// and attribute pairs whose map is the named map.
pub open spec fn child_agrees(c: XmlChild, n: Option<(Seq<char>, Map<Seq<char>, Seq<char>>)>) -> bool {
    match c {
        XmlChild::Other => n is None,
        XmlChild::Element { name, attrs } => n is Some && n->Some_0.0 == name@ && n->Some_0.1
            == pairs_to_map(attrs@),
    }
}

/// The returned children agree with the named ones, child by child, in order.
pub open spec fn children_agree(
    cs: Seq<XmlChild>,
    ns: Seq<Option<(Seq<char>, Map<Seq<char>, Seq<char>>)>>,
) -> bool {
    cs.len() == ns.len() && forall|t: int| 0 <= t < cs.len() ==> child_agrees(cs[t], ns[t])
}

/// One named child's contribution to the mapping, as `resolve_step` over the
/// attribute map.
pub open spec fn resolve_named_step(
    m: Seq<(Seq<char>, Seq<char>)>,
    child: Option<(Seq<char>, Map<Seq<char>, Seq<char>>)>,
) -> Seq<(Seq<char>, Seq<char>)> {
    match child {
        None => m,
        Some((name, am)) => {
            if name == "Relationship"@ && map_attr(am, "Type"@) == Some(image_rel_type()) {
                match (map_attr(am, "Id"@), map_attr(am, "Target"@)) {
                    (Some(id), Some(target)) => match base_name_spec(target) {
                        Some(b) => upsert(m, id, b),
                        None => m,
                    },
                    _ => m,
                }
            } else {
                m
            }
        },
    }
}

/// The identifier-to-filename mapping declared by the named children of a
/// relationship document, in document order.
pub open spec fn resolve_named(
    children: Seq<Option<(Seq<char>, Map<Seq<char>, Seq<char>>)>>,
) -> Seq<(Seq<char>, Seq<char>)>
    decreases children.len(),
{
    if children.len() == 0 {
        Seq::<(Seq<char>, Seq<char>)>::empty()
    } else {
        resolve_named_step(resolve_named(children.drop_last()), children.last())
    }
}

/// Looking an attribute up among the pairs is looking it up in their map.
proof fn lemma_attr_lookup_map(attrs: Seq<(String, String)>, k: Seq<char>)
    ensures
        attr_lookup(attrs, k) == map_attr(pairs_to_map(attrs), k),
    decreases attrs.len(),
{
    if attrs.len() == 0 {
    } else if attrs[0].0@ == k {
    } else {
        lemma_attr_lookup_map(attrs.drop_first(), k);
    }
}

/// On agreeing children, resolution over the returned pairs and resolution
/// over the named maps give the same mapping.
pub proof fn lemma_resolve_agrees(
    cs: Seq<XmlChild>,
    ns: Seq<Option<(Seq<char>, Map<Seq<char>, Seq<char>>)>>,
)
    requires
        children_agree(cs, ns),
    ensures
        resolve_spec(cs) == resolve_named(ns),
    decreases cs.len(),
{
    if cs.len() > 0 {
        assert(children_agree(cs.drop_last(), ns.drop_last())) by {
            assert(forall|t: int|
                0 <= t < cs.drop_last().len() ==> cs.drop_last()[t] == cs[t] && ns.drop_last()[t]
                    == ns[t]);
        }
        lemma_resolve_agrees(cs.drop_last(), ns.drop_last());
        assert(child_agrees(cs[cs.len() - 1], ns[cs.len() - 1]));
        match cs.last() {
            XmlChild::Other => {},
            XmlChild::Element { name, attrs } => {
                lemma_attr_lookup_map(attrs@, "Type"@);
                lemma_attr_lookup_map(attrs@, "Id"@);
                lemma_attr_lookup_map(attrs@, "Target"@);
            },
        }
    }
}

/// Relies on xmltree's `Element::parse`: it reads a whole XML document and
/// yields its root element, or an error on malformed input. The outcome is a
/// function of the document alone and is named `xml_root_view`; the children
/// handed back agree with that name child by child — a non-element node
/// becomes `Other`, an element its local name and attribute pairs (in the
/// attribute map's iteration order), whose map the name fixes.
#[verifier::external_body]
fn parse_root_children(content: &str) -> (r: Result<Vec<XmlChild>, String>)
    ensures
        r is Ok <==> xml_root_view(content@) is Some,
        r is Ok ==> children_agree(r->Ok_0@, xml_root_view(content@)->Some_0),
{
    let root = match xmltree::Element::parse(content.as_bytes()) {
        Ok(e) => e,
        Err(e) => return Err(e.to_string()),
    };
    Ok(root.children.into_iter().map(|n| match n {
        xmltree::XMLNode::Element(e) => XmlChild::Element {
            name: e.name,
            attrs: e.attributes.into_iter().collect(),
        },
        _ => XmlChild::Other,
    }).collect())
}

/// The page number and image mapping of one relationship document: the
/// document is parsed, its image relationships are resolved in document
/// order, and the page number is read from `path`. It succeeds exactly when
/// the document is well formed and the path bears a page number that fits; a
/// malformed document gives `Parse` carrying `path`, any other failure
/// `MissingPageNumber`.
pub fn rels(content: &str, path: &str) -> (r: Result<(u32, Vec<(String, String)>), ExtractError>)
    ensures
        match r {
            Ok(p) => {
                &&& xml_root_view(content@) is Some
                &&& page_no_spec(path@) == Some(p.0 as int)
                &&& pairs_view(p.1@) == resolve_named(xml_root_view(content@)->Some_0)
                &&& distinct_ids(pairs_view(p.1@))
            },
            Err(e) => match e {
                ExtractError::Parse { path: at, detail } => xml_root_view(content@) is None && at@
                    == path@,
                ExtractError::MissingPageNumber => xml_root_view(content@) is Some && (page_no_spec(
                    path@,
                ) is None || page_no_spec(path@)->Some_0 > u32::MAX),
            },
        },
{
    let children = match parse_root_children(content) {
        Ok(c) => c,
        Err(msg) => return Err(
            ExtractError::Parse { path: path.to_owned(), detail: msg },
        ),
    };
    let mapping = resolve_image_rels(&children);
    proof {
        lemma_resolve_agrees(children@, xml_root_view(content@)->Some_0);
    }
    match page_no(path) {
        Ok(n) => Ok((n, mapping)),
        Err(e) => Err(e),
    }
}

} // verus!
