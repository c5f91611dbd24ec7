//! Reading an EPUB's package out of its archive: the container's rootfile,
//! the package document's metadata, manifest and spine, the table of
//! contents' labels and the cover image. XML documents are parsed by
//! `roxmltree` and walked here as a flat list of nodes in document order.
use vstd::prelude::*;
use crate::epub::{after_last, data_url, normalized, normalize_path, utf8_lossy, text_of_bytes, cover_data_url};
use crate::error::AppError;
use crate::text::{append_str, chars_of, eq_chars, eq_str, string_of, trim, trim_chars, words, split_ws, views, starts_with, has_prefix};

verus! {

broadcast use vstd::string::group_string_axioms;

/// An attribute: its namespace, if any, local name and value.
pub struct XmlAttr {
    pub namespace: Option<String>,
    pub name: String,
    pub value: String,
}

/// A node of a parsed XML document, listed in document order: its id and
/// its parent's, whether it is a text node, its local name and namespace
/// (an empty name for anything but an element), attributes and text
/// (`roxmltree`'s `text()`).
pub struct XmlNode {
    pub id: usize,
    pub parent: Option<usize>,
    pub is_text: bool,
    pub name: String,
    pub namespace: Option<String>,
    pub attrs: Vec<XmlAttr>,
    pub text: Option<String>,
}

pub struct XmlAttrView {
    pub namespace: Option<Seq<char>>,
    pub name: Seq<char>,
    pub value: Seq<char>,
}

pub struct XmlNodeView {
    pub id: usize,
    pub parent: Option<usize>,
    pub is_text: bool,
    pub name: Seq<char>,
    pub namespace: Option<Seq<char>>,
    pub attrs: Seq<XmlAttrView>,
    pub text: Option<Seq<char>>,
}

impl View for XmlAttr {
    type V = XmlAttrView;

    open spec fn view(&self) -> XmlAttrView {
        XmlAttrView { namespace: crate::types::opt_view(self.namespace), name: self.name@, value: self.value@ }
    }
}

impl View for XmlNode {
    type V = XmlNodeView;

    open spec fn view(&self) -> XmlNodeView {
        XmlNodeView {
            id: self.id,
            parent: self.parent,
            is_text: self.is_text,
            name: self.name@,
            namespace: crate::types::opt_view(self.namespace),
            attrs: self.attrs@.map_values(|a: XmlAttr| a@),
            text: crate::types::opt_view(self.text),
        }
    }
}

impl XmlAttr {
    pub fn new(namespace: Option<String>, name: String, value: String) -> (a: Self)
        ensures
            a.namespace == namespace,
            a.name == name,
            a.value == value,
    {
        XmlAttr { namespace, name, value }
    }
}

impl XmlNode {
    pub fn new(
        id: usize,
        parent: Option<usize>,
        is_text: bool,
        name: String,
        namespace: Option<String>,
        attrs: Vec<XmlAttr>,
        text: Option<String>,
    ) -> (n: Self)
        ensures
            n == (XmlNode { id, parent, is_text, name, namespace, attrs, text }),
    {
        XmlNode { id, parent, is_text, name, namespace, attrs, text }
    }
}

pub open spec fn node_views(v: Seq<XmlNode>) -> Seq<XmlNodeView> {
    v.map_values(|n: XmlNode| n@)
}

/// The nodes `roxmltree` parses from a text, in document order, or its
/// error message.
pub uninterp spec fn xml_parse(text: Seq<char>) -> Result<Seq<XmlNodeView>, Seq<char>>;

/// Calls `roxmltree::Document::parse` and lists the document's nodes
/// (`descendants()` of the root) field by field. Claimed: the list (or the
/// error's message) is a function of the text.
#[verifier::external_body]
fn xml_nodes(text: &str) -> (r: Result<Vec<XmlNode>, String>)
    ensures
        match r {
            Ok(v) => xml_parse(text@) == Ok::<_, Seq<char>>(node_views(v@)),
            Err(e) => xml_parse(text@) == Err::<Seq<XmlNodeView>, _>(e@),
        },
{
    roxmltree::Document::parse(text).map(|doc| doc.descendants().map(|n| XmlNode::new(
        n.id().get_usize(),
        n.parent().map(|p| p.id().get_usize()),
        n.is_text(),
        n.tag_name().name().to_string(),
        n.tag_name().namespace().map(str::to_string),
        n.attributes().map(|a| XmlAttr::new(a.namespace().map(str::to_string), a.name().to_string(), a.value().to_string())).collect(),
        n.text().map(str::to_string),
    )).collect()).map_err(|e| e.to_string())
}

/// What an archive holds under an entry name, when the archive opens and
/// the entry reads.
pub uninterp spec fn zip_entry(archive: Seq<u8>, name: Seq<char>) -> Option<Seq<u8>>;

/// Why an archive does not open, if it does not.
pub uninterp spec fn zip_error(archive: Seq<u8>) -> Option<Seq<char>>;

/// Opens the archive with `zip::ZipArchive::new` and reads the entry
/// through `by_name`. Claimed: a function of the bytes and the name.
#[verifier::external_body]
pub(crate) fn read_entry(archive: &[u8], name: &str) -> (r: Option<Vec<u8>>)
    ensures
        match r {
            Some(v) => zip_entry(archive@, name@) == Some(v@),
            None => zip_entry(archive@, name@) is None,
        },
{
    let mut z = zip::ZipArchive::new(std::io::Cursor::new(archive)).ok()?;
    let mut f = z.by_name(name).ok()?;
    let mut buf = Vec::new();
    std::io::Read::read_to_end(&mut f, &mut buf).ok()?;
    Some(buf)
}

/// Opens the archive with `zip::ZipArchive::new`. Claimed: whether it
/// opens, and the error's message, are a function of the bytes.
#[verifier::external_body]
fn open_error(archive: &[u8]) -> (r: Option<String>)
    ensures
        match r {
            Some(e) => zip_error(archive@) == Some(e@),
            None => zip_error(archive@) is None,
        },
{
    zip::ZipArchive::new(std::io::Cursor::new(archive)).err().map(|e| e.to_string())
}

/// The value of an attribute without namespace, the first so named.
pub open spec fn attr_in(attrs: Seq<XmlAttrView>, key: Seq<char>) -> Option<Seq<char>>
    decreases attrs.len(),
{
    if attrs.len() == 0 {
        None
    } else if attrs[0].namespace is None && attrs[0].name == key {
        Some(attrs[0].value)
    } else {
        attr_in(attrs.drop_first(), key)
    }
}

pub open spec fn attr(n: XmlNodeView, key: Seq<char>) -> Option<Seq<char>> {
    attr_in(n.attrs, key)
}

/// `Node::attribute` with a plain name.
pub fn attribute<'a>(n: &'a XmlNode, key: &str) -> (r: Option<&'a String>)
    ensures
        crate::types::opt_view(match r { Some(s) => Some(*s), None => None }) == attr(n@, key@),
{
    let k = chars_of(key);
    let ghost av = n@.attrs;
    let mut i: usize = 0;
    assert(av.skip(0) =~= av);
    while i < n.attrs.len()
        invariant
            i <= n.attrs@.len(),
            av == n@.attrs,
            k@ == key@,
            attr_in(av, key@) == attr_in(av.skip(i as int), key@),
        decreases n.attrs.len() - i,
    {
        let a = &n.attrs[i];
        assert(av.skip(i as int)[0] == a@);
        assert(av.skip(i as int).drop_first() =~= av.skip(i + 1));
        if a.namespace.is_none() && eq_chars(&chars_of(a.name.as_str()), &k) {
            return Some(&a.value);
        }
        i += 1;
    }
    None
}

/// Whether a node is an element of that local name.
pub open spec fn named(n: XmlNodeView, name: Seq<char>) -> bool {
    n.name == name
}

pub fn is_named(n: &XmlNode, name: &str) -> (r: bool)
    ensures
        r == named(n@, name@),
{
    eq_str(&chars_of(n.name.as_str()), name)
}

/// The Dublin Core namespace of package metadata.
pub const DC: &'static str = "http://purl.org/dc/elements/1.1/";

/// The package document's path: the `full-path` of the first `rootfile`
/// that has one.
pub open spec fn rootfile_in(ns: Seq<XmlNodeView>) -> Option<Seq<char>>
    decreases ns.len(),
{
    if ns.len() == 0 {
        None
    } else if named(ns[0], "rootfile"@) && attr(ns[0], "full-path"@) is Some {
        attr(ns[0], "full-path"@)
    } else {
        rootfile_in(ns.drop_first())
    }
}

fn rootfile_of(ns: &Vec<XmlNode>) -> (r: Option<String>)
    ensures
        crate::types::opt_view(r) == rootfile_in(node_views(ns@)),
{
    let ghost nv = node_views(ns@);
    let mut i: usize = 0;
    assert(nv.skip(0) =~= nv);
    while i < ns.len()
        invariant
            i <= ns@.len(),
            nv == node_views(ns@),
            rootfile_in(nv) == rootfile_in(nv.skip(i as int)),
        decreases ns.len() - i,
    {
        assert(nv.skip(i as int)[0] == ns@[i as int]@);
        assert(nv.skip(i as int).drop_first() =~= nv.skip(i + 1));
        if is_named(&ns[i], "rootfile") {
            match attribute(&ns[i], "full-path") {
                Some(p) => {
                    return Some(p.clone());
                },
                None => {},
            }
        }
        i += 1;
    }
    None
}

/// The trimmed text of the first Dublin Core element of that name, or
/// empty.
pub open spec fn dc_text(ns: Seq<XmlNodeView>, name: Seq<char>) -> Seq<char>
    decreases ns.len(),
{
    if ns.len() == 0 {
        seq![]
    } else if ns[0].namespace == Some(DC@) && named(ns[0], name) {
        trim(match ns[0].text {
            Some(t) => t,
            None => seq![],
        })
    } else {
        dc_text(ns.drop_first(), name)
    }
}

fn dc_text_of(ns: &Vec<XmlNode>, name: &str) -> (r: String)
    ensures
        r@ == dc_text(node_views(ns@), name@),
{
    let ghost nv = node_views(ns@);
    let dc = chars_of(DC);
    let mut i: usize = 0;
    assert(nv.skip(0) =~= nv);
    while i < ns.len()
        invariant
            i <= ns@.len(),
            nv == node_views(ns@),
            dc@ == DC@,
            dc_text(nv, name@) == dc_text(nv.skip(i as int), name@),
        decreases ns.len() - i,
    {
        assert(nv.skip(i as int)[0] == ns@[i as int]@);
        assert(nv.skip(i as int).drop_first() =~= nv.skip(i + 1));
        let n = &ns[i];
        let in_dc = match &n.namespace {
            Some(u) => eq_chars(&chars_of(u.as_str()), &dc),
            None => false,
        };
        if in_dc && is_named(n, name) {
            let t = match &n.text {
                Some(t) => chars_of(t.as_str()),
                None => Vec::new(),
            };
            return string_of(&trim_chars(&t));
        }
        i += 1;
    }
    String::new()
}

/// A manifest entry.
pub struct ManifestItem {
    pub id: String,
    pub href: String,
    pub media_type: String,
    pub properties: String,
}

pub struct ManifestView {
    pub id: Seq<char>,
    pub href: Seq<char>,
    pub media_type: Seq<char>,
    pub properties: Seq<char>,
}

impl View for ManifestItem {
    type V = ManifestView;

    open spec fn view(&self) -> ManifestView {
        ManifestView { id: self.id@, href: self.href@, media_type: self.media_type@, properties: self.properties@ }
    }
}

pub open spec fn manifest_views(m: Seq<ManifestItem>) -> Seq<ManifestView> {
    m.map_values(|i: ManifestItem| i@)
}

/// The entry an `item` element makes, when it has an id and an href.
pub open spec fn item_of(n: XmlNodeView) -> Option<ManifestView> {
    if named(n, "item"@) && attr(n, "id"@) is Some && attr(n, "href"@) is Some {
        Some(ManifestView {
            id: attr(n, "id"@)->0,
            href: attr(n, "href"@)->0,
            media_type: match attr(n, "media-type"@) {
                Some(t) => t,
                None => seq![],
            },
            properties: match attr(n, "properties"@) {
                Some(t) => t,
                None => seq![],
            },
        })
    } else {
        None
    }
}

/// Index of the entry with an id (the last such).
pub open spec fn manifest_index(m: Seq<ManifestView>, id: Seq<char>) -> Option<int>
    decreases m.len(),
{
    if m.len() == 0 {
        None
    } else if m.last().id == id {
        Some(m.len() - 1)
    } else {
        manifest_index(m.drop_last(), id)
    }
}

pub open spec fn manifest_get(m: Seq<ManifestView>, id: Seq<char>) -> Option<ManifestView> {
    match manifest_index(m, id) {
        Some(i) => Some(m[i]),
        None => None,
    }
}

/// An id's entry replaced by a later one with the same id.
pub open spec fn upsert(m: Seq<ManifestView>, it: ManifestView) -> Seq<ManifestView> {
    match manifest_index(m, it.id) {
        Some(i) => m.update(i, it),
        None => m.push(it),
    }
}

/// The manifest: the package's `item`s by id, a later duplicate id
/// replacing an earlier entry.
pub open spec fn manifest_of(ns: Seq<XmlNodeView>) -> Seq<ManifestView>
    decreases ns.len(),
{
    if ns.len() == 0 {
        seq![]
    } else {
        let m = manifest_of(ns.drop_last());
        match item_of(ns.last()) {
            Some(it) => upsert(m, it),
            None => m,
        }
    }
}

proof fn lemma_manifest_index(m: Seq<ManifestView>, id: Seq<char>)
    ensures
        manifest_index(m, id) matches Some(i) ==> 0 <= i < m.len() && m[i].id == id,
    decreases m.len(),
{
    if m.len() > 0 && m.last().id != id {
        lemma_manifest_index(m.drop_last(), id);
    }
}

fn find_item(m: &Vec<ManifestItem>, id: &str) -> (r: Option<usize>)
    ensures
        r matches Some(i) ==> manifest_index(manifest_views(m@), id@) == Some(i as int) && i < m@.len(),
        r is None ==> manifest_index(manifest_views(m@), id@) is None,
{
    let k = chars_of(id);
    let ghost mv = manifest_views(m@);
    let mut i = m.len();
    assert(mv.take(i as int) =~= mv);
    while i > 0
        invariant
            i <= m@.len(),
            k@ == id@,
            mv == manifest_views(m@),
            manifest_index(mv, id@) == manifest_index(mv.take(i as int), id@),
        decreases i,
    {
        if eq_chars(&chars_of(m[i - 1].id.as_str()), &k) {
            return Some(i - 1);
        }
        assert(mv.take(i as int).drop_last() =~= mv.take(i - 1));
        i -= 1;
    }
    None
}

fn copy_item(it: &ManifestItem) -> (r: ManifestItem)
    ensures
        r@ == it@,
{
    ManifestItem { id: it.id.clone(), href: it.href.clone(), media_type: it.media_type.clone(), properties: it.properties.clone() }
}

fn manifest_get_of(m: &Vec<ManifestItem>, id: &str) -> (r: Option<ManifestItem>)
    ensures
        match r {
            Some(it) => manifest_get(manifest_views(m@), id@) == Some(it@),
            None => manifest_get(manifest_views(m@), id@) is None,
        },
{
    match find_item(m, id) {
        Some(i) => Some(copy_item(&m[i])),
        None => None,
    }
}

fn attr_or_empty(n: &XmlNode, key: &str) -> (r: String)
    ensures
        r@ == match attr(n@, key@) {
            Some(t) => t,
            None => seq![],
        },
{
    match attribute(n, key) {
        Some(v) => v.clone(),
        None => String::new(),
    }
}

fn manifest_from(ns: &Vec<XmlNode>) -> (r: Vec<ManifestItem>)
    ensures
        manifest_views(r@) == manifest_of(node_views(ns@)),
{
    let ghost nv = node_views(ns@);
    let mut m: Vec<ManifestItem> = Vec::new();
    let mut i: usize = 0;
    assert(manifest_views(m@) =~= manifest_of(nv.take(0)));
    while i < ns.len()
        invariant
            i <= ns@.len(),
            nv == node_views(ns@),
            manifest_views(m@) == manifest_of(nv.take(i as int)),
        decreases ns.len() - i,
    {
        assert(nv.take(i + 1).drop_last() =~= nv.take(i as int));
        assert(nv.take(i + 1).last() == ns@[i as int]@);
        let n = &ns[i];
        if is_named(n, "item") {
            match (attribute(n, "id"), attribute(n, "href")) {
                (Some(id), Some(href)) => {
                    let it = ManifestItem {
                        id: id.clone(),
                        href: href.clone(),
                        media_type: attr_or_empty(n, "media-type"),
                        properties: attr_or_empty(n, "properties"),
                    };
                    assert(item_of(n@) == Some(it@));
                    let ghost m0 = manifest_views(m@);
                    proof { lemma_manifest_index(m0, it@.id); }
                    match find_item(&m, id.as_str()) {
                        Some(k) => {
                            m.set(k, it);
                            assert(manifest_views(m@) =~= upsert(m0, item_of(n@)->0));
                        },
                        None => {
                            m.push(it);
                            assert(manifest_views(m@) =~= upsert(m0, item_of(n@)->0));
                        },
                    }
                },
                _ => {},
            }
        }
        i += 1;
    }
    assert(nv.take(i as int) =~= nv);
    m
}

/// The spine: each `itemref` whose idref names a manifest entry, as the
/// entry's resolved path, in reading order.
pub open spec fn spine_of(ns: Seq<XmlNodeView>, m: Seq<ManifestView>, dir: Seq<char>) -> Seq<Seq<char>>
    decreases ns.len(),
{
    if ns.len() == 0 {
        seq![]
    } else {
        let s = spine_of(ns.drop_last(), m, dir);
        let n = ns.last();
        if named(n, "itemref"@) {
            match attr(n, "idref"@) {
                Some(r) => match manifest_get(m, r) {
                    Some(it) => s.push(normalized(dir, it.href)),
                    None => s,
                },
                None => s,
            }
        } else {
            s
        }
    }
}

fn spine_from(ns: &Vec<XmlNode>, m: &Vec<ManifestItem>, dir: &str) -> (r: Vec<String>)
    ensures
        crate::job::views_of(r@) == spine_of(node_views(ns@), manifest_views(m@), dir@),
{
    let ghost nv = node_views(ns@);
    let mut out: Vec<String> = Vec::new();
    let mut i: usize = 0;
    assert(crate::job::views_of(out@) =~= spine_of(nv.take(0), manifest_views(m@), dir@));
    while i < ns.len()
        invariant
            i <= ns@.len(),
            nv == node_views(ns@),
            crate::job::views_of(out@) == spine_of(nv.take(i as int), manifest_views(m@), dir@),
        decreases ns.len() - i,
    {
        assert(nv.take(i + 1).drop_last() =~= nv.take(i as int));
        assert(nv.take(i + 1).last() == ns@[i as int]@);
        let n = &ns[i];
        if is_named(n, "itemref") {
            match attribute(n, "idref") {
                Some(r) => match manifest_get_of(m, r.as_str()) {
                    Some(it) => {
                        let p = normalize_path(dir, it.href.as_str());
                        let ghost o0 = crate::job::views_of(out@);
                        out.push(p);
                        assert(crate::job::views_of(out@) =~= o0.push(normalized(dir@, it@.href)));
                    },
                    None => {},
                },
                None => {},
            }
        }
        i += 1;
    }
    assert(nv.take(i as int) =~= nv);
    out
}

/// The label recorded for a path (the first one recorded).
pub open spec fn title_for(ts: Seq<(Seq<char>, Seq<char>)>, path: Seq<char>) -> Option<Seq<char>>
    decreases ts.len(),
{
    if ts.len() == 0 {
        None
    } else if ts[0].0 == path {
        Some(ts[0].1)
    } else {
        title_for(ts.drop_first(), path)
    }
}

/// A label recorded unless the path has one already.
pub open spec fn add_title(ts: Seq<(Seq<char>, Seq<char>)>, path: Seq<char>, label: Seq<char>) -> Seq<(Seq<char>, Seq<char>)> {
    if title_for(ts, path) is Some {
        ts
    } else {
        ts.push((path, label))
    }
}

pub open spec fn pair_views(v: Seq<(String, String)>) -> Seq<(Seq<char>, Seq<char>)> {
    v.map_values(|p: (String, String)| (p.0@, p.1@))
}

/// The label recorded for a path.
pub fn title_of(ts: &Vec<(String, String)>, path: &str) -> (r: Option<String>)
    ensures
        crate::types::opt_view(r) == title_for(pair_views(ts@), path@),
{
    let ghost tv = pair_views(ts@);
    let p = chars_of(path);
    let mut i: usize = 0;
    assert(tv.skip(0) =~= tv);
    while i < ts.len()
        invariant
            i <= ts@.len(),
            tv == pair_views(ts@),
            p@ == path@,
            title_for(tv, path@) == title_for(tv.skip(i as int), path@),
        decreases ts.len() - i,
    {
        assert(tv.skip(i as int)[0] == (ts@[i as int].0@, ts@[i as int].1@));
        assert(tv.skip(i as int).drop_first() =~= tv.skip(i + 1));
        if eq_chars(&chars_of(ts[i].0.as_str()), &p) {
            return Some(ts[i].1.clone());
        }
        i += 1;
    }
    None
}

fn record_title(ts: &mut Vec<(String, String)>, path: String, label: String)
    ensures
        pair_views(final(ts)@) == add_title(pair_views(old(ts)@), path@, label@),
{
    if title_of(ts, path.as_str()).is_none() {
        let ghost t0 = pair_views(ts@);
        ts.push((path, label));
        assert(pair_views(ts@) =~= t0.push((path@, label@)));
    }
}

/// Node `k` has its parent among the nodes in `[lo, hi)`.
pub open spec fn parent_among(ns: Seq<XmlNodeView>, k: int, lo: int, hi: int) -> bool {
    exists|m: int| lo <= m < hi && ns[k].parent == Some(#[trigger] ns[m].id)
}

/// From `j` on, the run of nodes whose parent comes earlier in the run
/// or is node `i`: where that run ends.
pub open spec fn run_end(ns: Seq<XmlNodeView>, i: int, j: int) -> int
    decreases ns.len() - j,
{
    if j < ns.len() && parent_among(ns, j, i, j) {
        run_end(ns, i, j + 1)
    } else {
        j
    }
}

/// The end of a node's subtree in the list: node `i` and the nodes after
/// it that descend from it through their parent links.
pub open spec fn subtree_end(ns: Seq<XmlNodeView>, i: int) -> int {
    run_end(ns, i, i + 1)
}

/// Whether node `k`'s parent is among the nodes in `[lo, k)`, looked for
/// from `k` back.
fn parent_before(ns: &Vec<XmlNode>, k: usize, lo: usize) -> (r: bool)
    requires
        lo <= k < ns@.len(),
    ensures
        r == parent_among(node_views(ns@), k as int, lo as int, k as int),
{
    let ghost nv = node_views(ns@);
    let p = match ns[k].parent {
        Some(p) => p,
        None => {
            return false;
        },
    };
    let mut m = k;
    while m > lo
        invariant
            lo <= m <= k < ns@.len(),
            nv == node_views(ns@),
            nv[k as int].parent == Some(p),
            forall|x: int| m <= x < k ==> nv[x].id != p,
        decreases m,
    {
        m -= 1;
        if ns[m].id == p {
            assert(nv[m as int].id == p);
            return true;
        }
    }
    false
}

fn subtree_end_of(ns: &Vec<XmlNode>, i: usize) -> (r: usize)
    requires
        i < ns@.len(),
    ensures
        r == subtree_end(node_views(ns@), i as int),
        i < r <= ns@.len(),
{
    let ghost nv = node_views(ns@);
    let n = ns.len();
    let mut j = i + 1;
    while j < n && parent_before(ns, j, i)
        invariant
            i < j <= n,
            n == ns@.len(),
            nv == node_views(ns@),
            run_end(nv, i as int, j as int) == subtree_end(nv, i as int),
        decreases n - j,
    {
        j += 1;
    }
    j
}

/// The text of the text nodes in `[lo, hi)`, concatenated.
pub open spec fn texts_in(ns: Seq<XmlNodeView>, lo: int, hi: int) -> Seq<char>
    decreases hi - lo,
{
    if hi <= lo {
        seq![]
    } else {
        texts_in(ns, lo, hi - 1) + if ns[hi - 1].is_text {
            match ns[hi - 1].text {
                Some(t) => t,
                None => seq![],
            }
        } else {
            seq![]
        }
    }
}

fn texts_of(ns: &Vec<XmlNode>, lo: usize, hi: usize) -> (r: Vec<char>)
    requires
        lo <= hi <= ns@.len(),
    ensures
        r@ == texts_in(node_views(ns@), lo as int, hi as int),
{
    let mut out: Vec<char> = Vec::new();
    let mut j = lo;
    while j < hi
        invariant
            lo <= j <= hi <= ns@.len(),
            out@ == texts_in(node_views(ns@), lo as int, j as int),
        decreases hi - j,
    {
        if ns[j].is_text {
            match &ns[j].text {
                Some(t) => append_str(&mut out, t.as_str()),
                None => {},
            }
        }
        j += 1;
    }
    out
}

/// Labels of an EPUB 3 navigation document: each `a` with an href, its
/// trimmed text (the text nodes below it) when not empty, in document
/// order, on top of `ts`.
pub open spec fn nav_titles(ns: Seq<XmlNodeView>, dir: Seq<char>, ts: Seq<(Seq<char>, Seq<char>)>, k: int) -> Seq<(Seq<char>, Seq<char>)>
    decreases k,
{
    if k <= 0 {
        ts
    } else {
        let prev = nav_titles(ns, dir, ts, k - 1);
        let i = k - 1;
        if named(ns[i], "a"@) && attr(ns[i], "href"@) is Some {
            let label = trim(texts_in(ns, i, subtree_end(ns, i)));
            if label.len() > 0 {
                add_title(prev, normalized(dir, attr(ns[i], "href"@)->0), label)
            } else {
                prev
            }
        } else {
            prev
        }
    }
}

fn add_nav_titles(ts: &mut Vec<(String, String)>, ns: &Vec<XmlNode>, dir: &str)
    ensures
        pair_views(final(ts)@) == nav_titles(node_views(ns@), dir@, pair_views(old(ts)@), ns@.len() as int),
{
    let ghost nv = node_views(ns@);
    let ghost t0 = pair_views(ts@);
    let mut i: usize = 0;
    while i < ns.len()
        invariant
            i <= ns@.len(),
            nv == node_views(ns@),
            pair_views(ts@) == nav_titles(nv, dir@, t0, i as int),
        decreases ns.len() - i,
    {
        let n = &ns[i];
        if is_named(n, "a") {
            match attribute(n, "href") {
                Some(h) => {
                    let end = subtree_end_of(ns, i);
                    let label = trim_chars(&texts_of(ns, i, end));
                    if label.len() > 0 {
                        let p = normalize_path(dir, h.as_str());
                        record_title(ts, p, string_of(&label));
                    }
                },
                None => {},
            }
        }
        i += 1;
    }
}

/// First node in `[j, hi)` that is a child of the node `pid` and has
/// that name.
pub open spec fn child_named(ns: Seq<XmlNodeView>, j: int, hi: int, pid: usize, name: Seq<char>) -> Option<int>
    decreases hi - j,
{
    if j >= hi || j < 0 {
        None
    } else if ns[j].parent == Some(pid) && named(ns[j], name) {
        Some(j)
    } else {
        child_named(ns, j + 1, hi, pid, name)
    }
}

/// First node in `[j, hi)` with that name.
pub open spec fn node_named(ns: Seq<XmlNodeView>, j: int, hi: int, name: Seq<char>) -> Option<int>
    decreases hi - j,
{
    if j >= hi || j < 0 {
        None
    } else if named(ns[j], name) {
        Some(j)
    } else {
        node_named(ns, j + 1, hi, name)
    }
}

fn child_named_of(ns: &Vec<XmlNode>, from: usize, hi: usize, pid: usize, name: &str) -> (r: Option<usize>)
    requires
        from <= hi <= ns@.len(),
    ensures
        r matches Some(j) ==> child_named(node_views(ns@), from as int, hi as int, pid, name@) == Some(j as int) && from <= j < hi,
        r is None ==> child_named(node_views(ns@), from as int, hi as int, pid, name@) is None,
{
    let mut j = from;
    while j < hi
        invariant
            from <= j <= hi <= ns@.len(),
            child_named(node_views(ns@), from as int, hi as int, pid, name@) == child_named(node_views(ns@), j as int, hi as int, pid, name@),
        decreases hi - j,
    {
        if ns[j].parent == Some(pid) && is_named(&ns[j], name) {
            return Some(j);
        }
        j += 1;
    }
    None
}

fn node_named_of(ns: &Vec<XmlNode>, from: usize, hi: usize, name: &str) -> (r: Option<usize>)
    requires
        from <= hi <= ns@.len(),
    ensures
        r matches Some(j) ==> node_named(node_views(ns@), from as int, hi as int, name@) == Some(j as int) && from <= j < hi,
        r is None ==> node_named(node_views(ns@), from as int, hi as int, name@) is None,
{
    let mut j = from;
    while j < hi
        invariant
            from <= j <= hi <= ns@.len(),
            node_named(node_views(ns@), from as int, hi as int, name@) == node_named(node_views(ns@), j as int, hi as int, name@),
        decreases hi - j,
    {
        if is_named(&ns[j], name) {
            return Some(j);
        }
        j += 1;
    }
    None
}

/// The label of an NCX `navPoint`: the trimmed text of its first `text`.
pub open spec fn ncx_label(ns: Seq<XmlNodeView>, i: int) -> Seq<char> {
    trim(match node_named(ns, i, subtree_end(ns, i), "text"@) {
        Some(t) => match ns[t].text {
            Some(x) => x,
            None => seq![],
        },
        None => seq![],
    })
}

/// The target of an NCX `navPoint`: the `src` of its first `content` child.
pub open spec fn ncx_src(ns: Seq<XmlNodeView>, i: int) -> Option<Seq<char>> {
    match child_named(ns, i + 1, subtree_end(ns, i), ns[i].id, "content"@) {
        Some(c) => attr(ns[c], "src"@),
        None => None,
    }
}

/// Labels of an EPUB 2 NCX: each `navPoint` with a target and a non-empty
/// label, in document order, on top of `ts`.
pub open spec fn ncx_titles(ns: Seq<XmlNodeView>, dir: Seq<char>, ts: Seq<(Seq<char>, Seq<char>)>, k: int) -> Seq<(Seq<char>, Seq<char>)>
    decreases k,
{
    if k <= 0 {
        ts
    } else {
        let prev = ncx_titles(ns, dir, ts, k - 1);
        let i = k - 1;
        if named(ns[i], "navPoint"@) && ncx_src(ns, i) is Some && ncx_label(ns, i).len() > 0 {
            add_title(prev, normalized(dir, ncx_src(ns, i)->0), ncx_label(ns, i))
        } else {
            prev
        }
    }
}

fn add_ncx_titles(ts: &mut Vec<(String, String)>, ns: &Vec<XmlNode>, dir: &str)
    ensures
        pair_views(final(ts)@) == ncx_titles(node_views(ns@), dir@, pair_views(old(ts)@), ns@.len() as int),
{
    let ghost nv = node_views(ns@);
    let ghost t0 = pair_views(ts@);
    let mut i: usize = 0;
    while i < ns.len()
        invariant
            i <= ns@.len(),
            nv == node_views(ns@),
            pair_views(ts@) == ncx_titles(nv, dir@, t0, i as int),
        decreases ns.len() - i,
    {
        let n = &ns[i];
        if is_named(n, "navPoint") {
            let end = subtree_end_of(ns, i);
            let content = if i < end {
                child_named_of(ns, i + 1, end, n.id, "content")
            } else {
                None
            };
            let src = match content {
                Some(c) => attribute(&ns[c], "src"),
                None => None,
            };
            match src {
                Some(s) => {
                    let t = match node_named_of(ns, i, end, "text") {
                        Some(t) => match &ns[t].text {
                            Some(x) => chars_of(x.as_str()),
                            None => Vec::new(),
                        },
                        None => Vec::new(),
                    };
                    let label = trim_chars(&t);
                    assert(label@ == ncx_label(nv, i as int));
                    if label.len() > 0 {
                        let p = normalize_path(dir, s.as_str());
                        record_title(ts, p, string_of(&label));
                    }
                },
                None => {},
            }
        }
        i += 1;
    }
}

/// A property list names the property.
pub open spec fn has_property(props: Seq<char>, p: Seq<char>) -> bool {
    words(props).contains(p)
}

fn has_property_of(props: &String, p: &str) -> (r: bool)
    ensures
        r == has_property(props@, p@),
{
    let ws = split_ws(&chars_of(props.as_str()));
    let ghost wv = views(ws@);
    let mut i: usize = 0;
    while i < ws.len()
        invariant
            i <= ws@.len(),
            wv == views(ws@),
            wv == words(props@),
            forall|j: int| 0 <= j < i ==> #[trigger] wv[j] != p@,
        decreases ws.len() - i,
    {
        if eq_str(&ws[i], p) {
            assert(wv[i as int] == p@);
            return true;
        }
        i += 1;
    }
    false
}

/// The navigation document: the first manifest entry with the `nav`
/// property.
pub open spec fn nav_entry(m: Seq<ManifestView>) -> Option<ManifestView>
    decreases m.len(),
{
    if m.len() == 0 {
        None
    } else if has_property(m[0].properties, "nav"@) {
        Some(m[0])
    } else {
        nav_entry(m.drop_first())
    }
}

/// The cover image by property: the first entry with `cover-image` whose
/// media type is an image's.
pub open spec fn cover_entry(m: Seq<ManifestView>) -> Option<ManifestView>
    decreases m.len(),
{
    if m.len() == 0 {
        None
    } else if has_property(m[0].properties, "cover-image"@) && starts_with(m[0].media_type, "image/"@) {
        Some(m[0])
    } else {
        cover_entry(m.drop_first())
    }
}

fn nav_entry_of(m: &Vec<ManifestItem>) -> (r: Option<ManifestItem>)
    ensures
        match r {
            Some(it) => nav_entry(manifest_views(m@)) == Some(it@),
            None => nav_entry(manifest_views(m@)) is None,
        },
{
    let ghost mv = manifest_views(m@);
    let mut i: usize = 0;
    assert(mv.skip(0) =~= mv);
    while i < m.len()
        invariant
            i <= m@.len(),
            mv == manifest_views(m@),
            nav_entry(mv) == nav_entry(mv.skip(i as int)),
        decreases m.len() - i,
    {
        assert(mv.skip(i as int)[0] == m@[i as int]@);
        assert(mv.skip(i as int).drop_first() =~= mv.skip(i + 1));
        if has_property_of(&m[i].properties, "nav") {
            return Some(copy_item(&m[i]));
        }
        i += 1;
    }
    None
}

fn cover_entry_of(m: &Vec<ManifestItem>) -> (r: Option<ManifestItem>)
    ensures
        match r {
            Some(it) => cover_entry(manifest_views(m@)) == Some(it@),
            None => cover_entry(manifest_views(m@)) is None,
        },
{
    let ghost mv = manifest_views(m@);
    let image = chars_of("image/");
    let mut i: usize = 0;
    assert(mv.skip(0) =~= mv);
    while i < m.len()
        invariant
            i <= m@.len(),
            mv == manifest_views(m@),
            image@ == "image/"@,
            cover_entry(mv) == cover_entry(mv.skip(i as int)),
        decreases m.len() - i,
    {
        assert(mv.skip(i as int)[0] == m@[i as int]@);
        assert(mv.skip(i as int).drop_first() =~= mv.skip(i + 1));
        if has_property_of(&m[i].properties, "cover-image") && has_prefix(&chars_of(m[i].media_type.as_str()), &image) {
            return Some(copy_item(&m[i]));
        }
        i += 1;
    }
    None
}

/// The manifest id the first `spine` element names as its NCX, if any.
pub open spec fn toc_id(ns: Seq<XmlNodeView>) -> Option<Seq<char>>
    decreases ns.len(),
{
    if ns.len() == 0 {
        None
    } else if named(ns[0], "spine"@) {
        attr(ns[0], "toc"@)
    } else {
        toc_id(ns.drop_first())
    }
}

/// The manifest id the first `<meta name="cover">` names, if any.
pub open spec fn cover_id(ns: Seq<XmlNodeView>) -> Option<Seq<char>>
    decreases ns.len(),
{
    if ns.len() == 0 {
        None
    } else if named(ns[0], "meta"@) && attr(ns[0], "name"@) == Some("cover"@) {
        attr(ns[0], "content"@)
    } else {
        cover_id(ns.drop_first())
    }
}

fn toc_id_of(ns: &Vec<XmlNode>) -> (r: Option<String>)
    ensures
        crate::types::opt_view(r) == toc_id(node_views(ns@)),
{
    let ghost nv = node_views(ns@);
    let mut i: usize = 0;
    assert(nv.skip(0) =~= nv);
    while i < ns.len()
        invariant
            i <= ns@.len(),
            nv == node_views(ns@),
            toc_id(nv) == toc_id(nv.skip(i as int)),
        decreases ns.len() - i,
    {
        assert(nv.skip(i as int)[0] == ns@[i as int]@);
        assert(nv.skip(i as int).drop_first() =~= nv.skip(i + 1));
        if is_named(&ns[i], "spine") {
            return match attribute(&ns[i], "toc") {
                Some(v) => Some(v.clone()),
                None => None,
            };
        }
        i += 1;
    }
    None
}

fn cover_id_of(ns: &Vec<XmlNode>) -> (r: Option<String>)
    ensures
        crate::types::opt_view(r) == cover_id(node_views(ns@)),
{
    let ghost nv = node_views(ns@);
    let mut i: usize = 0;
    assert(nv.skip(0) =~= nv);
    while i < ns.len()
        invariant
            i <= ns@.len(),
            nv == node_views(ns@),
            cover_id(nv) == cover_id(nv.skip(i as int)),
        decreases ns.len() - i,
    {
        assert(nv.skip(i as int)[0] == ns@[i as int]@);
        assert(nv.skip(i as int).drop_first() =~= nv.skip(i + 1));
        let n = &ns[i];
        let is_cover = match attribute(n, "name") {
            Some(v) => eq_str(&chars_of(v.as_str()), "cover"),
            None => false,
        };
        if is_named(n, "meta") && is_cover {
            return match attribute(n, "content") {
                Some(v) => Some(v.clone()),
                None => None,
            };
        }
        i += 1;
    }
    None
}

/// What the package gives the book: metadata, reading order, labels and
/// the cover as a data URL.
pub struct EpubPackage {
    pub title: String,
    pub author: String,
    /// Entry paths of the spine documents, in reading order.
    pub spine: Vec<String>,
    /// (entry path, label) from the table of contents.
    pub titles: Vec<(String, String)>,
    pub cover_data_url: Option<String>,
}

/// The labels a table-of-contents document adds, if it can be read.
pub open spec fn toc_labels(
    archive: Seq<u8>,
    path: Option<Seq<char>>,
    dir: Seq<char>,
    ts: Seq<(Seq<char>, Seq<char>)>,
    ncx: bool,
) -> Seq<(Seq<char>, Seq<char>)> {
    match path {
        Some(p) => match zip_entry(archive, p) {
            Some(raw) => match xml_parse(utf8_lossy(raw)) {
                Ok(nd) => if ncx {
                    ncx_titles(nd, dir, ts, nd.len() as int)
                } else {
                    nav_titles(nd, dir, ts, nd.len() as int)
                },
                Err(_) => ts,
            },
            None => ts,
        },
        None => ts,
    }
}

/// Path of the cover image: the entry `<meta name="cover">` names, else
/// the first image with the `cover-image` property.
pub open spec fn cover_path(ns: Seq<XmlNodeView>, m: Seq<ManifestView>, dir: Seq<char>) -> Option<Seq<char>> {
    match (match cover_id(ns) {
        Some(id) => manifest_get(m, id),
        None => None,
    }) {
        Some(it) => Some(normalized(dir, it.href)),
        None => match cover_entry(m) {
            Some(it) => Some(normalized(dir, it.href)),
            None => None,
        },
    }
}

pub open spec fn cover_url(archive: Seq<u8>, path: Option<Seq<char>>) -> Option<Seq<char>> {
    match path {
        Some(p) => match zip_entry(archive, p) {
            Some(img) => Some(data_url(p, img)),
            None => None,
        },
        None => None,
    }
}

fn toc_labels_of(archive: &[u8], path: Option<String>, dir: &str, ts: &mut Vec<(String, String)>, ncx: bool)
    ensures
        pair_views(final(ts)@) == toc_labels(archive@, crate::types::opt_view(path), dir@, pair_views(old(ts)@), ncx),
{
    let p = match path {
        Some(p) => p,
        None => {
            return;
        },
    };
    let raw = match read_entry(archive, p.as_str()) {
        Some(r) => r,
        None => {
            return;
        },
    };
    let text = text_of_bytes(raw.as_slice());
    match xml_nodes(text.as_str()) {
        Ok(nd) => {
            if ncx {
                add_ncx_titles(ts, &nd, dir);
            } else {
                add_nav_titles(ts, &nd, dir);
            }
        },
        Err(_) => {},
    }
}

pub struct PackageView {
    pub title: Seq<char>,
    pub author: Seq<char>,
    pub spine: Seq<Seq<char>>,
    pub titles: Seq<(Seq<char>, Seq<char>)>,
    pub cover_data_url: Option<Seq<char>>,
}

impl View for EpubPackage {
    type V = PackageView;

    open spec fn view(&self) -> PackageView {
        PackageView {
            title: self.title@,
            author: self.author@,
            spine: crate::job::views_of(self.spine@),
            titles: pair_views(self.titles@),
            cover_data_url: crate::types::opt_view(self.cover_data_url),
        }
    }
}

/// An entry's resolved path, when there is an entry.
pub open spec fn entry_path(it: Option<ManifestView>, dir: Seq<char>) -> Option<Seq<char>> {
    match it {
        Some(i) => Some(normalized(dir, i.href)),
        None => None,
    }
}

/// What a package document says, its archive at hand: refused when the
/// spine names no document; labels from the navigation document first,
/// then from the NCX.
pub open spec fn package_from(archive: Seq<u8>, opf_path: Seq<char>, ns: Seq<XmlNodeView>) -> Result<PackageView, Seq<char>> {
    let dir = crate::epub::dir_part(opf_path);
    let m = manifest_of(ns);
    let spine = spine_of(ns, m, dir);
    if spine.len() == 0 {
        Err("EPUB spine is empty"@)
    } else {
        let t0 = toc_labels(archive, entry_path(nav_entry(m), dir), dir, seq![], false);
        let ncx = match toc_id(ns) {
            Some(id) => entry_path(manifest_get(m, id), dir),
            None => None,
        };
        Ok(PackageView {
            title: dc_text(ns, "title"@),
            author: dc_text(ns, "creator"@),
            spine,
            titles: toc_labels(archive, ncx, dir, t0, true),
            cover_data_url: cover_url(archive, cover_path(ns, m, dir)),
        })
    }
}

/// What an EPUB archive's package says, or why it cannot be read.
pub open spec fn package_of(archive: Seq<u8>) -> Result<PackageView, Seq<char>> {
    match zip_error(archive) {
        Some(e) => Err(e),
        None => match zip_entry(archive, "META-INF/container.xml"@) {
            None => Err("not an EPUB: missing META-INF/container.xml"@),
            Some(c) => match xml_parse(utf8_lossy(c)) {
                Err(e) => Err(e),
                Ok(cn) => match rootfile_in(cn) {
                    None => Err("container.xml has no rootfile"@),
                    Some(opf) => match zip_entry(archive, opf) {
                        None => Err("OPF not found in archive: "@ + opf),
                        Some(o) => match xml_parse(utf8_lossy(o)) {
                            Err(e) => Err(e),
                            Ok(ns) => package_from(archive, opf, ns),
                        },
                    },
                },
            },
        },
    }
}

fn entry_path_of(it: Option<ManifestItem>, dir: &str) -> (r: Option<String>)
    ensures
        crate::types::opt_view(r) == entry_path(match it { Some(i) => Some(i@), None => None }, dir@),
{
    match it {
        Some(i) => Some(normalize_path(dir, i.href.as_str())),
        None => None,
    }
}

/// Reads the package of an EPUB archive: metadata, spine, table of
/// contents labels and cover.
pub fn read_package(archive: &[u8]) -> (r: Result<EpubPackage, AppError>)
    ensures
        match package_of(archive@) {
            Ok(p) => r matches Ok(x) && x@ == p,
            Err(m) => r matches Err(e) && e.message@ == m,
        },
{
    match open_error(archive) {
        Some(e) => {
            return Err(AppError::from_string(e));
        },
        None => {},
    }
    let container = match read_entry(archive, "META-INF/container.xml") {
        Some(c) => c,
        None => {
            return Err(AppError::msg("not an EPUB: missing META-INF/container.xml"));
        },
    };
    let cn = match xml_nodes(text_of_bytes(container.as_slice()).as_str()) {
        Ok(n) => n,
        Err(e) => {
            return Err(AppError::from_string(e));
        },
    };
    let opf_path = match rootfile_of(&cn) {
        Some(p) => p,
        None => {
            return Err(AppError::msg("container.xml has no rootfile"));
        },
    };
    let opf = match read_entry(archive, opf_path.as_str()) {
        Some(o) => o,
        None => {
            let mut m = chars_of("OPF not found in archive: ");
            append_str(&mut m, opf_path.as_str());
            return Err(AppError::from_string(string_of(&m)));
        },
    };
    let ns = match xml_nodes(text_of_bytes(opf.as_slice()).as_str()) {
        Ok(n) => n,
        Err(e) => {
            return Err(AppError::from_string(e));
        },
    };
    let title = dc_text_of(&ns, "title");
    let author = dc_text_of(&ns, "creator");
    let dir = crate::epub::dir_of(opf_path.as_str());
    let m = manifest_from(&ns);
    let spine = spine_from(&ns, &m, dir.as_str());
    if spine.len() == 0 {
        return Err(AppError::msg("EPUB spine is empty"));
    }
    let mut titles: Vec<(String, String)> = Vec::new();
    assert(pair_views(titles@) =~= Seq::<(Seq<char>, Seq<char>)>::empty());
    let nav = entry_path_of(nav_entry_of(&m), dir.as_str());
    toc_labels_of(archive, nav, dir.as_str(), &mut titles, false);
    let ncx = match toc_id_of(&ns) {
        Some(id) => entry_path_of(manifest_get_of(&m, id.as_str()), dir.as_str()),
        None => None,
    };
    toc_labels_of(archive, ncx, dir.as_str(), &mut titles, true);
    let by_id = match cover_id_of(&ns) {
        Some(id) => manifest_get_of(&m, id.as_str()),
        None => None,
    };
    let cover_path = match by_id {
        Some(it) => Some(normalize_path(dir.as_str(), it.href.as_str())),
        None => entry_path_of(cover_entry_of(&m), dir.as_str()),
    };
    let cover = match cover_path {
        Some(p) => match read_entry(archive, p.as_str()) {
            Some(img) => Some(cover_data_url(p.as_str(), img.as_slice())),
            None => None,
        },
        None => None,
    };
    Ok(EpubPackage { title, author, spine, titles, cover_data_url: cover })
}

/// The spine documents the archive holds, as text, in reading order;
/// paths without an entry are left out.
pub open spec fn spine_texts(archive: Seq<u8>, spine: Seq<Seq<char>>) -> Seq<(Seq<char>, Seq<char>)>
    decreases spine.len(),
{
    if spine.len() == 0 {
        seq![]
    } else {
        let prev = spine_texts(archive, spine.drop_last());
        match zip_entry(archive, spine.last()) {
            Some(raw) => prev.push((spine.last(), utf8_lossy(raw))),
            None => prev,
        }
    }
}

pub fn spine_documents(archive: &[u8], spine: &Vec<String>) -> (r: Vec<(String, String)>)
    ensures
        pair_views(r@) == spine_texts(archive@, crate::job::views_of(spine@)),
{
    let ghost sv = crate::job::views_of(spine@);
    let mut out: Vec<(String, String)> = Vec::new();
    let mut i: usize = 0;
    assert(pair_views(out@) =~= spine_texts(archive@, sv.take(0)));
    while i < spine.len()
        invariant
            i <= spine@.len(),
            sv == crate::job::views_of(spine@),
            pair_views(out@) == spine_texts(archive@, sv.take(i as int)),
        decreases spine.len() - i,
    {
        assert(sv.take(i + 1).drop_last() =~= sv.take(i as int));
        assert(sv.take(i + 1).last() == spine@[i as int]@);
        match read_entry(archive, spine[i].as_str()) {
            Some(raw) => {
                let ghost o0 = pair_views(out@);
                let text = text_of_bytes(raw.as_slice());
                let path = spine[i].clone();
                let ghost pv = (path@, text@);
                out.push((path, text));
                assert(pair_views(out@) =~= o0.push(pv));
            },
            None => {},
        }
        i += 1;
    }
    assert(sv.take(i as int) =~= sv);
    out
}

/// Some block is worth translating.
pub open spec fn has_content(bs: Seq<crate::types::BlockView>) -> bool {
    exists|i: int| 0 <= i < bs.len() && !(#[trigger] bs[i]).skipped
}

/// A spine document with its collected blocks: path, markup, blocks.
pub open spec fn spine_doc_view(d: (String, String, Vec<crate::types::Block>)) -> (Seq<char>, Seq<char>, Seq<crate::types::BlockView>) {
    (d.0@, d.1@, d.2@.map_values(|b: crate::types::Block| b@))
}

/// The book's documents: the spine documents with something to
/// translate, titled by the table of contents or else by file name.
pub open spec fn epub_docs(
    titles: Seq<(Seq<char>, Seq<char>)>,
    collected: Seq<(Seq<char>, Seq<char>, Seq<crate::types::BlockView>)>,
) -> Seq<crate::types::DocView>
    decreases collected.len(),
{
    if collected.len() == 0 {
        seq![]
    } else {
        let prev = epub_docs(titles, collected.drop_last());
        let (path, html, blocks) = collected.last();
        if has_content(blocks) {
            prev.push(crate::types::DocView {
                path,
                title: match title_for(titles, path) {
                    Some(t) => t,
                    None => crate::epub::pretty(path),
                },
                html,
                blocks,
            })
        } else {
            prev
        }
    }
}

fn any_content(blocks: &Vec<crate::types::Block>) -> (r: bool)
    ensures
        r == has_content(blocks@.map_values(|b: crate::types::Block| b@)),
{
    let ghost bv = blocks@.map_values(|b: crate::types::Block| b@);
    let mut i: usize = 0;
    while i < blocks.len()
        invariant
            i <= blocks@.len(),
            bv == blocks@.map_values(|b: crate::types::Block| b@),
            forall|j: int| 0 <= j < i ==> (#[trigger] bv[j]).skipped,
        decreases blocks.len() - i,
    {
        if !blocks[i].skipped {
            assert(!bv[i as int].skipped);
            return true;
        }
        i += 1;
    }
    false
}

/// Builds the loaded book from the package and the spine documents'
/// collected blocks: documents with nothing to translate are dropped;
/// the package's title, else the file name without `.epub`.
pub fn assemble_epub(
    bytes: Vec<u8>,
    file_path: &str,
    package: EpubPackage,
    collected: Vec<(String, String, Vec<crate::types::Block>)>,
) -> (book: crate::types::LoadedBook)
    ensures
        ({
            let docs = epub_docs(package@.titles, collected@.map_values(|d: (String, String, Vec<crate::types::Block>)| spine_doc_view(d)));
            let file_name = after_last(file_path@, '/');
            &&& crate::job::book_bytes(book) == bytes@
            &&& book.source is Epub
            &&& crate::types::doc_views(crate::types::book_docs(book)) == docs
            &&& book.info.format@ == "epub"@
            &&& book.info.file_path@ == file_path@
            &&& book.info.file_name@ == file_name
            &&& book.info.title@ == if package@.title.len() == 0 {
                crate::epub::trim_suffix_all(file_name, ".epub"@)
            } else {
                package@.title
            }
            &&& book.info.author@ == package@.author
            &&& crate::types::opt_view(book.info.cover_data_url) == package@.cover_data_url
            &&& book.info.total_chars == crate::book::book_chars(docs)
            &&& book.info.segments@.len() == docs.len()
            &&& forall|i: int| 0 <= i < docs.len() ==> crate::book::segment_matches(#[trigger] book.info.segments@[i], docs[i])
            &&& book.info.warnings@.len() == 0
        }),
{
    let ghost cv = collected@.map_values(|d: (String, String, Vec<crate::types::Block>)| spine_doc_view(d));
    let ghost tv = package@.titles;
    let mut docs: Vec<crate::types::ContentDoc> = Vec::new();
    let mut rest = collected;
    let ghost all = rest@;
    assert(cv == all.map_values(|d: (String, String, Vec<crate::types::Block>)| spine_doc_view(d)));
    let mut i: usize = 0;
    let n = rest.len();
    assert(all.skip(0) =~= all);
    while i < n
        invariant
            n == all.len(),
            i <= n,
            rest@ == all.skip(i as int),
            cv == all.map_values(|d: (String, String, Vec<crate::types::Block>)| spine_doc_view(d)),
            tv == package@.titles,
            crate::types::doc_views(docs@) == epub_docs(tv, cv.take(i as int)),
        decreases n - i,
    {
        let d = rest.remove(0);
        assert(d == all[i as int]);
        assert(rest@ =~= all.skip(i + 1));
        assert(cv.take(i + 1).drop_last() =~= cv.take(i as int));
        assert(cv.take(i + 1).last() == spine_doc_view(d));
        let (path, html, blocks) = d;
        if any_content(&blocks) {
            let title = match title_of(&package.titles, path.as_str()) {
                Some(t) => t,
                None => crate::epub::pretty_name(path.as_str()),
            };
            let ghost prev = crate::types::doc_views(docs@);
            let doc = crate::types::ContentDoc { path, title, html, blocks };
            docs.push(doc);
            assert(crate::types::doc_views(docs@) =~= prev.push(doc@));
        }
        i += 1;
    }
    assert(cv.take(i as int) =~= cv);
    let (segments, total_chars) = crate::book::segments_of(&docs);
    let fp = chars_of(file_path);
    let file_name = crate::epub::after_last_of(&fp, '/');
    let title = if package.title.as_str().is_empty() {
        string_of(&crate::epub::trim_suffix_all_of(&file_name, ".epub"))
    } else {
        package.title
    };
    let info = crate::types::BookInfo {
        format: "epub".to_owned(),
        file_path: file_path.to_owned(),
        file_name: string_of(&file_name),
        title,
        author: package.author,
        cover_data_url: package.cover_data_url,
        total_chars,
        segments,
        warnings: Vec::new(),
    };
    crate::types::LoadedBook { info, source: crate::types::BookSource::Epub { bytes, docs } }
}

} // verus!
