//! The per-file record table backing the document store and the parse cache.
//! Each tracked file owns one record holding the authoritative document
//! (content, version, editor-ownership flag) and, once parsed, the cached
//! parsed unit (tree, diagnostics, the version it was built from). The table
//! is an association vector with unique paths; its mathematical model is a
//! map from path to file state.

use vstd::prelude::*;
use crate::syntax::{Node, NodeView, Diag, views_of};

verus! {

/// The authoritative text of one tracked file.
pub struct Document {
    pub content: Vec<u8>,
    /// Per-path monotone counter, bumped on every content mutation.
    pub version: u64,
    /// Whether the editor currently owns this buffer; while true, a disk
    /// load must not clobber the content.
    pub is_open: bool,
}

/// The cached parse of one tracked file.
pub struct ParsedUnit {
    pub nodes: Vec<Node>,
    pub diags: Vec<Diag>,
    /// The document version the tree was built from; the unit is fresh
    /// exactly when this equals the document's current version.
    pub version: u64,
}

/// One tracked file: its document and, if already parsed, its unit.
pub struct FileRec {
    pub path: Vec<u8>,
    pub doc: Document,
    pub unit: Option<ParsedUnit>,
}

#[verifier::ext_equal]
pub struct DocView {
    pub content: Seq<u8>,
    pub version: u64,
    pub is_open: bool,
}

#[verifier::ext_equal]
pub struct UnitView {
    pub nodes: Seq<NodeView>,
    pub diags: Seq<Diag>,
    pub version: u64,
}

#[verifier::ext_equal]
pub struct FileView {
    pub doc: DocView,
    pub unit: Option<UnitView>,
}

impl View for Document {
    type V = DocView;

    open spec fn view(&self) -> DocView {
        DocView { content: self.content@, version: self.version, is_open: self.is_open }
    }
}

impl View for ParsedUnit {
    type V = UnitView;

    open spec fn view(&self) -> UnitView {
        UnitView { nodes: views_of(self.nodes@), diags: self.diags@, version: self.version }
    }
}

pub open spec fn unit_view_of(u: Option<ParsedUnit>) -> Option<UnitView> {
    match u {
        Some(pu) => Some(pu@),
        None => None,
    }
}

impl View for FileRec {
    type V = FileView;

    open spec fn view(&self) -> FileView {
        FileView { doc: self.doc@, unit: unit_view_of(self.unit) }
    }
}

/// The map modelled by an association vector of file records.
pub open spec fn map_of(s: Seq<FileRec>) -> Map<Seq<u8>, FileView>
    decreases s.len(),
{
    if s.len() == 0 {
        Map::empty()
    } else {
        map_of(s.drop_last()).insert(s.last().path@, s.last()@)
    }
}

pub open spec fn paths_unique(s: Seq<FileRec>) -> bool {
    forall|i: int, j: int|
        0 <= i < j < s.len() ==> (#[trigger] s[i].path@) != (#[trigger] s[j].path@)
}

pub proof fn lemma_map_of_contains(s: Seq<FileRec>, p: Seq<u8>)
    ensures
        map_of(s).contains_key(p) <==> exists|i: int| 0 <= i < s.len() && (#[trigger] s[i].path@)
            == p,
    decreases s.len(),
{
    if s.len() > 0 {
        lemma_map_of_contains(s.drop_last(), p);
        if map_of(s).contains_key(p) {
            if s.last().path@ != p {
                let i = choose|i: int|
                    0 <= i < s.drop_last().len() && (#[trigger] s.drop_last()[i].path@) == p;
                assert(s[i].path@ == p);
            }
        }
        if exists|i: int| 0 <= i < s.len() && (#[trigger] s[i].path@) == p {
            let i = choose|i: int| 0 <= i < s.len() && (#[trigger] s[i].path@) == p;
            if i < s.len() - 1 {
                assert(s.drop_last()[i].path@ == p);
            }
        }
    }
}

pub proof fn lemma_map_of_get(s: Seq<FileRec>, i: int)
    requires
        paths_unique(s),
        0 <= i < s.len(),
    ensures
        map_of(s).contains_key(s[i].path@),
        map_of(s)[s[i].path@] == s[i]@,
    decreases s.len(),
{
    lemma_map_of_contains(s, s[i].path@);
    if i == s.len() - 1 {
    } else {
        assert(s[i].path@ != s.last().path@);
        assert(s.drop_last()[i] == s[i]);
        lemma_map_of_get(s.drop_last(), i);
    }
}

pub proof fn lemma_map_of_update(s: Seq<FileRec>, i: int, r: FileRec)
    requires
        paths_unique(s),
        0 <= i < s.len(),
        r.path@ == s[i].path@,
    ensures
        map_of(s.update(i, r)) =~= map_of(s).insert(r.path@, r@),
        paths_unique(s.update(i, r)),
    decreases s.len(),
{
    let s2 = s.update(i, r);
    assert(forall|j: int| 0 <= j < s.len() ==> (#[trigger] s2[j].path@) == s[j].path@);
    if i == s.len() - 1 {
        assert(s2.drop_last() =~= s.drop_last());
        assert(s2.last() == r);
    } else {
        assert(s2.last() == s.last());
        assert(s2.drop_last() =~= s.drop_last().update(i, r));
        lemma_map_of_update(s.drop_last(), i, r);
        assert(s.last().path@ != r.path@);
    }
}

pub proof fn lemma_map_of_push(s: Seq<FileRec>, r: FileRec)
    requires
        paths_unique(s),
        !map_of(s).contains_key(r.path@),
    ensures
        map_of(s.push(r)) =~= map_of(s).insert(r.path@, r@),
        paths_unique(s.push(r)),
{
    assert(s.push(r).drop_last() =~= s);
    assert(s.push(r).last() == r);
    lemma_map_of_contains(s, r.path@);
    assert(forall|i: int| 0 <= i < s.len() ==> (#[trigger] s[i].path@) != r.path@);
    assert(forall|i: int| 0 <= i < s.len() ==> s.push(r)[i] == s[i]);
}

pub proof fn lemma_map_of_remove(s: Seq<FileRec>, i: int)
    requires
        paths_unique(s),
        0 <= i < s.len(),
    ensures
        map_of(s.remove(i)) =~= map_of(s).remove(s[i].path@),
        paths_unique(s.remove(i)),
    decreases s.len(),
{
    let s2 = s.remove(i);
    assert(forall|j: int| 0 <= j < i ==> s2[j] == s[j]);
    assert(forall|j: int| i <= j < s2.len() ==> s2[j] == s[j + 1]);
    if i == s.len() - 1 {
        assert(s2 =~= s.drop_last());
        lemma_map_of_contains(s.drop_last(), s[i].path@);
        assert(forall|j: int| 0 <= j < s.drop_last().len() ==> (#[trigger] s.drop_last()[j].path@)
            != s[i].path@);
        assert(map_of(s.drop_last()) =~= map_of(s.drop_last()).remove(s[i].path@));
    } else {
        assert(s2.last() == s.last());
        assert(s2.drop_last() =~= s.drop_last().remove(i));
        assert(s.drop_last()[i] == s[i]);
        lemma_map_of_remove(s.drop_last(), i);
        assert(s.last().path@ != s[i].path@);
    }
}

} // verus!
