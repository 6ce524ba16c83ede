//! The workspace: the single owner of every tracked file's document, parse
//! cache entry and symbol-index entries. Its methods are the lifecycle
//! transitions (discover/load, open, edit, close, delete, re-parse); each is
//! specified as a pure transition on the mathematical model `WsView`, so
//! that the staleness discipline — a tree's recorded version equals its
//! document's version exactly when the tree is trustworthy — is a proved
//! invariant rather than a convention.

use vstd::prelude::*;
use vstd::pervasive::VecAdditionalExecFns;
use crate::bytes::bytes_eq;
use crate::store::{
    Document, ParsedUnit, FileRec, DocView, UnitView, FileView, map_of, paths_unique,
    lemma_map_of_contains, lemma_map_of_get, lemma_map_of_update, lemma_map_of_push,
    lemma_map_of_remove,
};
use crate::symbols::{
    SymbolEntry, EntryView, entry_views, entry_clone, extract, extract_spec, remove_path_spec,
};
use crate::syntax::{build_tree, build_nodes, build_diags, views_of, nodes_wf};

verus! {

/// The mathematical model of a whole workspace.
#[verifier::ext_equal]
pub struct WsView {
    pub files: Map<Seq<u8>, FileView>,
    pub symbols: Seq<EntryView>,
    /// Parse counter: stamps index entries so "most recently parsed" is
    /// well defined.
    pub stamp: u64,
}

/// Why a store operation was refused.
#[derive(Clone, Copy, PartialEq, Eq, Structural, Debug)]
pub enum StoreError {
    /// The path is not tracked by the workspace.
    NotTracked,
}

pub open spec fn ws_empty() -> WsView {
    WsView { files: Map::empty(), symbols: Seq::empty(), stamp: 0 }
}

/// `open`: the editor takes ownership of the buffer with the given text.
/// A new document starts at version 0; an existing one gets a fresh version.
pub open spec fn open_doc_spec(m: WsView, p: Seq<u8>, c: Seq<u8>) -> WsView {
    if m.files.contains_key(p) {
        let f = m.files[p];
        WsView {
            files: m.files.insert(
                p,
                FileView {
                    doc: DocView {
                        content: c,
                        version: (f.doc.version + 1) as u64,
                        is_open: true,
                    },
                    unit: f.unit,
                },
            ),
            ..m
        }
    } else {
        WsView {
            files: m.files.insert(
                p,
                FileView { doc: DocView { content: c, version: 0, is_open: true }, unit: None },
            ),
            ..m
        }
    }
}

/// `applyEdit`: whole-document replacement of a tracked file's content, with
/// a version bump. Untracked paths are refused and leave the state alone.
pub open spec fn edit_spec(m: WsView, p: Seq<u8>, c: Seq<u8>) -> WsView {
    if m.files.contains_key(p) {
        let f = m.files[p];
        WsView {
            files: m.files.insert(
                p,
                FileView {
                    doc: DocView {
                        content: c,
                        version: (f.doc.version + 1) as u64,
                        is_open: f.doc.is_open,
                    },
                    unit: f.unit,
                },
            ),
            ..m
        }
    } else {
        m
    }
}

/// `load`: bytes read from disk. Creates an untracked document at version 0;
/// never clobbers an editor-owned buffer; refreshes a closed one.
pub open spec fn load_spec(m: WsView, p: Seq<u8>, c: Seq<u8>) -> WsView {
    if !m.files.contains_key(p) {
        WsView {
            files: m.files.insert(
                p,
                FileView { doc: DocView { content: c, version: 0, is_open: false }, unit: None },
            ),
            ..m
        }
    } else if m.files[p].doc.is_open {
        m
    } else {
        let f = m.files[p];
        WsView {
            files: m.files.insert(
                p,
                FileView {
                    doc: DocView {
                        content: c,
                        version: (f.doc.version + 1) as u64,
                        is_open: false,
                    },
                    unit: f.unit,
                },
            ),
            ..m
        }
    }
}

/// Destruction of a tracked file: document, cached unit and every symbol
/// entry of that path disappear together.
pub open spec fn purge_spec(m: WsView, p: Seq<u8>) -> WsView {
    WsView { files: m.files.remove(p), symbols: remove_path_spec(m.symbols, p), ..m }
}

/// `close`: the editor gives the buffer up. With the file still on disk the
/// last-known content is kept as a read-only fallback; otherwise the file is
/// destroyed.
pub open spec fn close_spec(m: WsView, p: Seq<u8>, on_disk: bool) -> WsView {
    if !m.files.contains_key(p) {
        m
    } else if on_disk {
        let f = m.files[p];
        WsView {
            files: m.files.insert(
                p,
                FileView { doc: DocView { is_open: false, ..f.doc }, unit: f.unit },
            ),
            ..m
        }
    } else {
        purge_spec(m, p)
    }
}

/// `remove`: the file was deleted; everything about it is purged.
pub open spec fn remove_doc_spec(m: WsView, p: Seq<u8>) -> WsView {
    if m.files.contains_key(p) {
        purge_spec(m, p)
    } else {
        m
    }
}

/// Whether the cached unit of `p` is fresh: built from the current content.
pub open spec fn is_fresh(m: WsView, p: Seq<u8>) -> bool {
    m.files.contains_key(p) && match m.files[p].unit {
        Some(u) => u.version == m.files[p].doc.version,
        None => false,
    }
}

/// `ensureFresh`: if the cached unit is absent or stale, rebuild it from the
/// current content and atomically swap the file's symbol entries, stamped
/// with the parse counter. A fresh unit (and an untracked path) leaves the
/// state alone.
pub open spec fn refresh_spec(m: WsView, p: Seq<u8>) -> WsView {
    if !m.files.contains_key(p) {
        m
    } else if is_fresh(m, p) {
        m
    } else {
        let f = m.files[p];
        WsView {
            files: m.files.insert(
                p,
                FileView {
                    doc: f.doc,
                    unit: Some(
                        UnitView {
                            nodes: build_nodes(f.doc.content),
                            diags: build_diags(f.doc.content),
                            version: f.doc.version,
                        },
                    ),
                },
            ),
            symbols: remove_path_spec(m.symbols, p) + extract_spec(
                build_nodes(f.doc.content),
                p,
                m.stamp,
            ),
            stamp: (m.stamp + 1) as u64,
        }
    }
}

/// Model invariant: no cached unit claims a version its document has not
/// reached, and a fresh unit really is the parse of the current content.
pub open spec fn ws_inv(m: WsView) -> bool {
    forall|p: Seq<u8>| #[trigger] m.files.contains_key(p) ==> match m.files[p].unit {
        Some(u) => {
            &&& u.version <= m.files[p].doc.version
            &&& (u.version == m.files[p].doc.version ==> u.nodes == build_nodes(
                m.files[p].doc.content,
            ) && u.diags == build_diags(m.files[p].doc.content))
        },
        None => true,
    }
}

/// The workspace: every tracked file's record plus the derived symbol index.
pub struct Workspace {
    pub files: Vec<FileRec>,
    pub symbols: Vec<SymbolEntry>,
    pub stamp: u64,
}

impl View for Workspace {
    type V = WsView;

    open spec fn view(&self) -> WsView {
        WsView {
            files: map_of(self.files@),
            symbols: entry_views(self.symbols@),
            stamp: self.stamp,
        }
    }
}

impl Workspace {
    /// Well-formedness: unique paths, well-formed cached trees, and the
    /// model invariant.
    pub open spec fn wf(self) -> bool {
        &&& paths_unique(self.files@)
        &&& forall|i: int|
            0 <= i < self.files@.len() ==> match #[trigger] self.files@[i].unit {
                Some(u) => nodes_wf(views_of(u.nodes@)),
                None => true,
            }
        &&& ws_inv(self@)
    }

    pub fn new() -> (r: Workspace)
        ensures
            r.wf(),
            r@ == ws_empty(),
    {
        let r = Workspace { files: Vec::new(), symbols: Vec::new(), stamp: 0 };
        proof {
            assert(r@ =~= ws_empty());
        }
        r
    }

    /// Index of the record of `path`, if tracked.
    pub(crate) fn find(&self, path: &Vec<u8>) -> (r: Option<usize>)
        requires
            self.wf(),
        ensures
            match r {
                Some(i) => {
                    &&& i < self.files@.len()
                    &&& self.files@[i as int].path@ == path@
                    &&& self@.files.contains_key(path@)
                    &&& self@.files[path@] == self.files@[i as int]@
                },
                None => !self@.files.contains_key(path@),
            },
    {
        let n = self.files.len();
        let mut i: usize = 0;
        while i < n
            invariant
                n == self.files@.len(),
                i <= n,
                self.wf(),
                forall|j: int| 0 <= j < i ==> (#[trigger] self.files@[j].path@) != path@,
            decreases n - i,
        {
            if bytes_eq(&self.files[i].path, path) {
                proof {
                    lemma_map_of_get(self.files@, i as int);
                }
                return Some(i);
            }
            i += 1;
        }
        proof {
            lemma_map_of_contains(self.files@, path@);
        }
        None
    }

    /// Whether `path` is tracked.
    pub fn is_tracked(&self, path: &Vec<u8>) -> (r: bool)
        requires
            self.wf(),
        ensures
            r == self@.files.contains_key(path@),
    {
        self.find(path).is_some()
    }

    /// The current document version of `path`.
    pub fn version_of(&self, path: &Vec<u8>) -> (r: Option<u64>)
        requires
            self.wf(),
        ensures
            match r {
                Some(v) => self@.files.contains_key(path@) && v == self@.files[path@].doc.version,
                None => !self@.files.contains_key(path@),
            },
    {
        match self.find(path) {
            Some(i) => Some(self.files[i].doc.version),
            None => None,
        }
    }

    /// The version the cached unit of `path` was built from, if any.
    pub fn unit_version_of(&self, path: &Vec<u8>) -> (r: Option<u64>)
        requires
            self.wf(),
        ensures
            match r {
                Some(v) => {
                    &&& self@.files.contains_key(path@)
                    &&& self@.files[path@].unit matches Some(u) && v == u.version
                },
                None => !self@.files.contains_key(path@) || self@.files[path@].unit is None,
            },
    {
        match self.find(path) {
            Some(i) => match &self.files[i].unit {
                Some(u) => Some(u.version),
                None => None,
            },
            None => None,
        }
    }

    /// The diagnostics of the cached unit of `path`, if one exists.
    pub fn diagnostics_of(&self, path: &Vec<u8>) -> (r: Option<Vec<crate::syntax::Diag>>)
        requires
            self.wf(),
        ensures
            match r {
                Some(d) => {
                    &&& self@.files.contains_key(path@)
                    &&& self@.files[path@].unit matches Some(u) && d@ == u.diags
                },
                None => !self@.files.contains_key(path@) || self@.files[path@].unit is None,
            },
    {
        match self.find(path) {
            Some(i) => match &self.files[i].unit {
                Some(u) => {
                    let n = u.diags.len();
                    let mut d: Vec<crate::syntax::Diag> = Vec::new();
                    let mut j: usize = 0;
                    while j < n
                        invariant
                            n == u.diags@.len(),
                            j <= n,
                            d@ =~= u.diags@.subrange(0, j as int),
                        decreases n - j,
                    {
                        d.push(u.diags[j]);
                        j += 1;
                    }
                    proof {
                        assert(d@ =~= u.diags@);
                    }
                    Some(d)
                },
                None => None,
            },
            None => None,
        }
    }

    fn empty_rec() -> (r: FileRec)
        ensures
            r.path@ == Seq::<u8>::empty(),
    {
        FileRec {
            path: Vec::new(),
            doc: Document { content: Vec::new(), version: 0, is_open: false },
            unit: None,
        }
    }

    /// `open(path, initialContent)`: marks the document editor-owned and
    /// replaces its content, creating it at version 0 if new.
    pub fn open_document(&mut self, path: &Vec<u8>, content: Vec<u8>)
        requires
            old(self).wf(),
            old(self)@.files.contains_key(path@) ==> old(self)@.files[path@].doc.version
                < u64::MAX,
        ensures
            final(self).wf(),
            final(self)@ == open_doc_spec(old(self)@, path@, content@),
    {
        match self.find(path) {
            Some(i) => {
                let ghost s0 = self.files@;
                let mut tmp = Self::empty_rec();
                self.files.set_and_swap(i, &mut tmp);
                tmp.doc.content = content;
                tmp.doc.version = tmp.doc.version + 1;
                tmp.doc.is_open = true;
                let ghost newrec = tmp;
                self.files.set_and_swap(i, &mut tmp);
                proof {
                    assert(self.files@ =~= s0.update(i as int, newrec));
                    lemma_map_of_update(s0, i as int, newrec);
                    assert(self@ =~= open_doc_spec(old(self)@, path@, content@));
                    assert(forall|q: Seq<u8>|
                        self@.files.contains_key(q) && q != path@ ==> old(
                            self,
                        )@.files.contains_key(q) && self@.files[q] == #[trigger] old(
                            self,
                        )@.files[q]);
                }
            },
            None => {
                let ghost s0 = self.files@;
                let rec = FileRec {
                    path: crate::bytes::copy_bytes(path),
                    doc: Document { content, version: 0, is_open: true },
                    unit: None,
                };
                proof {
                    lemma_map_of_push(s0, rec);
                }
                self.files.push(rec);
                proof {
                    assert(self@ =~= open_doc_spec(old(self)@, path@, content@));
                    assert(forall|q: Seq<u8>|
                        self@.files.contains_key(q) && q != path@ ==> old(
                            self,
                        )@.files.contains_key(q) && self@.files[q] == #[trigger] old(
                            self,
                        )@.files[q]);
                }
            },
        }
    }

    /// `applyEdit(path, newFullContent)`: whole-document replace with a
    /// version bump; refused for untracked paths.
    pub fn apply_edit(&mut self, path: &Vec<u8>, content: Vec<u8>) -> (r: Result<(), StoreError>)
        requires
            old(self).wf(),
            old(self)@.files.contains_key(path@) ==> old(self)@.files[path@].doc.version
                < u64::MAX,
        ensures
            final(self).wf(),
            final(self)@ == edit_spec(old(self)@, path@, content@),
            r is Ok <==> old(self)@.files.contains_key(path@),
    {
        match self.find(path) {
            Some(i) => {
                let ghost s0 = self.files@;
                let mut tmp = Self::empty_rec();
                self.files.set_and_swap(i, &mut tmp);
                tmp.doc.content = content;
                tmp.doc.version = tmp.doc.version + 1;
                let ghost newrec = tmp;
                self.files.set_and_swap(i, &mut tmp);
                proof {
                    assert(self.files@ =~= s0.update(i as int, newrec));
                    lemma_map_of_update(s0, i as int, newrec);
                    assert(self@ =~= edit_spec(old(self)@, path@, content@));
                    assert(forall|q: Seq<u8>|
                        self@.files.contains_key(q) && q != path@ ==> old(
                            self,
                        )@.files.contains_key(q) && self@.files[q] == #[trigger] old(
                            self,
                        )@.files[q]);
                }
                Ok(())
            },
            None => {
                proof {
                    assert(self@ =~= edit_spec(old(self)@, path@, content@));
                }
                Err(StoreError::NotTracked)
            },
        }
    }

    /// Removes every symbol entry whose defining path is `p`, keeping order.
    fn purge_symbols(&mut self, path: &Vec<u8>)
        ensures
            entry_views(final(self).symbols@) == remove_path_spec(
                entry_views(old(self).symbols@),
                path@,
            ),
            final(self).files == old(self).files,
            final(self).stamp == old(self).stamp,
    {
        let n = self.symbols.len();
        let mut kept: Vec<SymbolEntry> = Vec::new();
        let mut i: usize = 0;
        while i < n
            invariant
                n == self.symbols@.len(),
                i <= n,
                self.symbols == old(self).symbols,
                self.files == old(self).files,
                self.stamp == old(self).stamp,
                entry_views(kept@) == remove_path_spec(
                    entry_views(self.symbols@).subrange(0, i as int),
                    path@,
                ),
            decreases n - i,
        {
            proof {
                assert(entry_views(self.symbols@)[i as int] == self.symbols@[i as int]@);
            }
            let keep = !bytes_eq(&self.symbols[i].path, path);
            let ghost prev = kept@;
            if keep {
                kept.push(entry_clone(&self.symbols[i]));
            }
            i += 1;
            proof {
                let pre = entry_views(self.symbols@).subrange(0, i as int);
                assert(pre.drop_last() =~= entry_views(self.symbols@).subrange(0, i - 1));
                assert(pre.last() == self.symbols@[i - 1]@);
                if keep {
                    assert(entry_views(kept@) =~= entry_views(prev).push(self.symbols@[i - 1]@));
                }
                assert(entry_views(kept@) =~= remove_path_spec(pre, path@));
            }
        }
        proof {
            assert(entry_views(self.symbols@).subrange(0, n as int) =~= entry_views(
                self.symbols@,
            ));
        }
        self.symbols = kept;
    }

    /// `close(path)`: the editor gives the buffer up. `on_disk` says whether
    /// the file still exists; if so the content is kept (no longer
    /// editor-authoritative), otherwise the file is destroyed.
    pub fn close_document(&mut self, path: &Vec<u8>, on_disk: bool) -> (r: Result<
        (),
        StoreError,
    >)
        requires
            old(self).wf(),
        ensures
            final(self).wf(),
            final(self)@ == close_spec(old(self)@, path@, on_disk),
            r is Ok <==> old(self)@.files.contains_key(path@),
    {
        match self.find(path) {
            Some(i) => {
                let ghost s0 = self.files@;
                if on_disk {
                    let mut tmp = Self::empty_rec();
                    self.files.set_and_swap(i, &mut tmp);
                    tmp.doc.is_open = false;
                    let ghost newrec = tmp;
                    self.files.set_and_swap(i, &mut tmp);
                    proof {
                        assert(self.files@ =~= s0.update(i as int, newrec));
                        lemma_map_of_update(s0, i as int, newrec);
                        assert(self@ =~= close_spec(old(self)@, path@, on_disk));
                        assert(forall|q: Seq<u8>|
                            self@.files.contains_key(q) && q != path@ ==> old(
                                self,
                            )@.files.contains_key(q) && self@.files[q] == #[trigger] old(
                                self,
                            )@.files[q]);
                    }
                } else {
                    proof {
                        lemma_map_of_remove(s0, i as int);
                    }
                    let _ = self.files.remove(i);
                    self.purge_symbols(path);
                    proof {
                        assert(self@ =~= close_spec(old(self)@, path@, on_disk));
                        assert(forall|q: Seq<u8>|
                            self@.files.contains_key(q) ==> old(self)@.files.contains_key(q)
                                && self@.files[q] == #[trigger] old(self)@.files[q]);
                    }
                }
                Ok(())
            },
            None => {
                proof {
                    assert(self@ =~= close_spec(old(self)@, path@, on_disk));
                }
                Err(StoreError::NotTracked)
            },
        }
    }

    /// `remove(path)`: the file is gone; document, cached unit and symbol
    /// entries are purged together.
    pub fn remove_document(&mut self, path: &Vec<u8>) -> (r: Result<(), StoreError>)
        requires
            old(self).wf(),
        ensures
            final(self).wf(),
            final(self)@ == remove_doc_spec(old(self)@, path@),
            r is Ok <==> old(self)@.files.contains_key(path@),
    {
        match self.find(path) {
            Some(i) => {
                let ghost s0 = self.files@;
                proof {
                    lemma_map_of_remove(s0, i as int);
                }
                let _ = self.files.remove(i);
                self.purge_symbols(path);
                proof {
                    assert(self@ =~= remove_doc_spec(old(self)@, path@));
                    assert(forall|q: Seq<u8>|
                        self@.files.contains_key(q) ==> old(self)@.files.contains_key(q)
                            && self@.files[q] == #[trigger] old(self)@.files[q]);
                }
                Ok(())
            },
            None => {
                proof {
                    assert(self@ =~= remove_doc_spec(old(self)@, path@));
                }
                Err(StoreError::NotTracked)
            },
        }
    }

    /// `ensureFresh(path)`: re-parses the file if its cached unit is absent
    /// or stale, and atomically swaps its symbol entries; a fresh unit is
    /// left untouched, so repeated calls are free and idempotent.
    pub fn ensure_fresh(&mut self, path: &Vec<u8>) -> (r: Result<(), StoreError>)
        requires
            old(self).wf(),
            old(self)@.stamp < u64::MAX,
        ensures
            final(self).wf(),
            final(self)@ == refresh_spec(old(self)@, path@),
            r is Ok <==> old(self)@.files.contains_key(path@),
    {
        match self.find(path) {
            Some(i) => {
                let doc_version = self.files[i].doc.version;
                let fresh = match &self.files[i].unit {
                    Some(u) => u.version == doc_version,
                    None => false,
                };
                if fresh {
                    proof {
                        assert(is_fresh(old(self)@, path@));
                        assert(self@ =~= refresh_spec(old(self)@, path@));
                    }
                    return Ok(());
                }
                let ghost s0 = self.files@;
                let (nodes, diags) = build_tree(&self.files[i].doc.content);
                let mut entries = extract(&nodes, path, self.stamp);
                let mut tmp = Self::empty_rec();
                self.files.set_and_swap(i, &mut tmp);
                tmp.unit = Some(ParsedUnit { nodes, diags, version: doc_version });
                let ghost newrec = tmp;
                self.files.set_and_swap(i, &mut tmp);
                self.purge_symbols(path);
                self.symbols.append(&mut entries);
                self.stamp = self.stamp + 1;
                proof {
                    assert(self.files@ =~= s0.update(i as int, newrec));
                    lemma_map_of_update(s0, i as int, newrec);
                    let f = old(self)@.files[path@];
                    assert(newrec@.unit matches Some(u) && u.nodes == build_nodes(f.doc.content)
                        && u.diags == build_diags(f.doc.content) && u.version == f.doc.version);
                    assert(entry_views(self.symbols@) =~= remove_path_spec(
                        entry_views(old(self).symbols@),
                        path@,
                    ) + extract_spec(build_nodes(f.doc.content), path@, old(self)@.stamp));
                    assert(self@ =~= refresh_spec(old(self)@, path@));
                    assert(forall|q: Seq<u8>|
                        self@.files.contains_key(q) && q != path@ ==> old(
                            self,
                        )@.files.contains_key(q) && self@.files[q] == #[trigger] old(
                            self,
                        )@.files[q]);
                }
                Ok(())
            },
            None => {
                proof {
                    assert(self@ =~= refresh_spec(old(self)@, path@));
                }
                Err(StoreError::NotTracked)
            },
        }
    }

    /// `load(path)` outcome: bytes that arrived from disk. Creates the
    /// document at version 0 if absent; never clobbers an editor-owned
    /// buffer; refreshes a closed one.
    pub fn load_document(&mut self, path: &Vec<u8>, content: Vec<u8>)
        requires
            old(self).wf(),
            old(self)@.files.contains_key(path@) ==> old(self)@.files[path@].doc.version
                < u64::MAX,
        ensures
            final(self).wf(),
            final(self)@ == load_spec(old(self)@, path@, content@),
    {
        match self.find(path) {
            Some(i) => {
                if self.files[i].doc.is_open {
                    proof {
                        assert(self@ =~= load_spec(old(self)@, path@, content@));
                    }
                    return;
                }
                let ghost s0 = self.files@;
                let mut tmp = Self::empty_rec();
                self.files.set_and_swap(i, &mut tmp);
                tmp.doc.content = content;
                tmp.doc.version = tmp.doc.version + 1;
                let ghost newrec = tmp;
                self.files.set_and_swap(i, &mut tmp);
                proof {
                    assert(self.files@ =~= s0.update(i as int, newrec));
                    lemma_map_of_update(s0, i as int, newrec);
                    assert(self@ =~= load_spec(old(self)@, path@, content@));
                    assert(forall|q: Seq<u8>|
                        self@.files.contains_key(q) && q != path@ ==> old(
                            self,
                        )@.files.contains_key(q) && self@.files[q] == #[trigger] old(
                            self,
                        )@.files[q]);
                }
            },
            None => {
                let ghost s0 = self.files@;
                let rec = FileRec {
                    path: crate::bytes::copy_bytes(path),
                    doc: Document { content, version: 0, is_open: false },
                    unit: None,
                };
                proof {
                    lemma_map_of_push(s0, rec);
                }
                self.files.push(rec);
                proof {
                    assert(self@ =~= load_spec(old(self)@, path@, content@));
                    assert(forall|q: Seq<u8>|
                        self@.files.contains_key(q) && q != path@ ==> old(
                            self,
                        )@.files.contains_key(q) && self@.files[q] == #[trigger] old(
                            self,
                        )@.files[q]);
                }
            },
        }
    }
}

} // verus!
