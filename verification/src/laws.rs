//! Workspace-wide guarantees, stated and proved over the model: version
//! monotonicity across editor lifecycles, idempotence of `ensureFresh`,
//! content-determinism of parsing, and that removal leaves no trace behind.

use vstd::prelude::*;
use crate::workspace::{
    WsView, open_doc_spec, edit_spec, load_spec, close_spec, remove_doc_spec, refresh_spec,
    ws_inv, is_fresh,
};
use crate::symbols::lemma_remove_path_clean;
use crate::syntax::{build_nodes, build_diags};
use crate::query::{hover_spec, definition_spec};

verus! {

/// The editor-lifecycle operations on documents of files that stay on disk:
/// open with full text, whole-document edit, close.
pub enum LifecycleOp {
    Open(Seq<u8>, Seq<u8>),
    Edit(Seq<u8>, Seq<u8>),
    Close(Seq<u8>),
}

pub open spec fn apply_lifecycle(m: WsView, op: LifecycleOp) -> WsView {
    match op {
        LifecycleOp::Open(p, c) => open_doc_spec(m, p, c),
        LifecycleOp::Edit(p, c) => edit_spec(m, p, c),
        LifecycleOp::Close(p) => close_spec(m, p, true),
    }
}

pub open spec fn run_lifecycle(m: WsView, ops: Seq<LifecycleOp>) -> WsView
    decreases ops.len(),
{
    if ops.len() == 0 {
        m
    } else {
        run_lifecycle(apply_lifecycle(m, ops[0]), ops.skip(1))
    }
}

/// A document's version, with -1 standing for "untracked" so that creation
/// at version 0 also counts as an increase.
pub open spec fn doc_version(m: WsView, p: Seq<u8>) -> int {
    if m.files.contains_key(p) {
        m.files[p].doc.version as int
    } else {
        -1
    }
}

/// Every single mutation of a tracked document strictly increases its
/// version: no version is ever reused or taken back.
pub proof fn lemma_mutation_strictly_increases(m: WsView, p: Seq<u8>, c: Seq<u8>)
    requires
        m.files.contains_key(p),
        m.files[p].doc.version < u64::MAX,
    ensures
        doc_version(edit_spec(m, p, c), p) > doc_version(m, p),
        doc_version(open_doc_spec(m, p, c), p) > doc_version(m, p),
{
}

/// Across any sequence of `open`/`applyEdit`/`close` operations (on any
/// paths), a document's version never decreases; each operation adds at
/// most one, so the bound below keeps the counter away from overflow.
pub proof fn lemma_version_monotone(m: WsView, ops: Seq<LifecycleOp>, p: Seq<u8>)
    requires
        doc_version(m, p) + ops.len() < u64::MAX,
    ensures
        doc_version(run_lifecycle(m, ops), p) >= doc_version(m, p),
        doc_version(run_lifecycle(m, ops), p) <= doc_version(m, p) + ops.len(),
    decreases ops.len(),
{
    if ops.len() > 0 {
        let m1 = apply_lifecycle(m, ops[0]);
        assert(doc_version(m1, p) >= doc_version(m, p) && doc_version(m1, p) <= doc_version(m, p)
            + 1) by {
            match ops[0] {
                LifecycleOp::Open(q, c) => {
                    if q != p {
                        assert(m1.files.contains_key(p) == m.files.contains_key(p));
                    }
                },
                LifecycleOp::Edit(q, c) => {
                    if q != p {
                        assert(m1.files.contains_key(p) == m.files.contains_key(p));
                    }
                },
                LifecycleOp::Close(q) => {
                    if q != p {
                        assert(m1.files.contains_key(p) == m.files.contains_key(p));
                    }
                },
            }
        }
        lemma_version_monotone(m1, ops.skip(1), p);
    }
}

/// Once queried, the parse cache reflects the current content: after
/// `ensureFresh` the unit of a tracked file is exactly the parse of the
/// content written by the most recent edit, tagged with its version.
pub proof fn lemma_query_sees_latest_content(m: WsView, p: Seq<u8>)
    requires
        ws_inv(m),
        m.files.contains_key(p),
    ensures
        refresh_spec(m, p).files[p].unit matches Some(u) && {
            &&& u.nodes == build_nodes(m.files[p].doc.content)
            &&& u.diags == build_diags(m.files[p].doc.content)
            &&& u.version == m.files[p].doc.version
        },
{
}

/// `ensureFresh` is idempotent: a second call with no intervening edit
/// changes nothing, so both calls hand out the identical unit.
pub proof fn lemma_ensure_fresh_idempotent(m: WsView, p: Seq<u8>)
    ensures
        refresh_spec(refresh_spec(m, p), p) == refresh_spec(m, p),
{
    let m1 = refresh_spec(m, p);
    if m.files.contains_key(p) && !is_fresh(m, p) {
        assert(is_fresh(m1, p));
    }
}

/// Parsing is a function of the content alone: two files (or the same file
/// at two times) with equal bytes get equal trees and equal diagnostics —
/// in particular, editing a file back to its original content restores the
/// original diagnostics once re-parsed.
pub proof fn lemma_parse_content_deterministic(
    m1: WsView,
    m2: WsView,
    p1: Seq<u8>,
    p2: Seq<u8>,
)
    requires
        ws_inv(m1),
        ws_inv(m2),
        m1.files.contains_key(p1),
        m2.files.contains_key(p2),
        m1.files[p1].doc.content == m2.files[p2].doc.content,
    ensures
        refresh_spec(m1, p1).files[p1].unit matches Some(u1)
            && refresh_spec(m2, p2).files[p2].unit matches Some(u2) && u1.nodes == u2.nodes
            && u1.diags == u2.diags,
{
    lemma_query_sees_latest_content(m1, p1);
    lemma_query_sees_latest_content(m2, p2);
}

/// The per-file lifecycle state, derived from the model: untracked until
/// discovered, discovered until first parsed, then alternating between
/// parsed and stale as edits and re-parses interleave.
pub enum FileState {
    Untracked,
    Discovered,
    Parsed,
    Stale,
}

pub open spec fn file_state(m: WsView, p: Seq<u8>) -> FileState {
    if !m.files.contains_key(p) {
        FileState::Untracked
    } else {
        match m.files[p].unit {
            None => FileState::Discovered,
            Some(u) => if u.version == m.files[p].doc.version {
                FileState::Parsed
            } else {
                FileState::Stale
            },
        }
    }
}

/// The state machine of each file: discovery or opening tracks it, an edit
/// of a parsed file makes it stale, a forced re-parse makes it parsed, and
/// removal untracks it. An edit never silently keeps a file "parsed": the
/// next reader will re-parse before trusting the tree.
pub proof fn lemma_file_state_transitions(m: WsView, p: Seq<u8>, c: Seq<u8>)
    requires
        ws_inv(m),
        m.files.contains_key(p) ==> m.files[p].doc.version < u64::MAX,
    ensures
        file_state(m, p) is Untracked ==> file_state(open_doc_spec(m, p, c), p)
            is Discovered,
        file_state(m, p) is Untracked ==> file_state(load_spec(m, p, c), p) is Discovered,
        file_state(m, p) is Parsed ==> file_state(edit_spec(m, p, c), p) is Stale,
        file_state(m, p) is Stale ==> file_state(edit_spec(m, p, c), p) is Stale,
        !(file_state(m, p) is Untracked) ==> file_state(refresh_spec(m, p), p) is Parsed,
        file_state(remove_doc_spec(m, p), p) is Untracked,
{
    if m.files.contains_key(p) {
        match m.files[p].unit {
            Some(u) => {
                assert(u.version <= m.files[p].doc.version);
                assert(edit_spec(m, p, c).files[p].unit == Some(u));
                assert(edit_spec(m, p, c).files[p].doc.version == m.files[p].doc.version + 1);
            },
            None => {},
        }
    }
}

/// Removal leaves no trace: after `remove(path)` the path is untracked, the
/// symbol index holds no entry defined in it, hover and go-to-definition
/// answer "not found", and a forced re-parse cannot resurrect it.
pub proof fn lemma_removed_leaves_no_trace(m: WsView, p: Seq<u8>, pos: usize)
    requires
        m.files.contains_key(p),
    ensures
        !remove_doc_spec(m, p).files.contains_key(p),
        forall|j: int|
            0 <= j < remove_doc_spec(m, p).symbols.len() ==> (#[trigger] remove_doc_spec(
                m,
                p,
            ).symbols[j].path) != p,
        hover_spec(remove_doc_spec(m, p), p, pos) is None,
        definition_spec(remove_doc_spec(m, p), p, pos) is None,
        refresh_spec(remove_doc_spec(m, p), p) == remove_doc_spec(m, p),
{
    lemma_remove_path_clean(m.symbols, p);
}

} // verus!
