//! The cross-file symbol index: a flat table of definition entries keyed by
//! qualified name. A file's entry set is extracted from its syntax tree and
//! replaced atomically whenever that tree is rebuilt. Lookup returns exact
//! matches of the qualified name first, then entries whose bare name matches,
//! each group ordered by (file path, offset) so results are deterministic.

use vstd::prelude::*;
use crate::bytes::{lex_le, lex_le_exec, bytes_eq, copy_bytes, append_bytes};
use crate::syntax::{SymKind, Node, NodeView, views_of, nodes_wf};

verus! {

/// One definition known to the index.
pub struct SymbolEntry {
    /// Scope-path-qualified name, segments joined by `::`.
    pub qualified: Vec<u8>,
    /// The bare (last-segment) name.
    pub name: Vec<u8>,
    pub kind: SymKind,
    /// The file the definition stands in.
    pub path: Vec<u8>,
    /// Byte span of the definition header in that file.
    pub start: usize,
    pub end: usize,
    /// Qualified name of the enclosing scope, empty at top level.
    pub scope: Vec<u8>,
    /// Parse stamp of the tree this entry came from; larger means more
    /// recently parsed.
    pub stamp: u64,
}

/// Mathematical image of a `SymbolEntry`.
#[verifier::ext_equal]
pub struct EntryView {
    pub qualified: Seq<u8>,
    pub name: Seq<u8>,
    pub kind: SymKind,
    pub path: Seq<u8>,
    pub start: usize,
    pub end: usize,
    pub scope: Seq<u8>,
    pub stamp: u64,
}

impl View for SymbolEntry {
    type V = EntryView;

    open spec fn view(&self) -> EntryView {
        EntryView {
            qualified: self.qualified@,
            name: self.name@,
            kind: self.kind,
            path: self.path@,
            start: self.start,
            end: self.end,
            scope: self.scope@,
            stamp: self.stamp,
        }
    }
}

pub open spec fn entry_views(s: Seq<SymbolEntry>) -> Seq<EntryView> {
    s.map_values(|e: SymbolEntry| e@)
}

/// The `::` separator of qualified names.
pub open spec fn scope_sep() -> Seq<u8> {
    seq![58u8, 58u8]
}

/// Qualified name of node `i`: the scope path from the root down to the
/// node, segments joined by `::`.
pub open spec fn qual_spec(nodes: Seq<NodeView>, i: int) -> Seq<u8>
    decreases i,
{
    if 0 <= i < nodes.len() {
        match nodes[i].parent {
            Some(p) => if (p as int) < i {
                qual_spec(nodes, p as int) + scope_sep() + nodes[i].name
            } else {
                nodes[i].name
            },
            None => nodes[i].name,
        }
    } else {
        Seq::empty()
    }
}

/// Qualified name of the scope enclosing node `i`, empty at top level.
pub open spec fn scope_of(nodes: Seq<NodeView>, i: int) -> Seq<u8> {
    if 0 <= i < nodes.len() {
        match nodes[i].parent {
            Some(p) => if (p as int) < i {
                qual_spec(nodes, p as int)
            } else {
                Seq::empty()
            },
            None => Seq::empty(),
        }
    } else {
        Seq::empty()
    }
}

/// Computes the qualified name of node `i`.
pub fn qual_name(nodes: &Vec<Node>, i: usize) -> (r: Vec<u8>)
    requires
        i < nodes@.len(),
        nodes_wf(views_of(nodes@)),
    ensures
        r@ == qual_spec(views_of(nodes@), i as int),
    decreases i,
{
    proof {
        assert(views_of(nodes@)[i as int] == nodes@[i as int]@);
    }
    match nodes[i].parent {
        Some(p) => {
            assert(views_of(nodes@)[i as int].parent == Some(p));
            assert((p as int) < i as int);
            let mut q = qual_name(nodes, p);
            q.push(58);
            q.push(58);
            let nm = copy_bytes(&nodes[i].name);
            append_bytes(&mut q, &nm);
            proof {
                assert(q@ =~= qual_spec(views_of(nodes@), p as int) + scope_sep()
                    + views_of(nodes@)[i as int].name);
            }
            q
        },
        None => {
            let r = copy_bytes(&nodes[i].name);
            r
        },
    }
}

/// The index entry derived from node `i` of the tree of file `path`.
pub open spec fn entry_of(nodes: Seq<NodeView>, i: int, path: Seq<u8>, stamp: u64) -> EntryView {
    EntryView {
        qualified: qual_spec(nodes, i),
        name: nodes[i].name,
        kind: nodes[i].kind,
        path: path,
        start: nodes[i].start,
        end: nodes[i].name_end,
        scope: scope_of(nodes, i),
        stamp: stamp,
    }
}

/// The full entry set of one file's tree.
pub open spec fn extract_spec(nodes: Seq<NodeView>, path: Seq<u8>, stamp: u64) -> Seq<EntryView> {
    Seq::new(nodes.len(), |i: int| entry_of(nodes, i, path, stamp))
}

/// Extracts the symbol entries of one file's tree, in node order.
pub fn extract(nodes: &Vec<Node>, path: &Vec<u8>, stamp: u64) -> (r: Vec<SymbolEntry>)
    requires
        nodes_wf(views_of(nodes@)),
    ensures
        entry_views(r@) == extract_spec(views_of(nodes@), path@, stamp),
{
    let mut r: Vec<SymbolEntry> = Vec::new();
    let n = nodes.len();
    let mut i: usize = 0;
    while i < n
        invariant
            n == nodes@.len(),
            i <= n,
            nodes_wf(views_of(nodes@)),
            entry_views(r@) =~= extract_spec(views_of(nodes@), path@, stamp).subrange(
                0,
                i as int,
            ),
        decreases n - i,
    {
        proof {
            assert(views_of(nodes@)[i as int] == nodes@[i as int]@);
        }
        let qualified = qual_name(nodes, i);
        let scope = match nodes[i].parent {
            Some(p) => {
                assert(views_of(nodes@)[i as int].parent == Some(p));
                assert((p as int) < i as int);
                qual_name(nodes, p)
            },
            None => Vec::new(),
        };
        let e = SymbolEntry {
            qualified,
            name: copy_bytes(&nodes[i].name),
            kind: nodes[i].kind,
            path: copy_bytes(path),
            start: nodes[i].start,
            end: nodes[i].name_end,
            scope,
            stamp,
        };
        proof {
            assert(e@ =~= entry_of(views_of(nodes@), i as int, path@, stamp));
        }
        let ghost prev = r@;
        r.push(e);
        i += 1;
        proof {
            assert(entry_views(r@) =~= entry_views(prev).push(
                entry_of(views_of(nodes@), i - 1, path@, stamp),
            ));
            assert(entry_views(r@) =~= extract_spec(views_of(nodes@), path@, stamp).subrange(
                0,
                i as int,
            ));
        }
    }
    proof {
        assert(extract_spec(views_of(nodes@), path@, stamp).subrange(0, n as int)
            =~= extract_spec(views_of(nodes@), path@, stamp));
    }
    r
}

/// A fresh copy of an entry.
pub fn entry_clone(e: &SymbolEntry) -> (r: SymbolEntry)
    ensures
        r@ == e@,
{
    let r = SymbolEntry {
        qualified: copy_bytes(&e.qualified),
        name: copy_bytes(&e.name),
        kind: e.kind,
        path: copy_bytes(&e.path),
        start: e.start,
        end: e.end,
        scope: copy_bytes(&e.scope),
        stamp: e.stamp,
    };
    proof {
        assert(r@ =~= e@);
    }
    r
}

/// The index with every entry of file `p` removed, order otherwise kept.
pub open spec fn remove_path_spec(s: Seq<EntryView>, p: Seq<u8>) -> Seq<EntryView>
    decreases s.len(),
{
    if s.len() == 0 {
        s
    } else {
        let rest = remove_path_spec(s.drop_last(), p);
        if s.last().path == p {
            rest
        } else {
            rest.push(s.last())
        }
    }
}

pub proof fn lemma_remove_path_clean(s: Seq<EntryView>, p: Seq<u8>)
    ensures
        forall|j: int|
            0 <= j < remove_path_spec(s, p).len() ==> #[trigger] remove_path_spec(s, p)[j].path
                != p,
    decreases s.len(),
{
    if s.len() > 0 {
        lemma_remove_path_clean(s.drop_last(), p);
    }
}

/// Exact match: the query names the entry's full qualified name.
pub open spec fn is_exact(e: EntryView, q: Seq<u8>) -> bool {
    e.qualified == q
}

/// Name match: the query names the entry's bare name, but not its full
/// qualified name.
pub open spec fn is_name_match(e: EntryView, q: Seq<u8>) -> bool {
    e.name == q && e.qualified != q
}

pub open spec fn filter_exact(s: Seq<EntryView>, q: Seq<u8>) -> Seq<EntryView>
    decreases s.len(),
{
    if s.len() == 0 {
        s
    } else {
        let rest = filter_exact(s.drop_last(), q);
        if is_exact(s.last(), q) {
            rest.push(s.last())
        } else {
            rest
        }
    }
}

pub open spec fn filter_name(s: Seq<EntryView>, q: Seq<u8>) -> Seq<EntryView>
    decreases s.len(),
{
    if s.len() == 0 {
        s
    } else {
        let rest = filter_name(s.drop_last(), q);
        if is_name_match(s.last(), q) {
            rest.push(s.last())
        } else {
            rest
        }
    }
}

/// Deterministic order on resolution candidates: by file path, ties by
/// start offset.
pub open spec fn loc_le(a: EntryView, b: EntryView) -> bool {
    if a.path == b.path {
        a.start <= b.start
    } else {
        lex_le(a.path, b.path)
    }
}

fn loc_le_exec(a: &SymbolEntry, b: &SymbolEntry) -> (r: bool)
    ensures
        r == loc_le(a@, b@),
{
    if bytes_eq(&a.path, &b.path) {
        a.start <= b.start
    } else {
        lex_le_exec(&a.path, &b.path)
    }
}

pub open spec fn insert_loc(s: Seq<EntryView>, e: EntryView) -> Seq<EntryView>
    decreases s.len(),
{
    if s.len() == 0 {
        seq![e]
    } else if loc_le(e, s[0]) {
        seq![e] + s
    } else {
        seq![s[0]] + insert_loc(s.skip(1), e)
    }
}

/// Insertion sort by `loc_le`, stable for equal keys.
pub open spec fn sort_loc(s: Seq<EntryView>) -> Seq<EntryView>
    decreases s.len(),
{
    if s.len() == 0 {
        s
    } else {
        insert_loc(sort_loc(s.drop_last()), s.last())
    }
}

proof fn lemma_insert_loc_at(s: Seq<EntryView>, e: EntryView, j: int)
    requires
        0 <= j <= s.len(),
        forall|k: int| 0 <= k < j ==> !loc_le(e, #[trigger] s[k]),
        j < s.len() ==> loc_le(e, s[j]),
    ensures
        insert_loc(s, e) == s.subrange(0, j) + seq![e] + s.skip(j),
    decreases j,
{
    if j == 0 {
        if s.len() == 0 {
            assert(insert_loc(s, e) =~= s.subrange(0, 0) + seq![e] + s.skip(0));
        } else {
            assert(insert_loc(s, e) =~= s.subrange(0, 0) + seq![e] + s.skip(0));
        }
    } else {
        assert(!loc_le(e, s[0]));
        lemma_insert_loc_at(s.skip(1), e, j - 1);
        assert(insert_loc(s, e) == seq![s[0]] + insert_loc(s.skip(1), e));
        assert(insert_loc(s, e) =~= s.subrange(0, j) + seq![e] + s.skip(j)) by {
            assert(s.skip(1).subrange(0, j - 1) =~= s.subrange(1, j));
            assert(s.skip(1).skip(j - 1) =~= s.skip(j));
        }
    }
}

/// Inserts `e` into the sorted vector `v` at its `loc_le` position.
fn insert_sorted_loc(v: &mut Vec<SymbolEntry>, e: SymbolEntry)
    ensures
        entry_views(final(v)@) == insert_loc(entry_views(old(v)@), e@),
{
    let mut j: usize = 0;
    while j < v.len() && !loc_le_exec(&e, &v[j])
        invariant
            j <= v@.len(),
            v@ == old(v)@,
            forall|k: int| 0 <= k < j ==> !loc_le(e@, #[trigger] entry_views(v@)[k]),
        decreases v@.len() - j,
    {
        proof {
            assert(entry_views(v@)[j as int] == v@[j as int]@);
        }
        j += 1;
    }
    proof {
        if j < v@.len() {
            assert(entry_views(v@)[j as int] == v@[j as int]@);
        }
        lemma_insert_loc_at(entry_views(v@), e@, j as int);
    }
    v.insert(j, e);
    proof {
        assert(entry_views(v@) =~= entry_views(old(v)@).subrange(0, j as int) + seq![e@]
            + entry_views(old(v)@).skip(j as int));
    }
}

/// Sorts candidate entries by `loc_le`.
fn sort_entries(cands: Vec<SymbolEntry>) -> (r: Vec<SymbolEntry>)
    ensures
        entry_views(r@) == sort_loc(entry_views(cands@)),
{
    let mut r: Vec<SymbolEntry> = Vec::new();
    let n = cands.len();
    let mut i: usize = 0;
    while i < n
        invariant
            n == cands@.len(),
            i <= n,
            entry_views(r@) == sort_loc(entry_views(cands@).subrange(0, i as int)),
        decreases n - i,
    {
        proof {
            assert(entry_views(cands@)[i as int] == cands@[i as int]@);
        }
        let e = entry_clone(&cands[i]);
        insert_sorted_loc(&mut r, e);
        i += 1;
        proof {
            let pre = entry_views(cands@).subrange(0, i as int);
            assert(pre.drop_last() =~= entry_views(cands@).subrange(0, i - 1));
            assert(pre.last() == cands@[i - 1]@);
        }
    }
    proof {
        assert(entry_views(cands@).subrange(0, n as int) =~= entry_views(cands@));
    }
    r
}

/// Resolution result order: exact matches first, then bare-name matches,
/// each group sorted by (path, offset).
pub open spec fn resolve_spec(s: Seq<EntryView>, q: Seq<u8>) -> Seq<EntryView> {
    sort_loc(filter_exact(s, q)) + sort_loc(filter_name(s, q))
}

/// Looks up a name in the index: all entries whose qualified or bare name
/// equals `q`, exact matches first, deterministically ordered.
pub fn resolve(index: &Vec<SymbolEntry>, q: &Vec<u8>) -> (r: Vec<SymbolEntry>)
    ensures
        entry_views(r@) == resolve_spec(entry_views(index@), q@),
{
    let n = index.len();
    let mut exact: Vec<SymbolEntry> = Vec::new();
    let mut named: Vec<SymbolEntry> = Vec::new();
    let mut i: usize = 0;
    while i < n
        invariant
            n == index@.len(),
            i <= n,
            entry_views(exact@) == filter_exact(entry_views(index@).subrange(0, i as int), q@),
            entry_views(named@) == filter_name(entry_views(index@).subrange(0, i as int), q@),
        decreases n - i,
    {
        proof {
            assert(entry_views(index@)[i as int] == index@[i as int]@);
        }
        let e = &index[i];
        let qual_eq = bytes_eq(&e.qualified, q);
        let name_eq = bytes_eq(&e.name, q);
        if qual_eq {
            exact.push(entry_clone(e));
        } else if name_eq {
            named.push(entry_clone(e));
        }
        i += 1;
        proof {
            let pre = entry_views(index@).subrange(0, i as int);
            assert(pre.drop_last() =~= entry_views(index@).subrange(0, i - 1));
            assert(pre.last() == index@[i - 1]@);
            assert(entry_views(exact@) =~= filter_exact(pre, q@));
            assert(entry_views(named@) =~= filter_name(pre, q@));
        }
    }
    proof {
        assert(entry_views(index@).subrange(0, n as int) =~= entry_views(index@));
    }
    let mut r = sort_entries(exact);
    let sorted_named = sort_entries(named);
    let mut k: usize = 0;
    let m = sorted_named.len();
    while k < m
        invariant
            m == sorted_named@.len(),
            k <= m,
            entry_views(r@) =~= sort_loc(filter_exact(entry_views(index@), q@)) + entry_views(
                sorted_named@,
            ).subrange(0, k as int),
        decreases m - k,
    {
        proof {
            assert(entry_views(sorted_named@)[k as int] == sorted_named@[k as int]@);
        }
        let ghost prev = r@;
        let cloned = entry_clone(&sorted_named[k]);
        r.push(cloned);
        k += 1;
        proof {
            assert(entry_views(r@) =~= entry_views(prev).push(
                entry_views(sorted_named@)[k - 1],
            ));
        }
    }
    proof {
        assert(entry_views(sorted_named@).subrange(0, m as int) =~= entry_views(sorted_named@));
        assert(entry_views(r@) =~= resolve_spec(entry_views(index@), q@));
    }
    r
}

/// Index (within a non-empty candidate list) of the preferred entry: the
/// most recently parsed one, earliest position winning ties.
pub open spec fn best_upto(s: Seq<EntryView>, k: int) -> int
    decreases k,
{
    if k <= 1 {
        0
    } else {
        let b = best_upto(s, k - 1);
        if s[k - 1].stamp > s[b].stamp {
            k - 1
        } else {
            b
        }
    }
}

pub open spec fn best_of(s: Seq<EntryView>) -> int {
    best_upto(s, s.len() as int)
}

pub proof fn lemma_best_in_range(s: Seq<EntryView>, k: int)
    requires
        1 <= k <= s.len(),
    ensures
        0 <= best_upto(s, k) < k,
    decreases k,
{
    if k > 1 {
        lemma_best_in_range(s, k - 1);
    }
}

/// Picks the preferred candidate: largest stamp, first among ties.
pub fn best_index(v: &Vec<SymbolEntry>) -> (r: usize)
    requires
        v@.len() > 0,
    ensures
        r as int == best_of(entry_views(v@)),
        r < v@.len(),
{
    let mut best: usize = 0;
    let mut k: usize = 1;
    let n = v.len();
    proof {
        lemma_best_in_range(entry_views(v@), v@.len() as int);
    }
    while k < n
        invariant
            1 <= k <= n,
            n == v@.len(),
            best < k,
            best as int == best_upto(entry_views(v@), k as int),
        decreases n - k,
    {
        proof {
            assert(entry_views(v@)[k as int] == v@[k as int]@);
            assert(entry_views(v@)[best as int] == v@[best as int]@);
        }
        if v[k].stamp > v[best].stamp {
            best = k;
        }
        k += 1;
    }
    best
}

} // verus!
