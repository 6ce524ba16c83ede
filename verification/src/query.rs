//! Position-addressed queries against the workspace: hover, go-to-definition
//! and completion. Every query first forces the queried file's parse fresh
//! (`ensureFresh`), then walks the tree and the symbol index of that
//! now-consistent snapshot. Untracked paths and positions outside any node
//! yield an explicit "nothing found" value, never an error.

use vstd::prelude::*;
use crate::bytes::{
    bytes_eq, copy_bytes, sub_bytes, word_start, word_span_at, word_at, word_byte, is_prefix,
    starts_with, lex_le, lex_le_exec,
};
use crate::symbols::{
    SymbolEntry, EntryView, entry_views, qual_spec, qual_name, resolve, resolve_spec, best_of,
    best_index,
};
use crate::syntax::{Node, NodeView, SymKind, views_of, nodes_wf};
use crate::workspace::{Workspace, WsView, refresh_spec};

verus! {

/// A resolved source location.
pub struct Location {
    pub path: Vec<u8>,
    pub start: usize,
    pub end: usize,
}

#[verifier::ext_equal]
pub struct LocationView {
    pub path: Seq<u8>,
    pub start: usize,
    pub end: usize,
}

impl View for Location {
    type V = LocationView;

    open spec fn view(&self) -> LocationView {
        LocationView { path: self.path@, start: self.start, end: self.end }
    }
}

/// What hover reports: the kind and qualified name of the smallest
/// definition node whose span contains the position.
pub struct Hover {
    pub kind: SymKind,
    pub qualified: Vec<u8>,
    pub start: usize,
    pub end: usize,
}

#[verifier::ext_equal]
pub struct HoverView {
    pub kind: SymKind,
    pub qualified: Seq<u8>,
    pub start: usize,
    pub end: usize,
}

impl View for Hover {
    type V = HoverView;

    open spec fn view(&self) -> HoverView {
        HoverView {
            kind: self.kind,
            qualified: self.qualified@,
            start: self.start,
            end: self.end,
        }
    }
}

pub open spec fn node_contains(n: NodeView, pos: usize) -> bool {
    n.start <= pos < n.end
}

pub open spec fn span_len(n: NodeView) -> int {
    n.end - n.start
}

/// Index of the smallest node among the first `k` whose span contains
/// `pos`; earlier nodes win ties.
pub open spec fn innermost_upto(nodes: Seq<NodeView>, pos: usize, k: int) -> Option<int>
    decreases k,
{
    if k <= 0 {
        None
    } else {
        let r = innermost_upto(nodes, pos, k - 1);
        if node_contains(nodes[k - 1], pos) && (match r {
            Some(b) => span_len(nodes[k - 1]) < span_len(nodes[b]),
            None => true,
        }) {
            Some(k - 1)
        } else {
            r
        }
    }
}

pub open spec fn innermost(nodes: Seq<NodeView>, pos: usize) -> Option<int> {
    innermost_upto(nodes, pos, nodes.len() as int)
}

pub proof fn lemma_innermost_in_range(nodes: Seq<NodeView>, pos: usize, k: int)
    requires
        k <= nodes.len(),
    ensures
        innermost_upto(nodes, pos, k) matches Some(j) ==> 0 <= j < k && node_contains(
            nodes[j],
            pos,
        ),
    decreases k,
{
    if k > 0 {
        lemma_innermost_in_range(nodes, pos, k - 1);
    }
}

/// What hover answers on the model: the innermost definition node around
/// the position, or nothing.
pub open spec fn hover_spec(m: WsView, p: Seq<u8>, pos: usize) -> Option<HoverView> {
    if !m.files.contains_key(p) {
        None
    } else {
        match m.files[p].unit {
            None => None,
            Some(u) => match innermost(u.nodes, pos) {
                None => None,
                Some(j) => Some(
                    HoverView {
                        kind: u.nodes[j].kind,
                        qualified: qual_spec(u.nodes, j),
                        start: u.nodes[j].start,
                        end: u.nodes[j].end,
                    },
                ),
            },
        }
    }
}

pub open spec fn hover_view_of(r: Option<Hover>) -> Option<HoverView> {
    match r {
        Some(h) => Some(h@),
        None => None,
    }
}

/// Scans for the smallest node containing `pos`.
fn innermost_exec(nodes: &Vec<Node>, pos: usize) -> (r: Option<usize>)
    ensures
        match r {
            Some(j) => innermost(views_of(nodes@), pos) == Some(j as int) && j < nodes@.len(),
            None => innermost(views_of(nodes@), pos) is None,
        },
{
    let n = nodes.len();
    let mut best: Option<usize> = None;
    let mut k: usize = 0;
    while k < n
        invariant
            n == nodes@.len(),
            k <= n,
            match best {
                Some(b) => innermost_upto(views_of(nodes@), pos, k as int) == Some(b as int) && b
                    < k,
                None => innermost_upto(views_of(nodes@), pos, k as int) is None,
            },
        decreases n - k,
    {
        proof {
            assert(views_of(nodes@)[k as int] == nodes@[k as int]@);
        }
        let nd = &nodes[k];
        if nd.start <= pos && pos < nd.end {
            let better = match best {
                Some(b) => {
                    proof {
                        assert(views_of(nodes@)[b as int] == nodes@[b as int]@);
                        lemma_innermost_in_range(views_of(nodes@), pos, k as int);
                    }
                    // both nodes contain `pos`, so neither subtraction wraps
                    nd.end - nd.start < nodes[b].end - nodes[b].start
                },
                None => true,
            };
            if better {
                best = Some(k);
            }
        }
        k += 1;
    }
    best
}

/// The identifier word under the cursor, if any.
pub open spec fn word_query(s: Seq<u8>, pos: usize) -> Option<Seq<u8>> {
    match word_span_at(s, pos as int) {
        Some((ws, we)) => Some(s.subrange(ws, we)),
        None => None,
    }
}

/// First node (in tree order) that is a child of `scope` and bears name `w`.
pub open spec fn member_upto(
    nodes: Seq<NodeView>,
    scope: Option<usize>,
    w: Seq<u8>,
    k: int,
) -> Option<int>
    decreases k,
{
    if k <= 0 {
        None
    } else {
        match member_upto(nodes, scope, w, k - 1) {
            Some(j) => Some(j),
            None => if nodes[k - 1].parent == scope && nodes[k - 1].name == w {
                Some(k - 1)
            } else {
                None
            },
        }
    }
}

pub open spec fn member_of(nodes: Seq<NodeView>, scope: Option<usize>, w: Seq<u8>) -> Option<
    int,
> {
    member_upto(nodes, scope, w, nodes.len() as int)
}

/// Lexical resolution: look for `w` among the members of `scope`, then of
/// each enclosing scope outward, the file's top level last.
pub open spec fn scope_resolve(nodes: Seq<NodeView>, scope: Option<usize>, w: Seq<u8>) -> Option<
    int,
>
    decreases
            (match scope {
                Some(s) => s + 1,
                None => 0,
            }),
{
    match member_of(nodes, scope, w) {
        Some(j) => Some(j),
        None => match scope {
            Some(s) => if 0 <= (s as int) < nodes.len() {
                match nodes[s as int].parent {
                    Some(p) => if (p as int) < (s as int) {
                        scope_resolve(nodes, Some(p), w)
                    } else {
                        None
                    },
                    None => scope_resolve(nodes, None, w),
                }
            } else {
                None
            },
            None => None,
        },
    }
}

/// The lexical scope at a position: the innermost scoped definition whose
/// span contains it (a constant stands for its enclosing scope).
pub open spec fn scope_at(nodes: Seq<NodeView>, pos: usize) -> Option<usize> {
    match innermost(nodes, pos) {
        Some(j) => if nodes[j].kind is Constant {
            nodes[j].parent
        } else {
            Some(j as usize)
        },
        None => None,
    }
}

pub open spec fn loc_of(e: EntryView) -> LocationView {
    LocationView { path: e.path, start: e.start, end: e.end }
}

pub open spec fn locs_of(s: Seq<EntryView>) -> Seq<LocationView> {
    s.map_values(|e: EntryView| loc_of(e))
}

pub open spec fn loc_views(s: Seq<Location>) -> Seq<LocationView> {
    s.map_values(|l: Location| l@)
}

/// What go-to-definition answers on the model: the identifier under the
/// position resolved lexically first, then through the symbol index, the
/// preferred (most recently parsed) candidate as primary and the rest, in
/// resolution order, as alternates.
pub open spec fn definition_spec(m: WsView, p: Seq<u8>, pos: usize) -> Option<
    (LocationView, Seq<LocationView>),
> {
    if !m.files.contains_key(p) {
        None
    } else {
        match m.files[p].unit {
            None => None,
            Some(u) => match word_query(m.files[p].doc.content, pos) {
                None => None,
                Some(w) => match scope_resolve(u.nodes, scope_at(u.nodes, pos), w) {
                    Some(j) => Some(
                        (
                            LocationView {
                                path: p,
                                start: u.nodes[j].start,
                                end: u.nodes[j].name_end,
                            },
                            Seq::empty(),
                        ),
                    ),
                    None => {
                        let cands = resolve_spec(m.symbols, w);
                        if cands.len() == 0 {
                            None
                        } else {
                            let b = best_of(cands);
                            Some((loc_of(cands[b]), locs_of(cands.remove(b))))
                        }
                    },
                },
            },
        }
    }
}

/// A definition answer: the preferred location plus any alternates.
pub struct Definition {
    pub primary: Location,
    pub alternates: Vec<Location>,
}

pub open spec fn def_view_of(r: Option<Definition>) -> Option<
    (LocationView, Seq<LocationView>),
> {
    match r {
        Some(d) => Some((d.primary@, loc_views(d.alternates@))),
        None => None,
    }
}

/// One completion candidate.
pub struct Completion {
    pub name: Vec<u8>,
    pub qualified: Vec<u8>,
    pub kind: SymKind,
    pub path: Vec<u8>,
}

#[verifier::ext_equal]
pub struct CompView {
    pub name: Seq<u8>,
    pub qualified: Seq<u8>,
    pub kind: SymKind,
    pub path: Seq<u8>,
}

impl View for Completion {
    type V = CompView;

    open spec fn view(&self) -> CompView {
        CompView {
            name: self.name@,
            qualified: self.qualified@,
            kind: self.kind,
            path: self.path@,
        }
    }
}

pub open spec fn comp_views(s: Seq<Completion>) -> Seq<CompView> {
    s.map_values(|c: Completion| c@)
}

/// Lexical order on completion candidates: by name, ties by qualified name,
/// then by path.
pub open spec fn name_le(a: CompView, b: CompView) -> bool {
    if a.name != b.name {
        lex_le(a.name, b.name)
    } else if a.qualified != b.qualified {
        lex_le(a.qualified, b.qualified)
    } else {
        lex_le(a.path, b.path)
    }
}

pub open spec fn insert_comp(s: Seq<CompView>, e: CompView) -> Seq<CompView>
    decreases s.len(),
{
    if s.len() == 0 {
        seq![e]
    } else if name_le(e, s[0]) {
        seq![e] + s
    } else {
        seq![s[0]] + insert_comp(s.skip(1), e)
    }
}

/// Insertion sort by `name_le`, stable for equal keys.
pub open spec fn sort_comp(s: Seq<CompView>) -> Seq<CompView>
    decreases s.len(),
{
    if s.len() == 0 {
        s
    } else {
        insert_comp(sort_comp(s.drop_last()), s.last())
    }
}

proof fn lemma_insert_comp_at(s: Seq<CompView>, e: CompView, j: int)
    requires
        0 <= j <= s.len(),
        forall|k: int| 0 <= k < j ==> !name_le(e, #[trigger] s[k]),
        j < s.len() ==> name_le(e, s[j]),
    ensures
        insert_comp(s, e) == s.subrange(0, j) + seq![e] + s.skip(j),
    decreases j,
{
    if j == 0 {
        assert(insert_comp(s, e) =~= s.subrange(0, 0) + seq![e] + s.skip(0));
    } else {
        assert(!name_le(e, s[0]));
        lemma_insert_comp_at(s.skip(1), e, j - 1);
        assert(insert_comp(s, e) =~= s.subrange(0, j) + seq![e] + s.skip(j)) by {
            assert(s.skip(1).subrange(0, j - 1) =~= s.subrange(1, j));
            assert(s.skip(1).skip(j - 1) =~= s.skip(j));
        }
    }
}

fn comp_clone(c: &Completion) -> (r: Completion)
    ensures
        r@ == c@,
{
    let r = Completion {
        name: copy_bytes(&c.name),
        qualified: copy_bytes(&c.qualified),
        kind: c.kind,
        path: copy_bytes(&c.path),
    };
    proof {
        assert(r@ =~= c@);
    }
    r
}

fn name_le_exec(a: &Completion, b: &Completion) -> (r: bool)
    ensures
        r == name_le(a@, b@),
{
    if !bytes_eq(&a.name, &b.name) {
        lex_le_exec(&a.name, &b.name)
    } else if !bytes_eq(&a.qualified, &b.qualified) {
        lex_le_exec(&a.qualified, &b.qualified)
    } else {
        lex_le_exec(&a.path, &b.path)
    }
}

fn insert_sorted_comp(v: &mut Vec<Completion>, e: Completion)
    ensures
        comp_views(final(v)@) == insert_comp(comp_views(old(v)@), e@),
{
    let mut j: usize = 0;
    while j < v.len() && !name_le_exec(&e, &v[j])
        invariant
            j <= v@.len(),
            v@ == old(v)@,
            forall|k: int| 0 <= k < j ==> !name_le(e@, #[trigger] comp_views(v@)[k]),
        decreases v@.len() - j,
    {
        proof {
            assert(comp_views(v@)[j as int] == v@[j as int]@);
        }
        j += 1;
    }
    proof {
        if j < v@.len() {
            assert(comp_views(v@)[j as int] == v@[j as int]@);
        }
        lemma_insert_comp_at(comp_views(v@), e@, j as int);
    }
    v.insert(j, e);
    proof {
        assert(comp_views(v@) =~= comp_views(old(v)@).subrange(0, j as int) + seq![e@]
            + comp_views(old(v)@).skip(j as int));
    }
}

fn sort_comps(cands: Vec<Completion>) -> (r: Vec<Completion>)
    ensures
        comp_views(r@) == sort_comp(comp_views(cands@)),
{
    let mut r: Vec<Completion> = Vec::new();
    let n = cands.len();
    let mut i: usize = 0;
    while i < n
        invariant
            n == cands@.len(),
            i <= n,
            comp_views(r@) == sort_comp(comp_views(cands@).subrange(0, i as int)),
        decreases n - i,
    {
        proof {
            assert(comp_views(cands@)[i as int] == cands@[i as int]@);
        }
        let e = comp_clone(&cands[i]);
        insert_sorted_comp(&mut r, e);
        i += 1;
        proof {
            let pre = comp_views(cands@).subrange(0, i as int);
            assert(pre.drop_last() =~= comp_views(cands@).subrange(0, i - 1));
            assert(pre.last() == cands@[i - 1]@);
        }
    }
    proof {
        assert(comp_views(cands@).subrange(0, n as int) =~= comp_views(cands@));
    }
    r
}

/// The candidate a definition node contributes.
pub open spec fn comp_of_node(nodes: Seq<NodeView>, j: int, p: Seq<u8>) -> CompView {
    CompView {
        name: nodes[j].name,
        qualified: qual_spec(nodes, j),
        kind: nodes[j].kind,
        path: p,
    }
}

/// The candidate an index entry contributes.
pub open spec fn comp_of_entry(e: EntryView) -> CompView {
    CompView { name: e.name, qualified: e.qualified, kind: e.kind, path: e.path }
}

/// The members of one scope whose names start with `prefix`, in tree order.
pub open spec fn members_upto(
    nodes: Seq<NodeView>,
    scope: Option<usize>,
    prefix: Seq<u8>,
    p: Seq<u8>,
    k: int,
) -> Seq<CompView>
    decreases k,
{
    if k <= 0 {
        Seq::empty()
    } else {
        let rest = members_upto(nodes, scope, prefix, p, k - 1);
        if nodes[k - 1].parent == scope && is_prefix(prefix, nodes[k - 1].name) {
            rest.push(comp_of_node(nodes, k - 1, p))
        } else {
            rest
        }
    }
}

pub open spec fn members_of_scope(
    nodes: Seq<NodeView>,
    scope: Option<usize>,
    prefix: Seq<u8>,
    p: Seq<u8>,
) -> Seq<CompView> {
    members_upto(nodes, scope, prefix, p, nodes.len() as int)
}

/// Scope-chain candidates: the innermost scope's members first, each scope's
/// group in lexical order.
pub open spec fn chain_comps(
    nodes: Seq<NodeView>,
    scope: Option<usize>,
    prefix: Seq<u8>,
    p: Seq<u8>,
) -> Seq<CompView>
    decreases
            (match scope {
                Some(s) => s + 1,
                None => 0,
            }),
{
    match scope {
        Some(s) => if 0 <= (s as int) < nodes.len() {
            sort_comp(members_of_scope(nodes, Some(s), prefix, p)) + (match nodes[
                s as int
            ].parent {
                Some(pp) => if (pp as int) < (s as int) {
                    chain_comps(nodes, Some(pp), prefix, p)
                } else {
                    Seq::empty()
                },
                None => chain_comps(nodes, None, prefix, p),
            })
        } else {
            Seq::empty()
        },
        None => sort_comp(members_of_scope(nodes, None, prefix, p)),
    }
}

/// Index candidates: entries of other files whose bare name starts with
/// `prefix`.
pub open spec fn index_matches(s: Seq<EntryView>, prefix: Seq<u8>, p: Seq<u8>) -> Seq<CompView>
    decreases s.len(),
{
    if s.len() == 0 {
        Seq::empty()
    } else {
        let rest = index_matches(s.drop_last(), prefix, p);
        if s.last().path != p && is_prefix(prefix, s.last().name) {
            rest.push(comp_of_entry(s.last()))
        } else {
            rest
        }
    }
}

/// The word fragment ending at the cursor, the completion query.
pub open spec fn completion_prefix(s: Seq<u8>, pos: usize) -> Seq<u8> {
    if pos <= s.len() {
        s.subrange(word_start(s, pos as int), pos as int)
    } else {
        Seq::empty()
    }
}

/// What completion answers on the model: scope-chain members innermost
/// first, then index matches from other files, each group in lexical order.
pub open spec fn completions_spec(m: WsView, p: Seq<u8>, pos: usize) -> Seq<CompView> {
    if !m.files.contains_key(p) {
        Seq::empty()
    } else {
        match m.files[p].unit {
            None => Seq::empty(),
            Some(u) => {
                let prefix = completion_prefix(m.files[p].doc.content, pos);
                chain_comps(u.nodes, scope_at(u.nodes, pos), prefix, p) + sort_comp(
                    index_matches(m.symbols, prefix, p),
                )
            },
        }
    }
}

fn opt_usize_eq(a: Option<usize>, b: Option<usize>) -> (r: bool)
    ensures
        r == (a == b),
{
    match (a, b) {
        (Some(x), Some(y)) => x == y,
        (None, None) => true,
        _ => false,
    }
}

proof fn lemma_member_persists(
    nodes: Seq<NodeView>,
    scope: Option<usize>,
    w: Seq<u8>,
    k1: int,
    k2: int,
)
    requires
        0 <= k1 <= k2,
        member_upto(nodes, scope, w, k1) is Some,
    ensures
        member_upto(nodes, scope, w, k2) == member_upto(nodes, scope, w, k1),
    decreases k2,
{
    if k2 > k1 {
        lemma_member_persists(nodes, scope, w, k1, k2 - 1);
    }
}

fn member_exec(nodes: &Vec<Node>, scope: Option<usize>, w: &Vec<u8>) -> (r: Option<usize>)
    ensures
        match r {
            Some(j) => member_of(views_of(nodes@), scope, w@) == Some(j as int) && j
                < nodes@.len(),
            None => member_of(views_of(nodes@), scope, w@) is None,
        },
{
    let n = nodes.len();
    let mut k: usize = 0;
    while k < n
        invariant
            n == nodes@.len(),
            k <= n,
            member_upto(views_of(nodes@), scope, w@, k as int) is None,
        decreases n - k,
    {
        proof {
            assert(views_of(nodes@)[k as int] == nodes@[k as int]@);
        }
        let same_scope = opt_usize_eq(nodes[k].parent, scope);
        if same_scope && bytes_eq(&nodes[k].name, w) {
            proof {
                assert(member_upto(views_of(nodes@), scope, w@, k + 1) == Some(k as int));
                lemma_member_persists(views_of(nodes@), scope, w@, k + 1, nodes@.len() as int);
            }
            return Some(k);
        }
        k += 1;
    }
    None
}

fn scope_resolve_exec(nodes: &Vec<Node>, scope: Option<usize>, w: &Vec<u8>) -> (r: Option<usize>)
    requires
        nodes_wf(views_of(nodes@)),
        scope matches Some(s) ==> s < nodes@.len(),
    ensures
        match r {
            Some(j) => scope_resolve(views_of(nodes@), scope, w@) == Some(j as int) && j
                < nodes@.len(),
            None => scope_resolve(views_of(nodes@), scope, w@) is None,
        },
    decreases
            (match scope {
                Some(s) => s as int + 1,
                None => 0,
            }),
{
    match member_exec(nodes, scope, w) {
        Some(j) => Some(j),
        None => match scope {
            Some(s) => {
                proof {
                    assert(views_of(nodes@)[s as int] == nodes@[s as int]@);
                }
                match nodes[s].parent {
                    Some(p) => {
                        assert((p as int) < (s as int));
                        scope_resolve_exec(nodes, Some(p), w)
                    },
                    None => scope_resolve_exec(nodes, None, w),
                }
            },
            None => None,
        },
    }
}

fn members_exec(nodes: &Vec<Node>, scope: Option<usize>, prefix: &Vec<u8>, path: &Vec<u8>) -> (r:
    Vec<Completion>)
    requires
        nodes_wf(views_of(nodes@)),
    ensures
        comp_views(r@) == members_of_scope(views_of(nodes@), scope, prefix@, path@),
{
    let n = nodes.len();
    let mut r: Vec<Completion> = Vec::new();
    let mut k: usize = 0;
    while k < n
        invariant
            n == nodes@.len(),
            k <= n,
            nodes_wf(views_of(nodes@)),
            comp_views(r@) == members_upto(views_of(nodes@), scope, prefix@, path@, k as int),
        decreases n - k,
    {
        proof {
            assert(views_of(nodes@)[k as int] == nodes@[k as int]@);
        }
        let same_scope = opt_usize_eq(nodes[k].parent, scope);
        let ghost prev = r@;
        if same_scope && starts_with(&nodes[k].name, prefix) {
            let q = qual_name(nodes, k);
            let c = Completion {
                name: copy_bytes(&nodes[k].name),
                qualified: q,
                kind: nodes[k].kind,
                path: copy_bytes(path),
            };
            proof {
                assert(c@ =~= comp_of_node(views_of(nodes@), k as int, path@));
            }
            r.push(c);
            proof {
                assert(comp_views(r@) =~= comp_views(prev).push(
                    comp_of_node(views_of(nodes@), k as int, path@),
                ));
            }
        }
        k += 1;
    }
    r
}

fn chain_exec(nodes: &Vec<Node>, scope: Option<usize>, prefix: &Vec<u8>, path: &Vec<u8>) -> (r:
    Vec<Completion>)
    requires
        nodes_wf(views_of(nodes@)),
        scope matches Some(s) ==> s < nodes@.len(),
    ensures
        comp_views(r@) == chain_comps(views_of(nodes@), scope, prefix@, path@),
    decreases
            (match scope {
                Some(s) => s as int + 1,
                None => 0,
            }),
{
    let group = members_exec(nodes, scope, prefix, path);
    let mut sorted = sort_comps(group);
    match scope {
        Some(s) => {
            proof {
                assert(views_of(nodes@)[s as int] == nodes@[s as int]@);
            }
            match nodes[s].parent {
                Some(pp) => {
                    assert((pp as int) < (s as int));
                    let mut rest = chain_exec(nodes, Some(pp), prefix, path);
                    let ghost a = sorted@;
                    let ghost b = rest@;
                    sorted.append(&mut rest);
                    proof {
                        assert(comp_views(sorted@) =~= comp_views(a) + comp_views(b));
                    }
                },
                None => {
                    let mut rest = chain_exec(nodes, None, prefix, path);
                    let ghost a = sorted@;
                    let ghost b = rest@;
                    sorted.append(&mut rest);
                    proof {
                        assert(comp_views(sorted@) =~= comp_views(a) + comp_views(b));
                    }
                },
            }
        },
        None => {},
    }
    sorted
}

fn index_matches_exec(symbols: &Vec<SymbolEntry>, prefix: &Vec<u8>, path: &Vec<u8>) -> (r: Vec<
    Completion,
>)
    ensures
        comp_views(r@) == index_matches(entry_views(symbols@), prefix@, path@),
{
    let n = symbols.len();
    let mut r: Vec<Completion> = Vec::new();
    let mut k: usize = 0;
    while k < n
        invariant
            n == symbols@.len(),
            k <= n,
            comp_views(r@) == index_matches(
                entry_views(symbols@).subrange(0, k as int),
                prefix@,
                path@,
            ),
        decreases n - k,
    {
        proof {
            assert(entry_views(symbols@)[k as int] == symbols@[k as int]@);
        }
        let e = &symbols[k];
        let ghost prev = r@;
        let other = !bytes_eq(&e.path, path);
        if other && starts_with(&e.name, prefix) {
            let c = Completion {
                name: copy_bytes(&e.name),
                qualified: copy_bytes(&e.qualified),
                kind: e.kind,
                path: copy_bytes(&e.path),
            };
            proof {
                assert(c@ =~= comp_of_entry(symbols@[k as int]@));
            }
            r.push(c);
            proof {
                assert(comp_views(r@) =~= comp_views(prev).push(
                    comp_of_entry(symbols@[k as int]@),
                ));
            }
        }
        k += 1;
        proof {
            let pre = entry_views(symbols@).subrange(0, k as int);
            assert(pre.drop_last() =~= entry_views(symbols@).subrange(0, k - 1));
            assert(pre.last() == symbols@[k - 1]@);
            assert(comp_views(r@) =~= index_matches(pre, prefix@, path@));
        }
    }
    proof {
        assert(entry_views(symbols@).subrange(0, n as int) =~= entry_views(symbols@));
    }
    r
}

/// The word fragment that ends at the cursor offset.
fn prefix_exec(content: &Vec<u8>, pos: usize) -> (r: Vec<u8>)
    ensures
        r@ == completion_prefix(content@, pos),
{
    if pos > content.len() {
        let r: Vec<u8> = Vec::new();
        return r;
    }
    let mut ws: usize = pos;
    while ws > 0 && word_byte(content[ws - 1])
        invariant
            ws <= pos <= content@.len(),
            word_start(content@, pos as int) == word_start(content@, ws as int),
        decreases ws,
    {
        ws -= 1;
    }
    assert(word_start(content@, ws as int) == ws as int);
    sub_bytes(content, ws, pos)
}

impl Workspace {
    /// `hoverAt(path, position)`: forces the file's parse fresh, then
    /// reports the innermost definition around the byte offset `pos`.
    /// `None` means "no information", covering untracked paths too.
    pub fn hover_at(&mut self, path: &Vec<u8>, pos: usize) -> (r: Option<Hover>)
        requires
            old(self).wf(),
            old(self)@.stamp < u64::MAX,
        ensures
            final(self).wf(),
            final(self)@ == refresh_spec(old(self)@, path@),
            hover_view_of(r) == hover_spec(final(self)@, path@, pos),
    {
        match self.ensure_fresh(path) {
            Err(_) => None,
            Ok(()) => {
                let i = match self.find(path) {
                    Some(i) => i,
                    None => {
                        proof {
                            assert(false);
                        }
                        return None;
                    },
                };
                match &self.files[i].unit {
                    Some(u) => {
                        proof {
                            assert(self@.files[path@].unit == Some(u@));
                        }
                        match innermost_exec(&u.nodes, pos) {
                            Some(j) => {
                                proof {
                                    assert(nodes_wf(views_of(u.nodes@)));
                                }
                                let q = qual_name(&u.nodes, j);
                                let h = Hover {
                                    kind: u.nodes[j].kind,
                                    qualified: q,
                                    start: u.nodes[j].start,
                                    end: u.nodes[j].end,
                                };
                                proof {
                                    assert(views_of(u.nodes@)[j as int] == u.nodes@[j as int]@);
                                    assert(h@ =~= hover_spec(self@, path@, pos).unwrap());
                                }
                                Some(h)
                            },
                            None => None,
                        }
                    },
                    None => {
                        proof {
                            assert(refresh_spec(old(self)@, path@).files[path@].unit is Some);
                            assert(false);
                        }
                        None
                    },
                }
            },
        }
    }

    /// `definitionOf(path, position)`: forces the file's parse fresh, takes
    /// the identifier under the byte offset, resolves it in the lexical
    /// scope first and through the symbol index otherwise. The preferred
    /// (most recently parsed) candidate is primary; the rest stay as
    /// alternates. `None` means "not found", untracked paths included.
    pub fn definition_of(&mut self, path: &Vec<u8>, pos: usize) -> (r: Option<Definition>)
        requires
            old(self).wf(),
            old(self)@.stamp < u64::MAX,
        ensures
            final(self).wf(),
            final(self)@ == refresh_spec(old(self)@, path@),
            def_view_of(r) == definition_spec(final(self)@, path@, pos),
    {
        match self.ensure_fresh(path) {
            Err(_) => None,
            Ok(()) => {
                let i = match self.find(path) {
                    Some(i) => i,
                    None => {
                        proof {
                            assert(false);
                        }
                        return None;
                    },
                };
                match &self.files[i].unit {
                    Some(u) => {
                        proof {
                            assert(self@.files[path@].unit == Some(u@));
                            assert(nodes_wf(views_of(u.nodes@)));
                        }
                        let content = &self.files[i].doc.content;
                        proof {
                            assert(self@.files[path@].doc.content == content@);
                        }
                        match word_at(content, pos) {
                            None => None,
                            Some((ws, we)) => {
                                let w = sub_bytes(content, ws, we);
                                let sc: Option<usize> = match innermost_exec(&u.nodes, pos) {
                                    Some(j) => {
                                        proof {
                                            assert(views_of(u.nodes@)[j as int] == u.nodes@[
                                                j as int
                                            ]@);
                                        }
                                        match u.nodes[j].kind {
                                            SymKind::Constant => {
                                                proof {
                                                    if views_of(u.nodes@)[j as int].parent
                                                        is Some {
                                                        assert((views_of(u.nodes@)[
                                                            j as int
                                                        ].parent.unwrap() as int) < j as int);
                                                    }
                                                }
                                                u.nodes[j].parent
                                            },
                                            _ => Some(j),
                                        }
                                    },
                                    None => None,
                                };
                                assert(sc == scope_at(views_of(u.nodes@), pos));
                                match scope_resolve_exec(&u.nodes, sc, &w) {
                                    Some(j) => {
                                        proof {
                                            assert(views_of(u.nodes@)[j as int] == u.nodes@[
                                                j as int
                                            ]@);
                                        }
                                        let d = Definition {
                                            primary: Location {
                                                path: copy_bytes(path),
                                                start: u.nodes[j].start,
                                                end: u.nodes[j].name_end,
                                            },
                                            alternates: Vec::new(),
                                        };
                                        proof {
                                            let spec_r = definition_spec(self@, path@, pos);
                                            assert(d.primary@ =~= spec_r.unwrap().0);
                                            assert(loc_views(d.alternates@) =~= spec_r.unwrap().1);
                                        }
                                        Some(d)
                                    },
                                    None => {
                                        let cands = resolve(&self.symbols, &w);
                                        let ghost cv = entry_views(cands@);
                                        proof {
                                            assert(cv == resolve_spec(self@.symbols, w@));
                                        }
                                        if cands.len() == 0 {
                                            None
                                        } else {
                                            let b = best_index(&cands);
                                            proof {
                                                assert(cv[b as int] == cands@[b as int]@);
                                            }
                                            let primary = Location {
                                                path: copy_bytes(&cands[b].path),
                                                start: cands[b].start,
                                                end: cands[b].end,
                                            };
                                            let n = cands.len();
                                            let mut alts: Vec<Location> = Vec::new();
                                            let mut k: usize = 0;
                                            while k < n
                                                invariant
                                                    n == cands@.len(),
                                                    k <= n,
                                                    b < n,
                                                    cv == entry_views(cands@),
                                                    k <= b ==> loc_views(alts@) =~= locs_of(
                                                        cv.subrange(0, k as int),
                                                    ),
                                                    k > b ==> loc_views(alts@) =~= locs_of(
                                                        cv.subrange(0, k as int).remove(b as int),
                                                    ),
                                                decreases n - k,
                                            {
                                                proof {
                                                    assert(cv[k as int] == cands@[k as int]@);
                                                }
                                                let ghost prev = alts@;
                                                if k != b {
                                                    let l = Location {
                                                        path: copy_bytes(&cands[k].path),
                                                        start: cands[k].start,
                                                        end: cands[k].end,
                                                    };
                                                    proof {
                                                        assert(l@ =~= loc_of(cv[k as int]));
                                                    }
                                                    alts.push(l);
                                                    proof {
                                                        assert(loc_views(alts@) =~= loc_views(
                                                            prev,
                                                        ).push(loc_of(cv[k as int])));
                                                    }
                                                }
                                                k += 1;
                                                proof {
                                                    if k - 1 < b {
                                                        assert(loc_views(alts@) =~= locs_of(
                                                            cv.subrange(0, k as int),
                                                        ));
                                                    } else if k - 1 == b {
                                                        assert(cv.subrange(0, k as int).remove(
                                                            b as int,
                                                        ) =~= cv.subrange(0, b as int));
                                                        assert(loc_views(alts@) =~= locs_of(
                                                            cv.subrange(0, k as int).remove(
                                                                b as int,
                                                            ),
                                                        ));
                                                    } else {
                                                        assert(cv.subrange(0, k as int).remove(
                                                            b as int,
                                                        ) =~= cv.subrange(0, k - 1).remove(
                                                            b as int,
                                                        ).push(cv[k - 1]));
                                                        assert(loc_views(alts@) =~= locs_of(
                                                            cv.subrange(0, k as int).remove(
                                                                b as int,
                                                            ),
                                                        ));
                                                    }
                                                }
                                            }
                                            proof {
                                                assert(cv.subrange(0, n as int) =~= cv);
                                            }
                                            let d = Definition { primary, alternates: alts };
                                            proof {
                                                let spec_r = definition_spec(self@, path@, pos);
                                                assert(d.primary@ =~= spec_r.unwrap().0);
                                                assert(loc_views(d.alternates@) =~= spec_r.unwrap().1);
                                            }
                                            Some(d)
                                        }
                                    },
                                }
                            },
                        }
                    },
                    None => {
                        proof {
                            assert(refresh_spec(old(self)@, path@).files[path@].unit is Some);
                            assert(false);
                        }
                        None
                    },
                }
            },
        }
    }

    /// `completionsAt(path, position)`: forces the file's parse fresh, then
    /// lists candidates for the word fragment ending at the byte offset:
    /// definitions visible in the lexical scope chain (innermost scope
    /// first), then symbol-index matches from other files, each group in
    /// lexical order. Untracked paths yield an empty list.
    pub fn completions_at(&mut self, path: &Vec<u8>, pos: usize) -> (r: Vec<Completion>)
        requires
            old(self).wf(),
            old(self)@.stamp < u64::MAX,
        ensures
            final(self).wf(),
            final(self)@ == refresh_spec(old(self)@, path@),
            comp_views(r@) == completions_spec(final(self)@, path@, pos),
    {
        match self.ensure_fresh(path) {
            Err(_) => Vec::new(),
            Ok(()) => {
                let i = match self.find(path) {
                    Some(i) => i,
                    None => {
                        proof {
                            assert(false);
                        }
                        return Vec::new();
                    },
                };
                match &self.files[i].unit {
                    Some(u) => {
                        proof {
                            assert(self@.files[path@].unit == Some(u@));
                            assert(nodes_wf(views_of(u.nodes@)));
                        }
                        let content = &self.files[i].doc.content;
                        proof {
                            assert(self@.files[path@].doc.content == content@);
                        }
                        let prefix = prefix_exec(content, pos);
                        let sc: Option<usize> = match innermost_exec(&u.nodes, pos) {
                            Some(j) => {
                                proof {
                                    assert(views_of(u.nodes@)[j as int] == u.nodes@[j as int]@);
                                }
                                match u.nodes[j].kind {
                                    SymKind::Constant => {
                                        proof {
                                            if views_of(u.nodes@)[j as int].parent is Some {
                                                assert((views_of(u.nodes@)[
                                                    j as int
                                                ].parent.unwrap() as int) < j as int);
                                            }
                                        }
                                        u.nodes[j].parent
                                    },
                                    _ => Some(j),
                                }
                            },
                            None => None,
                        };
                        assert(sc == scope_at(views_of(u.nodes@), pos));
                        let mut out = chain_exec(&u.nodes, sc, &prefix, path);
                        let idx = index_matches_exec(&self.symbols, &prefix, path);
                        let mut sorted_idx = sort_comps(idx);
                        let ghost a = out@;
                        let ghost b = sorted_idx@;
                        out.append(&mut sorted_idx);
                        proof {
                            assert(comp_views(out@) =~= comp_views(a) + comp_views(b));
                            assert(comp_views(out@) =~= completions_spec(self@, path@, pos));
                        }
                        out
                    },
                    None => {
                        proof {
                            assert(refresh_spec(old(self)@, path@).files[path@].unit is Some);
                            assert(false);
                        }
                        Vec::new()
                    },
                }
            },
        }
    }
}

} // verus!
