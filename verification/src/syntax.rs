//! Best-effort syntax-tree builder. Given the bytes of one source file it
//! deterministically produces a flat tree of definition nodes (classes,
//! modules, methods, constants) with byte spans and parent links, plus a list
//! of diagnostics for malformed input (an unbalanced `end`, a definition left
//! open at end of file). The builder is total: broken input still yields a
//! tree covering everything before the error, so queries degrade instead of
//! failing. The whole pass is modelled byte for byte by the spec functions
//! below, which makes parsing a pure function of the content.

use vstd::prelude::*;
use vstd::pervasive::VecAdditionalExecFns;
use crate::bytes::{is_word_byte, is_upper_byte, word_byte, upper_byte, sub_bytes, copy_bytes};

verus! {

/// The kind of a definition node.
#[derive(Clone, Copy, PartialEq, Eq, Structural, Debug)]
pub enum SymKind {
    Class,
    Module,
    Method,
    Constant,
}

/// The kind of a parse diagnostic.
#[derive(Clone, Copy, PartialEq, Eq, Structural, Debug)]
pub enum DiagKind {
    /// An `end` with no open definition to close.
    UnexpectedEnd,
    /// A definition still open when the file ends.
    MissingEnd,
}

/// A parse diagnostic: what went wrong and the byte offset it refers to.
#[derive(Clone, Copy, PartialEq, Eq, Structural, Debug)]
pub struct Diag {
    pub kind: DiagKind,
    pub pos: usize,
}

/// One definition node of the flat syntax tree. `start` is the offset of the
/// introducing keyword (or of the constant name), `name_end` closes the
/// header span holding the name, `end` closes the whole body (for scoped
/// definitions, just past their `end` keyword). `parent` is the index of the
/// enclosing definition, always smaller than the node's own index.
pub struct Node {
    pub kind: SymKind,
    pub name: Vec<u8>,
    pub start: usize,
    pub name_end: usize,
    pub end: usize,
    pub parent: Option<usize>,
}

/// Mathematical image of a `Node`.
#[verifier::ext_equal]
pub struct NodeView {
    pub kind: SymKind,
    pub name: Seq<u8>,
    pub start: usize,
    pub name_end: usize,
    pub end: usize,
    pub parent: Option<usize>,
}

impl View for Node {
    type V = NodeView;

    open spec fn view(&self) -> NodeView {
        NodeView {
            kind: self.kind,
            name: self.name@,
            start: self.start,
            name_end: self.name_end,
            end: self.end,
            parent: self.parent,
        }
    }
}

pub open spec fn views_of(nodes: Seq<Node>) -> Seq<NodeView> {
    nodes.map_values(|n: Node| n@)
}

/// Parent links only ever point at earlier nodes.
pub open spec fn nodes_wf(nodes: Seq<NodeView>) -> bool {
    forall|j: int|
        0 <= j < nodes.len() ==> (#[trigger] nodes[j].parent matches Some(p) ==> (p as int) < j)
}

/// Lexing mode: ordinary code, a `#` comment running to end of line, or a
/// string delimited by the remembered quote byte.
#[derive(Clone, Copy, PartialEq, Eq, Structural)]
pub enum Mode {
    Code,
    Comment,
    Str(u8),
}

/// The complete scanner state after some prefix of the input.
#[verifier::ext_equal]
pub struct ScanView {
    pub nodes: Seq<NodeView>,
    pub diags: Seq<Diag>,
    /// Indices of the definitions whose `end` is still outstanding,
    /// outermost first.
    pub stack: Seq<usize>,
    pub mode: Mode,
    pub word_start: usize,
    pub in_word: bool,
    /// A `class`/`module`/`def` keyword waiting for its name, with the
    /// keyword's offset.
    pub pending: Option<(SymKind, usize)>,
    /// An uppercase word that may turn out to be a constant assignment,
    /// as its (start, end) span.
    pub cpend: Option<(usize, usize)>,
    /// Whether the byte just consumed was the `=` of a possible constant
    /// assignment, so the next byte decides.
    pub ceq: bool,
}

pub open spec fn kw_class() -> Seq<u8> {
    seq![99u8, 108u8, 97u8, 115u8, 115u8]
}

pub open spec fn kw_module() -> Seq<u8> {
    seq![109u8, 111u8, 100u8, 117u8, 108u8, 101u8]
}

pub open spec fn kw_def() -> Seq<u8> {
    seq![100u8, 101u8, 102u8]
}

pub open spec fn kw_end() -> Seq<u8> {
    seq![101u8, 110u8, 100u8]
}

pub open spec fn kw_self() -> Seq<u8> {
    seq![115u8, 101u8, 108u8, 102u8]
}

pub open spec fn scan_init() -> ScanView {
    ScanView {
        nodes: Seq::empty(),
        diags: Seq::empty(),
        stack: Seq::empty(),
        mode: Mode::Code,
        word_start: 0,
        in_word: false,
        pending: None,
        cpend: None,
        ceq: false,
    }
}

pub open spec fn top_of(stack: Seq<usize>) -> Option<usize> {
    if stack.len() > 0 {
        Some(stack.last())
    } else {
        None
    }
}

/// Effect of a completed identifier word `w` spanning `[ws, i)`.
pub open spec fn word_step(st: ScanView, w: Seq<u8>, ws: usize, i: usize) -> ScanView {
    if w == kw_class() {
        ScanView { pending: Some((SymKind::Class, ws)), cpend: None, ..st }
    } else if w == kw_module() {
        ScanView { pending: Some((SymKind::Module, ws)), cpend: None, ..st }
    } else if w == kw_def() {
        ScanView { pending: Some((SymKind::Method, ws)), cpend: None, ..st }
    } else if w == kw_end() {
        if st.stack.len() > 0 {
            let t = st.stack.last();
            ScanView {
                nodes: st.nodes.update(
                    t as int,
                    NodeView { end: i, ..st.nodes[t as int] },
                ),
                stack: st.stack.drop_last(),
                pending: None,
                cpend: None,
                ..st
            }
        } else {
            ScanView {
                diags: st.diags.push(Diag { kind: DiagKind::UnexpectedEnd, pos: ws }),
                pending: None,
                cpend: None,
                ..st
            }
        }
    } else if w == kw_self() && st.pending is Some {
        // `def self.name`: the receiver is skipped, the keyword keeps waiting.
        st
    } else {
        match st.pending {
            Some((k, ks)) => ScanView {
                nodes: st.nodes.push(
                    NodeView {
                        kind: k,
                        name: w,
                        start: ks,
                        name_end: i,
                        end: i,
                        parent: top_of(st.stack),
                    },
                ),
                stack: st.stack.push(st.nodes.len() as usize),
                pending: None,
                cpend: None,
                ..st
            },
            None => {
                if w.len() > 0 && is_upper_byte(w[0]) {
                    ScanView { cpend: Some((ws, i)), ..st }
                } else {
                    ScanView { cpend: None, ..st }
                }
            },
        }
    }
}

/// Emits the constant definition recorded in `cpend`, once its `=` has been
/// confirmed as an assignment.
pub open spec fn emit_const(st: ScanView, src: Seq<u8>) -> ScanView {
    match st.cpend {
        Some((cs, ce)) => ScanView {
            nodes: st.nodes.push(
                NodeView {
                    kind: SymKind::Constant,
                    name: src.subrange(cs as int, ce as int),
                    start: cs,
                    name_end: ce,
                    end: ce,
                    parent: top_of(st.stack),
                },
            ),
            cpend: None,
            ceq: false,
            ..st
        },
        None => ScanView { cpend: None, ceq: false, ..st },
    }
}

/// Effect of a non-word byte in code mode, after any word flush.
pub open spec fn sym_step(st: ScanView, b: u8, i: usize) -> ScanView {
    if b == 35 {
        ScanView { mode: Mode::Comment, pending: st.pending, cpend: None, ceq: false, ..st }
    } else if b == 34 || b == 39 {
        ScanView { mode: Mode::Str(b), cpend: None, ceq: false, ..st }
    } else if b == 61 {
        if st.cpend is Some && !st.ceq {
            ScanView { ceq: true, ..st }
        } else {
            ScanView { cpend: None, ceq: false, ..st }
        }
    } else if b == 32 || b == 9 {
        st
    } else {
        ScanView { cpend: None, ceq: false, ..st }
    }
}

/// Effect of consuming the byte at offset `i`.
pub open spec fn scan_step(st: ScanView, src: Seq<u8>, i: usize) -> ScanView
    recommends
        i < src.len(),
{
    let b = src[i as int];
    match st.mode {
        Mode::Comment => if b == 10 {
            ScanView { mode: Mode::Code, ..st }
        } else {
            st
        },
        Mode::Str(q) => if b == q {
            ScanView { mode: Mode::Code, ..st }
        } else {
            st
        },
        Mode::Code => {
            let st0 = if st.ceq {
                if b == 61 || b == 126 || b == 62 {
                    // `==`, `=~`, `=>`: not an assignment after all.
                    ScanView { cpend: None, ceq: false, ..st }
                } else {
                    emit_const(st, src)
                }
            } else {
                st
            };
            if is_word_byte(b) {
                if st0.in_word {
                    st0
                } else {
                    ScanView { in_word: true, word_start: i, ..st0 }
                }
            } else {
                let st1 = if st0.in_word {
                    ScanView {
                        in_word: false,
                        ..word_step(
                            st0,
                            src.subrange(st0.word_start as int, i as int),
                            st0.word_start,
                            i,
                        )
                    }
                } else {
                    st0
                };
                sym_step(st1, b, i)
            }
        },
    }
}

/// Scanner state after the first `n` bytes of `src`.
pub open spec fn scan_upto(src: Seq<u8>, n: int) -> ScanView
    decreases n,
{
    if n <= 0 {
        scan_init()
    } else {
        scan_step(scan_upto(src, n - 1), src, (n - 1) as usize)
    }
}

/// End-of-file handling: resolve a trailing `=`, flush a trailing word.
pub open spec fn flush_eof(st: ScanView, src: Seq<u8>) -> ScanView {
    let st0 = if st.ceq {
        emit_const(st, src)
    } else {
        st
    };
    if st0.in_word {
        ScanView {
            in_word: false,
            ..word_step(
                st0,
                src.subrange(st0.word_start as int, src.len() as int),
                st0.word_start,
                src.len() as usize,
            )
        }
    } else {
        st0
    }
}

/// Closes every definition still open at end of file, innermost first, with a
/// `MissingEnd` diagnostic each, so that a degraded tree is still produced.
pub open spec fn close_unclosed(st: ScanView, len: usize) -> ScanView
    decreases st.stack.len(),
{
    if st.stack.len() == 0 {
        st
    } else {
        let t = st.stack.last();
        close_unclosed(
            ScanView {
                nodes: st.nodes.update(t as int, NodeView { end: len, ..st.nodes[t as int] }),
                stack: st.stack.drop_last(),
                diags: st.diags.push(
                    Diag { kind: DiagKind::MissingEnd, pos: st.nodes[t as int].start },
                ),
                ..st
            },
            len,
        )
    }
}

/// The full build: a pure function from content to tree and diagnostics.
pub open spec fn build_spec(src: Seq<u8>) -> ScanView {
    close_unclosed(flush_eof(scan_upto(src, src.len() as int), src), src.len() as usize)
}

pub open spec fn build_nodes(src: Seq<u8>) -> Seq<NodeView> {
    build_spec(src).nodes
}

pub open spec fn build_diags(src: Seq<u8>) -> Seq<Diag> {
    build_spec(src).diags
}

/// Stack entries always index into the node list.
pub open spec fn stack_wf(st: ScanView) -> bool {
    forall|j: int| 0 <= j < st.stack.len() ==> (#[trigger] st.stack[j] as int) < st.nodes.len()
}

/// Internal consistency of the scanner state after `n` consumed bytes.
pub open spec fn scan_inv(st: ScanView, n: int) -> bool {
    &&& st.in_word ==> (st.word_start as int) < n
    &&& stack_wf(st)
    &&& nodes_wf(st.nodes)
    &&& st.nodes.len() <= n
    &&& st.cpend matches Some((cs, ce)) ==> cs <= ce && (ce as int) <= n
    &&& st.ceq ==> st.cpend is Some
    &&& st.ceq ==> !st.in_word
    &&& st.pending matches Some((k, ks)) ==> (ks as int) <= n
    &&& st.in_word ==> st.mode == Mode::Code
}

proof fn lemma_word_step_inv(st: ScanView, w: Seq<u8>, ws: usize, i: usize, n: int)
    requires
        scan_inv(st, n),
        !st.ceq,
        ws <= i,
        i as int <= n,
        n <= usize::MAX,
    ensures
        scan_inv(ScanView { in_word: false, ..word_step(st, w, ws, i) }, n + 1),
        scan_inv(word_step(st, w, ws, i), n + 1),
{
    let r = word_step(st, w, ws, i);
    if w == kw_class() || w == kw_module() || w == kw_def() {
    } else if w == kw_end() {
        if st.stack.len() > 0 {
            let t = st.stack.last();
            assert((t as int) < st.nodes.len());
            assert(nodes_wf(r.nodes)) by {
                assert(forall|j: int|
                    0 <= j < r.nodes.len() ==> #[trigger] r.nodes[j].parent == st.nodes[j].parent);
            }
            assert(forall|j: int|
                0 <= j < r.stack.len() ==> (#[trigger] r.stack[j] as int) < r.nodes.len()) by {
                assert(forall|j: int|
                    0 <= j < r.stack.len() ==> r.stack[j] == st.stack[j]);
            }
        }
    } else if w == kw_self() && st.pending is Some {
    } else {
        match st.pending {
            Some((k, ks)) => {
                assert(nodes_wf(r.nodes)) by {
                    assert(forall|j: int|
                        0 <= j < st.nodes.len() ==> #[trigger] r.nodes[j] == st.nodes[j]);
                    assert(r.nodes[st.nodes.len() as int].parent == top_of(st.stack));
                    if st.stack.len() > 0 {
                        assert((st.stack.last() as int) < st.nodes.len());
                    }
                }
                assert(forall|j: int|
                    0 <= j < r.stack.len() ==> (#[trigger] r.stack[j] as int) < r.nodes.len()) by {
                    assert(forall|j: int|
                        0 <= j < st.stack.len() ==> r.stack[j] == st.stack[j]);
                    assert(r.stack.last() == st.nodes.len());
                }
            },
            None => {},
        }
    }
}

proof fn lemma_emit_const_inv(st: ScanView, src: Seq<u8>, n: int)
    requires
        scan_inv(st, n),
        n <= usize::MAX,
    ensures
        scan_inv(emit_const(st, src), n + 1),
        emit_const(st, src).in_word == st.in_word,
        emit_const(st, src).ceq == false,
{
    let r = emit_const(st, src);
    match st.cpend {
        Some((cs, ce)) => {
            assert(nodes_wf(r.nodes)) by {
                assert(forall|j: int|
                    0 <= j < st.nodes.len() ==> #[trigger] r.nodes[j] == st.nodes[j]);
                assert(r.nodes[st.nodes.len() as int].parent == top_of(st.stack));
                if st.stack.len() > 0 {
                    assert((st.stack.last() as int) < st.nodes.len());
                }
            }
        },
        None => {},
    }
}

proof fn lemma_scan_step_inv(st: ScanView, src: Seq<u8>, i: usize)
    requires
        scan_inv(st, i as int),
        (i as int) < src.len(),
        src.len() <= usize::MAX,
    ensures
        scan_inv(scan_step(st, src, i), i + 1),
{
    let b = src[i as int];
    match st.mode {
        Mode::Comment => {},
        Mode::Str(_) => {},
        Mode::Code => {
            let st0 = if st.ceq {
                if b == 61 || b == 126 || b == 62 {
                    ScanView { cpend: None, ceq: false, ..st }
                } else {
                    emit_const(st, src)
                }
            } else {
                st
            };
            if st.ceq && !(b == 61 || b == 126 || b == 62) {
                lemma_emit_const_inv(st, src, i as int);
                assert(!st0.in_word);
            }
            assert(scan_inv(st0, i + 1));
            if is_word_byte(b) {
            } else {
                if st0.in_word {
                    assert(st0 == st);
                    lemma_word_step_inv(
                        st0,
                        src.subrange(st0.word_start as int, i as int),
                        st0.word_start,
                        i,
                        i as int,
                    );
                }
                let st1 = if st0.in_word {
                    ScanView {
                        in_word: false,
                        ..word_step(
                            st0,
                            src.subrange(st0.word_start as int, i as int),
                            st0.word_start,
                            i,
                        )
                    }
                } else {
                    st0
                };
                assert(scan_inv(st1, i + 1));
                assert(scan_inv(sym_step(st1, b, i), i + 1));
            }
        },
    }
}

proof fn lemma_scan_upto_inv(src: Seq<u8>, n: int)
    requires
        0 <= n <= src.len(),
        src.len() <= usize::MAX,
    ensures
        scan_inv(scan_upto(src, n), n),
    decreases n,
{
    if n <= 0 {
    } else {
        lemma_scan_upto_inv(src, n - 1);
        lemma_scan_step_inv(scan_upto(src, n - 1), src, (n - 1) as usize);
    }
}

proof fn lemma_close_unclosed_wf(st: ScanView, len: usize)
    requires
        stack_wf(st),
        nodes_wf(st.nodes),
    ensures
        nodes_wf(close_unclosed(st, len).nodes),
        close_unclosed(st, len).stack.len() == 0,
        close_unclosed(st, len).nodes.len() == st.nodes.len(),
    decreases st.stack.len(),
{
    if st.stack.len() == 0 {
    } else {
        let t = st.stack.last();
        let st2 = ScanView {
            nodes: st.nodes.update(t as int, NodeView { end: len, ..st.nodes[t as int] }),
            stack: st.stack.drop_last(),
            diags: st.diags.push(
                Diag { kind: DiagKind::MissingEnd, pos: st.nodes[t as int].start },
            ),
            ..st
        };
        assert(stack_wf(st2)) by {
            assert(forall|j: int| 0 <= j < st2.stack.len() ==> st2.stack[j] == st.stack[j]);
        }
        assert(nodes_wf(st2.nodes)) by {
            assert(forall|j: int|
                0 <= j < st2.nodes.len() ==> #[trigger] st2.nodes[j].parent == st.nodes[j].parent);
        }
        lemma_close_unclosed_wf(st2, len);
    }
}

/// Well-formedness of every built tree.
pub proof fn lemma_build_wf(src: Seq<u8>)
    requires
        src.len() <= usize::MAX,
    ensures
        nodes_wf(build_nodes(src)),
{
    lemma_scan_upto_inv(src, src.len() as int);
    let st = scan_upto(src, src.len() as int);
    assert(scan_inv(st, src.len() as int));
    let stf = flush_eof(st, src);
    assert(stack_wf(stf) && nodes_wf(stf.nodes)) by {
        let st0 = if st.ceq {
            emit_const(st, src)
        } else {
            st
        };
        if st.ceq {
            lemma_emit_const_inv(st, src, src.len() as int);
        }
        assert(scan_inv(st0, src.len() as int + 1));
        if st0.in_word {
            assert(st0 == st);
            lemma_word_step_inv(
                st0,
                src.subrange(st0.word_start as int, src.len() as int),
                st0.word_start,
                src.len() as usize,
                src.len() as int,
            );
        }
    }
    lemma_close_unclosed_wf(stf, src.len() as usize);
}

fn word_is_class(w: &Vec<u8>) -> (r: bool)
    ensures
        r == (w@ == kw_class()),
{
    let r = w.len() == 5 && w[0] == 99 && w[1] == 108 && w[2] == 97 && w[3] == 115 && w[4] == 115;
    proof {
        if r {
            assert(w@ =~= kw_class());
        }
        if w@ == kw_class() {
            assert(w@.len() == 5);
        }
    }
    r
}

fn word_is_module(w: &Vec<u8>) -> (r: bool)
    ensures
        r == (w@ == kw_module()),
{
    let r = w.len() == 6 && w[0] == 109 && w[1] == 111 && w[2] == 100 && w[3] == 117 && w[4]
        == 108 && w[5] == 101;
    proof {
        if r {
            assert(w@ =~= kw_module());
        }
        if w@ == kw_module() {
            assert(w@.len() == 6);
        }
    }
    r
}

fn word_is_def(w: &Vec<u8>) -> (r: bool)
    ensures
        r == (w@ == kw_def()),
{
    let r = w.len() == 3 && w[0] == 100 && w[1] == 101 && w[2] == 102;
    proof {
        if r {
            assert(w@ =~= kw_def());
        }
        if w@ == kw_def() {
            assert(w@.len() == 3);
        }
    }
    r
}

fn word_is_end(w: &Vec<u8>) -> (r: bool)
    ensures
        r == (w@ == kw_end()),
{
    let r = w.len() == 3 && w[0] == 101 && w[1] == 110 && w[2] == 100;
    proof {
        if r {
            assert(w@ =~= kw_end());
        }
        if w@ == kw_end() {
            assert(w@.len() == 3);
        }
    }
    r
}

fn word_is_self(w: &Vec<u8>) -> (r: bool)
    ensures
        r == (w@ == kw_self()),
{
    let r = w.len() == 4 && w[0] == 115 && w[1] == 101 && w[2] == 108 && w[3] == 102;
    proof {
        if r {
            assert(w@ =~= kw_self());
        }
        if w@ == kw_self() {
            assert(w@.len() == 4);
        }
    }
    r
}

fn top_exec(stack: &Vec<usize>) -> (r: Option<usize>)
    ensures
        r == top_of(stack@),
{
    if stack.len() > 0 {
        Some(stack[stack.len() - 1])
    } else {
        None
    }
}

/// Builds the syntax tree and diagnostics for one file's content.
/// The result is exactly `build_spec` of the content: parsing is
/// deterministic, total, and a function of the bytes alone.
pub fn build_tree(src: &Vec<u8>) -> (r: (Vec<Node>, Vec<Diag>))
    ensures
        views_of(r.0@) == build_nodes(src@),
        r.1@ == build_diags(src@),
        nodes_wf(views_of(r.0@)),
{
    let ghost s = src@;
    let mut nodes: Vec<Node> = Vec::new();
    let mut diags: Vec<Diag> = Vec::new();
    let mut stack: Vec<usize> = Vec::new();
    let mut mode: Mode = Mode::Code;
    let mut word_start: usize = 0;
    let mut in_word: bool = false;
    let mut pending: Option<(SymKind, usize)> = None;
    let mut cpend: Option<(usize, usize)> = None;
    let mut ceq: bool = false;
    let n = src.len();
    let mut i: usize = 0;
    proof {
        assert(views_of(nodes@) =~= scan_init().nodes);
    }
    while i < n
        invariant
            n == s.len(),
            i <= n,
            s == src@,
            scan_upto(s, i as int) == (ScanView {
                nodes: views_of(nodes@),
                diags: diags@,
                stack: stack@,
                mode: mode,
                word_start: word_start,
                in_word: in_word,
                pending: pending,
                cpend: cpend,
                ceq: ceq,
            }),
            scan_inv(scan_upto(s, i as int), i as int),
        decreases n - i,
    {
        let ghost st = scan_upto(s, i as int);
        let b = src[i];
        match mode {
            Mode::Comment => {
                if b == 10 {
                    mode = Mode::Code;
                }
            },
            Mode::Str(q) => {
                if b == q {
                    mode = Mode::Code;
                }
            },
            Mode::Code => {
                if ceq {
                    if b == 61 || b == 126 || b == 62 {
                        cpend = None;
                        ceq = false;
                    } else {
                        match cpend {
                            Some((cs, ce)) => {
                                let name = sub_bytes(src, cs, ce);
                                let parent = top_exec(&stack);
                                nodes.push(
                                    Node {
                                        kind: SymKind::Constant,
                                        name,
                                        start: cs,
                                        name_end: ce,
                                        end: ce,
                                        parent,
                                    },
                                );
                            },
                            None => {},
                        }
                        cpend = None;
                        ceq = false;
                        proof {
                            assert(views_of(nodes@) =~= emit_const(st, s).nodes);
                        }
                    }
                }
                let ghost st0 = if st.ceq {
                    if s[i as int] == 61 || s[i as int] == 126 || s[i as int] == 62 {
                        ScanView { cpend: None, ceq: false, ..st }
                    } else {
                        emit_const(st, s)
                    }
                } else {
                    st
                };
                proof {
                    assert(st0 =~= ScanView {
                        nodes: views_of(nodes@),
                        diags: diags@,
                        stack: stack@,
                        mode: mode,
                        word_start: word_start,
                        in_word: in_word,
                        pending: pending,
                        cpend: cpend,
                        ceq: ceq,
                    });
                }
                if word_byte(b) {
                    if !in_word {
                        in_word = true;
                        word_start = i;
                    }
                } else {
                    if in_word {
                        let w = sub_bytes(src, word_start, i);
                        let ghost wspec = s.subrange(st0.word_start as int, i as int);
                        assert(w@ == wspec);
                        if word_is_class(&w) {
                            pending = Some((SymKind::Class, word_start));
                            cpend = None;
                        } else if word_is_module(&w) {
                            pending = Some((SymKind::Module, word_start));
                            cpend = None;
                        } else if word_is_def(&w) {
                            pending = Some((SymKind::Method, word_start));
                            cpend = None;
                        } else if word_is_end(&w) {
                            if stack.len() > 0 {
                                let t = stack[stack.len() - 1];
                                let nm = copy_bytes(&nodes[t].name);
                                let replacement = Node {
                                    kind: nodes[t].kind,
                                    name: nm,
                                    start: nodes[t].start,
                                    name_end: nodes[t].name_end,
                                    end: i,
                                    parent: nodes[t].parent,
                                };
                                nodes.set(t, replacement);
                                let _ = stack.pop();
                                proof {
                                    assert(views_of(nodes@) =~= st0.nodes.update(
                                        st0.stack.last() as int,
                                        NodeView { end: i, ..st0.nodes[st0.stack.last() as int] },
                                    ));
                                }
                            } else {
                                diags.push(Diag { kind: DiagKind::UnexpectedEnd, pos: word_start });
                            }
                            pending = None;
                            cpend = None;
                        } else if word_is_self(&w) && pending.is_some() {
                        } else {
                            match pending {
                                Some((k, ks)) => {
                                    let parent = top_exec(&stack);
                                    let idx = nodes.len();
                                    nodes.push(
                                        Node {
                                            kind: k,
                                            name: w,
                                            start: ks,
                                            name_end: i,
                                            end: i,
                                            parent,
                                        },
                                    );
                                    stack.push(idx);
                                    pending = None;
                                    cpend = None;
                                    proof {
                                        assert(views_of(nodes@) =~= st0.nodes.push(
                                            NodeView {
                                                kind: k,
                                                name: wspec,
                                                start: ks,
                                                name_end: i,
                                                end: i,
                                                parent: top_of(st0.stack),
                                            },
                                        ));
                                    }
                                },
                                None => {
                                    if w.len() > 0 && upper_byte(w[0]) {
                                        cpend = Some((word_start, i));
                                    } else {
                                        cpend = None;
                                    }
                                },
                            }
                        }
                        in_word = false;
                        proof {
                            assert(ScanView {
                                nodes: views_of(nodes@),
                                diags: diags@,
                                stack: stack@,
                                mode: mode,
                                word_start: word_start,
                                in_word: in_word,
                                pending: pending,
                                cpend: cpend,
                                ceq: ceq,
                            } =~= (ScanView {
                                in_word: false,
                                ..word_step(st0, wspec, st0.word_start, i)
                            }));
                        }
                    }
                    let ghost st1 = if st0.in_word {
                        ScanView {
                            in_word: false,
                            ..word_step(
                                st0,
                                s.subrange(st0.word_start as int, i as int),
                                st0.word_start,
                                i,
                            )
                        }
                    } else {
                        st0
                    };
                    // the symbol itself
                    if b == 35 {
                        mode = Mode::Comment;
                        cpend = None;
                        ceq = false;
                    } else if b == 34 || b == 39 {
                        mode = Mode::Str(b);
                        cpend = None;
                        ceq = false;
                    } else if b == 61 {
                        if cpend.is_some() && !ceq {
                            ceq = true;
                        } else {
                            cpend = None;
                            ceq = false;
                        }
                    } else if b == 32 || b == 9 {
                    } else {
                        cpend = None;
                        ceq = false;
                    }
                    proof {
                        assert(ScanView {
                            nodes: views_of(nodes@),
                            diags: diags@,
                            stack: stack@,
                            mode: mode,
                            word_start: word_start,
                            in_word: in_word,
                            pending: pending,
                            cpend: cpend,
                            ceq: ceq,
                        } =~= sym_step(st1, s[i as int], i));
                    }
                }
            },
        }
        proof {
            assert(ScanView {
                nodes: views_of(nodes@),
                diags: diags@,
                stack: stack@,
                mode: mode,
                word_start: word_start,
                in_word: in_word,
                pending: pending,
                cpend: cpend,
                ceq: ceq,
            } =~= scan_step(st, s, i));
            lemma_scan_step_inv(st, s, i);
        }
        i += 1;
    }
    // end of file: resolve a trailing `=`, flush a trailing word
    let ghost st = scan_upto(s, n as int);
    if ceq {
        match cpend {
            Some((cs, ce)) => {
                let name = sub_bytes(src, cs, ce);
                let parent = top_exec(&stack);
                nodes.push(
                    Node {
                        kind: SymKind::Constant,
                        name,
                        start: cs,
                        name_end: ce,
                        end: ce,
                        parent,
                    },
                );
            },
            None => {},
        }
        cpend = None;
        ceq = false;
        proof {
            assert(views_of(nodes@) =~= emit_const(st, s).nodes);
        }
    }
    let ghost st0 = if st.ceq {
        emit_const(st, s)
    } else {
        st
    };
    proof {
        assert(st0 =~= ScanView {
            nodes: views_of(nodes@),
            diags: diags@,
            stack: stack@,
            mode: mode,
            word_start: word_start,
            in_word: in_word,
            pending: pending,
            cpend: cpend,
            ceq: ceq,
        });
        if st.ceq {
            lemma_emit_const_inv(st, s, n as int);
        }
        assert(scan_inv(st0, n + 1));
    }
    if in_word {
        let w = sub_bytes(src, word_start, n);
        let ghost wspec = s.subrange(st0.word_start as int, s.len() as int);
        assert(w@ == wspec);
        if word_is_class(&w) {
            pending = Some((SymKind::Class, word_start));
            cpend = None;
        } else if word_is_module(&w) {
            pending = Some((SymKind::Module, word_start));
            cpend = None;
        } else if word_is_def(&w) {
            pending = Some((SymKind::Method, word_start));
            cpend = None;
        } else if word_is_end(&w) {
            if stack.len() > 0 {
                let t = stack[stack.len() - 1];
                let nm = copy_bytes(&nodes[t].name);
                let replacement = Node {
                    kind: nodes[t].kind,
                    name: nm,
                    start: nodes[t].start,
                    name_end: nodes[t].name_end,
                    end: n,
                    parent: nodes[t].parent,
                };
                nodes.set(t, replacement);
                let _ = stack.pop();
                proof {
                    assert(views_of(nodes@) =~= st0.nodes.update(
                        st0.stack.last() as int,
                        NodeView { end: n, ..st0.nodes[st0.stack.last() as int] },
                    ));
                }
            } else {
                diags.push(Diag { kind: DiagKind::UnexpectedEnd, pos: word_start });
            }
            pending = None;
            cpend = None;
        } else if word_is_self(&w) && pending.is_some() {
        } else {
            match pending {
                Some((k, ks)) => {
                    let parent = top_exec(&stack);
                    let idx = nodes.len();
                    nodes.push(
                        Node { kind: k, name: w, start: ks, name_end: n, end: n, parent },
                    );
                    stack.push(idx);
                    pending = None;
                    cpend = None;
                    proof {
                        assert(views_of(nodes@) =~= st0.nodes.push(
                            NodeView {
                                kind: k,
                                name: wspec,
                                start: ks,
                                name_end: n,
                                end: n,
                                parent: top_of(st0.stack),
                            },
                        ));
                    }
                },
                None => {
                    if w.len() > 0 && upper_byte(w[0]) {
                        cpend = Some((word_start, n));
                    } else {
                        cpend = None;
                    }
                },
            }
        }
        in_word = false;
        proof {
            assert(ScanView {
                nodes: views_of(nodes@),
                diags: diags@,
                stack: stack@,
                mode: mode,
                word_start: word_start,
                in_word: in_word,
                pending: pending,
                cpend: cpend,
                ceq: ceq,
            } =~= (ScanView { in_word: false, ..word_step(st0, wspec, st0.word_start, n) }));
        }
    }
    let ghost stf = flush_eof(st, s);
    proof {
        assert(stf =~= ScanView {
            nodes: views_of(nodes@),
            diags: diags@,
            stack: stack@,
            mode: mode,
            word_start: word_start,
            in_word: in_word,
            pending: pending,
            cpend: cpend,
            ceq: ceq,
        });
        if st0.in_word {
            assert(st0 == st);
            lemma_word_step_inv(
                st0,
                s.subrange(st0.word_start as int, s.len() as int),
                st0.word_start,
                n,
                n as int,
            );
        }
        assert(stack_wf(stf) && nodes_wf(stf.nodes));
    }
    // close definitions left open, innermost first
    while stack.len() > 0
        invariant
            n == s.len(),
            close_unclosed(stf, n) == close_unclosed(
                ScanView {
                    nodes: views_of(nodes@),
                    diags: diags@,
                    stack: stack@,
                    mode: mode,
                    word_start: word_start,
                    in_word: in_word,
                    pending: pending,
                    cpend: cpend,
                    ceq: ceq,
                },
                n,
            ),
            stack_wf(
                ScanView {
                    nodes: views_of(nodes@),
                    diags: diags@,
                    stack: stack@,
                    mode: mode,
                    word_start: word_start,
                    in_word: in_word,
                    pending: pending,
                    cpend: cpend,
                    ceq: ceq,
                },
            ),
            nodes_wf(views_of(nodes@)),
        decreases stack@.len(),
    {
        let ghost stc = ScanView {
            nodes: views_of(nodes@),
            diags: diags@,
            stack: stack@,
            mode: mode,
            word_start: word_start,
            in_word: in_word,
            pending: pending,
            cpend: cpend,
            ceq: ceq,
        };
        let t = stack[stack.len() - 1];
        let nm = copy_bytes(&nodes[t].name);
        let start = nodes[t].start;
        let replacement = Node {
            kind: nodes[t].kind,
            name: nm,
            start: start,
            name_end: nodes[t].name_end,
            end: n,
            parent: nodes[t].parent,
        };
        nodes.set(t, replacement);
        let _ = stack.pop();
        diags.push(Diag { kind: DiagKind::MissingEnd, pos: start });
        proof {
            let st2 = ScanView {
                nodes: stc.nodes.update(
                    stc.stack.last() as int,
                    NodeView { end: n, ..stc.nodes[stc.stack.last() as int] },
                ),
                stack: stc.stack.drop_last(),
                diags: stc.diags.push(
                    Diag { kind: DiagKind::MissingEnd, pos: stc.nodes[stc.stack.last() as int].start },
                ),
                ..stc
            };
            assert(st2 =~= ScanView {
                nodes: views_of(nodes@),
                diags: diags@,
                stack: stack@,
                mode: mode,
                word_start: word_start,
                in_word: in_word,
                pending: pending,
                cpend: cpend,
                ceq: ceq,
            });
            assert(stack_wf(st2)) by {
                assert(forall|j: int| 0 <= j < st2.stack.len() ==> st2.stack[j] == stc.stack[j]);
            }
            assert(nodes_wf(st2.nodes)) by {
                assert(forall|j: int|
                    0 <= j < st2.nodes.len() ==> #[trigger] st2.nodes[j].parent
                        == stc.nodes[j].parent);
            }
        }
    }
    proof {
        let stfinal = ScanView {
            nodes: views_of(nodes@),
            diags: diags@,
            stack: stack@,
            mode: mode,
            word_start: word_start,
            in_word: in_word,
            pending: pending,
            cpend: cpend,
            ceq: ceq,
        };
        assert(close_unclosed(stfinal, n) == stfinal);
        assert(views_of(nodes@) == build_nodes(s));
        assert(diags@ == build_diags(s));
        lemma_build_wf(s);
    }
    (nodes, diags)
}

} // verus!
