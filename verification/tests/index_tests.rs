use fast_ruby_lsp::bytes::is_source_path;
use fast_ruby_lsp::syntax::{DiagKind, SymKind};
use fast_ruby_lsp::workspace::{StoreError, Workspace};

fn p(s: &str) -> Vec<u8> {
    s.as_bytes().to_vec()
}

#[test]
fn extension_filter_keeps_rb_files() {
    assert!(is_source_path(&p("lib/a.rb")));
    assert!(is_source_path(&p("a.rb")));
    assert!(!is_source_path(&p("a.rs")));
    assert!(!is_source_path(&p("rb")));
    assert!(!is_source_path(&p("")));
    assert!(!is_source_path(&p("a.rb.bak")));
}

#[test]
fn versions_increase_across_lifecycle() {
    let mut ws = Workspace::new();
    let a = p("a.rb");
    ws.open_document(&a, p("class A\nend\n"));
    assert_eq!(ws.version_of(&a), Some(0));
    assert_eq!(ws.apply_edit(&a, p("class B\nend\n")), Ok(()));
    assert_eq!(ws.version_of(&a), Some(1));
    assert_eq!(ws.apply_edit(&a, p("class C\nend\n")), Ok(()));
    assert_eq!(ws.version_of(&a), Some(2));
    assert_eq!(ws.close_document(&a, true), Ok(()));
    assert_eq!(ws.version_of(&a), Some(2));
    ws.open_document(&a, p("class D\nend\n"));
    assert_eq!(ws.version_of(&a), Some(3));
}

#[test]
fn edit_of_untracked_path_is_refused() {
    let mut ws = Workspace::new();
    let a = p("a.rb");
    assert_eq!(ws.apply_edit(&a, p("x\n")), Err(StoreError::NotTracked));
    assert_eq!(ws.version_of(&a), None);
}

#[test]
fn query_reflects_most_recent_edit() {
    let mut ws = Workspace::new();
    let a = p("a.rb");
    ws.open_document(&a, p("class One\nend\n"));
    let h = ws.hover_at(&a, 0).expect("hover over class One");
    assert_eq!(h.qualified, p("One"));
    ws.apply_edit(&a, p("class Two\nend\n")).unwrap();
    let h = ws.hover_at(&a, 0).expect("hover over class Two");
    assert_eq!(h.qualified, p("Two"));
}

#[test]
fn ensure_fresh_is_idempotent() {
    let mut ws = Workspace::new();
    let a = p("a.rb");
    ws.open_document(&a, p("class A\n"));
    assert_eq!(ws.ensure_fresh(&a), Ok(()));
    let v1 = ws.unit_version_of(&a);
    let d1 = ws.diagnostics_of(&a).unwrap();
    assert_eq!(ws.ensure_fresh(&a), Ok(()));
    let v2 = ws.unit_version_of(&a);
    let d2 = ws.diagnostics_of(&a).unwrap();
    assert_eq!(v1, v2);
    assert_eq!(d1, d2);
}

#[test]
fn ensure_fresh_of_untracked_path_is_refused() {
    let mut ws = Workspace::new();
    assert_eq!(ws.ensure_fresh(&p("nope.rb")), Err(StoreError::NotTracked));
}

#[test]
fn round_trip_restores_diagnostics() {
    let original = p("class A\nend\n");
    let broken = p("class A\n");

    let mut ws = Workspace::new();
    let a = p("a.rb");
    ws.load_document(&a, original.clone());
    ws.ensure_fresh(&a).unwrap();
    let clean = ws.diagnostics_of(&a).unwrap();
    assert!(clean.is_empty());

    ws.apply_edit(&a, broken).unwrap();
    ws.ensure_fresh(&a).unwrap();
    assert!(!ws.diagnostics_of(&a).unwrap().is_empty());

    ws.apply_edit(&a, original.clone()).unwrap();
    ws.ensure_fresh(&a).unwrap();
    let restored = ws.diagnostics_of(&a).unwrap();

    let mut fresh = Workspace::new();
    let b = p("b.rb");
    fresh.load_document(&b, original);
    fresh.ensure_fresh(&b).unwrap();
    assert_eq!(restored, fresh.diagnostics_of(&b).unwrap());
    assert_eq!(restored, clean);
}

#[test]
fn removal_leaves_no_trace() {
    let mut ws = Workspace::new();
    let a = p("a.rb");
    let b = p("b.rb");
    ws.load_document(&a, p("class Foo\n  def bar\n  end\nend\n"));
    ws.load_document(&b, p("Foo.new.bar\n"));
    ws.ensure_fresh(&a).unwrap();
    assert!(ws.definition_of(&b, 8).is_some());

    assert_eq!(ws.remove_document(&a), Ok(()));
    assert!(ws.hover_at(&a, 0).is_none());
    assert!(ws.definition_of(&a, 0).is_none());
    // the index kept nothing of the removed file either
    assert!(ws.definition_of(&b, 8).is_none());
}

#[test]
fn definition_found_across_files() {
    // a.rb defines `class Foo; def bar; end; end`, b.rb calls `Foo.new.bar`;
    // go-to-definition on the call site lands on `def bar`.
    let mut ws = Workspace::new();
    let a = p("a.rb");
    let b = p("b.rb");
    ws.load_document(&a, p("class Foo\n  def bar\n  end\nend\n"));
    ws.load_document(&b, p("Foo.new.bar\n"));
    ws.ensure_fresh(&a).unwrap();

    let d = ws.definition_of(&b, 8).expect("bar resolves through the index");
    assert_eq!(d.primary.path, a);
    assert_eq!(d.primary.start, 12);
    assert_eq!(d.primary.end, 19);
    assert!(d.alternates.is_empty());
}

#[test]
fn rename_edit_invalidates_index() {
    // rename `bar` to `baz` in a.rb by whole-content replace;
    // once the parse cache is forced fresh the stale `bar` entry is gone.
    let mut ws = Workspace::new();
    let a = p("a.rb");
    let b = p("b.rb");
    ws.load_document(&a, p("class Foo\n  def bar\n  end\nend\n"));
    ws.load_document(&b, p("Foo.new.bar\n"));
    ws.ensure_fresh(&a).unwrap();
    assert!(ws.definition_of(&b, 8).is_some());

    ws.apply_edit(&a, p("class Foo\n  def baz\n  end\nend\n")).unwrap();
    ws.ensure_fresh(&a).unwrap();
    assert!(ws.definition_of(&b, 8).is_none());
}

#[test]
fn duplicate_definitions_prefer_most_recent_parse() {
    // two files define top-level `helper`; both are listed, the
    // most recently parsed one is primary.
    let mut ws = Workspace::new();
    let a = p("a.rb");
    let c = p("c.rb");
    let d = p("d.rb");
    ws.load_document(&a, p("def helper\nend\n"));
    ws.load_document(&c, p("def helper\nend\n"));
    ws.load_document(&d, p("helper\n"));
    ws.ensure_fresh(&a).unwrap();
    ws.ensure_fresh(&c).unwrap();

    let def = ws.definition_of(&d, 0).expect("helper resolves");
    assert_eq!(def.primary.path, c);
    assert_eq!(def.alternates.len(), 1);
    assert_eq!(def.alternates[0].path, a);

    let comps = ws.completions_at(&d, 6);
    let helpers: Vec<_> = comps.iter().filter(|x| x.name == p("helper")).collect();
    assert_eq!(helpers.len(), 2);
    assert_eq!(helpers[0].path, a);
    assert_eq!(helpers[1].path, c);
}

#[test]
fn malformed_source_still_answers_queries() {
    // an unbalanced file still yields hover and completion for the
    // nodes before the error, plus a non-empty diagnostics list.
    let mut ws = Workspace::new();
    let a = p("a.rb");
    ws.load_document(&a, p("class Foo\n  def bar\n  end\n"));

    let h = ws.hover_at(&a, 16).expect("hover inside def bar");
    assert_eq!(h.kind, SymKind::Method);
    assert_eq!(h.qualified, p("Foo::bar"));

    let comps = ws.completions_at(&a, 18);
    assert!(comps.iter().any(|c| c.name == p("bar")));

    let diags = ws.diagnostics_of(&a).unwrap();
    assert_eq!(diags.len(), 1);
    assert_eq!(diags[0].kind, DiagKind::MissingEnd);
    assert_eq!(diags[0].pos, 0);
}

#[test]
fn unexpected_end_is_reported() {
    let mut ws = Workspace::new();
    let a = p("a.rb");
    ws.load_document(&a, p("end\n"));
    ws.ensure_fresh(&a).unwrap();
    let diags = ws.diagnostics_of(&a).unwrap();
    assert_eq!(diags.len(), 1);
    assert_eq!(diags[0].kind, DiagKind::UnexpectedEnd);
    assert_eq!(diags[0].pos, 0);
}

#[test]
fn constants_are_indexed() {
    let mut ws = Workspace::new();
    let a = p("a.rb");
    ws.load_document(&a, p("LIMIT = 10\n"));
    let h = ws.hover_at(&a, 1).expect("hover over LIMIT");
    assert_eq!(h.kind, SymKind::Constant);
    assert_eq!(h.qualified, p("LIMIT"));
}

#[test]
fn comparison_is_not_a_constant_definition() {
    let mut ws = Workspace::new();
    let a = p("a.rb");
    ws.load_document(&a, p("LIMIT == 10\n"));
    assert!(ws.hover_at(&a, 1).is_none());
}

#[test]
fn keywords_in_comments_and_strings_are_ignored() {
    let mut ws = Workspace::new();
    let a = p("a.rb");
    ws.load_document(&a, p("# def ghost\nx = 'def phantom'\n"));
    ws.ensure_fresh(&a).unwrap();
    assert!(ws.diagnostics_of(&a).unwrap().is_empty());
    assert!(ws.hover_at(&a, 3).is_none());
    assert!(ws.definition_of(&a, 3).is_none());
}

#[test]
fn nested_scopes_qualify_names() {
    let mut ws = Workspace::new();
    let a = p("a.rb");
    ws.load_document(&a, p("module Outer\n  class Inner\n    def run\n    end\n  end\nend\n"));
    let h = ws.hover_at(&a, 40).expect("hover inside def run");
    assert_eq!(h.kind, SymKind::Method);
    assert_eq!(h.qualified, p("Outer::Inner::run"));
}

#[test]
fn completions_order_local_scope_before_index() {
    let mut ws = Workspace::new();
    let a = p("a.rb");
    let b = p("b.rb");
    ws.load_document(&b, p("def outside\nend\n"));
    ws.ensure_fresh(&b).unwrap();
    ws.load_document(&a, p("class Box\n  def one\n  end\n  def two\n  end\nend\no\n"));
    // cursor right after the bare `o` on the last line
    let content_len = "class Box\n  def one\n  end\n  def two\n  end\nend\no\n".len();
    let comps = ws.completions_at(&a, content_len - 1);
    let names: Vec<&[u8]> = comps.iter().map(|c| c.name.as_slice()).collect();
    // top level of a.rb has no `o...` member except nothing; index offers `outside`
    assert_eq!(names, vec![b"outside".as_slice()]);
}

#[test]
fn completions_inside_scope_list_members_lexically() {
    let mut ws = Workspace::new();
    let a = p("a.rb");
    ws.load_document(&a, p("class Box\n  def two\n  end\n  def one\n  end\nend\n"));
    // position inside the class body, empty prefix at start of `def two` line
    let comps = ws.completions_at(&a, 12);
    let names: Vec<&[u8]> = comps.iter().map(|c| c.name.as_slice()).collect();
    // innermost scope is the method `two` (position sits in its span);
    // its enclosing class lists its members in lexical order
    assert!(names.contains(&b"one".as_slice()));
    assert!(names.contains(&b"two".as_slice()));
    let one_at = names.iter().position(|n| n == &b"one".as_slice()).unwrap();
    let two_at = names.iter().position(|n| n == &b"two".as_slice()).unwrap();
    assert!(one_at < two_at);
}

#[test]
fn load_never_clobbers_an_open_buffer() {
    let mut ws = Workspace::new();
    let a = p("a.rb");
    ws.open_document(&a, p("class Editor\nend\n"));
    ws.load_document(&a, p("class Disk\nend\n"));
    let h = ws.hover_at(&a, 0).expect("hover");
    assert_eq!(h.qualified, p("Editor"));
}

#[test]
fn load_refreshes_a_closed_document() {
    let mut ws = Workspace::new();
    let a = p("a.rb");
    ws.load_document(&a, p("class Old\nend\n"));
    ws.load_document(&a, p("class New\nend\n"));
    let h = ws.hover_at(&a, 0).expect("hover");
    assert_eq!(h.qualified, p("New"));
}

#[test]
fn close_keeps_content_while_on_disk() {
    let mut ws = Workspace::new();
    let a = p("a.rb");
    ws.open_document(&a, p("class Kept\nend\n"));
    assert_eq!(ws.close_document(&a, true), Ok(()));
    let h = ws.hover_at(&a, 0).expect("hover after close");
    assert_eq!(h.qualified, p("Kept"));
}

#[test]
fn close_of_a_deleted_file_purges_it() {
    let mut ws = Workspace::new();
    let a = p("a.rb");
    ws.open_document(&a, p("class Gone\nend\n"));
    assert_eq!(ws.close_document(&a, false), Ok(()));
    assert!(ws.hover_at(&a, 0).is_none());
    assert_eq!(ws.version_of(&a), None);
}

#[test]
fn method_on_self_keeps_its_name() {
    let mut ws = Workspace::new();
    let a = p("a.rb");
    ws.load_document(&a, p("class Util\n  def self.make\n  end\nend\n"));
    let h = ws.hover_at(&a, 22).expect("hover inside def self.make");
    assert_eq!(h.kind, SymKind::Method);
    assert_eq!(h.qualified, p("Util::make"));
}

#[test]
fn empty_file_has_no_answers_and_no_diagnostics() {
    let mut ws = Workspace::new();
    let a = p("a.rb");
    ws.load_document(&a, Vec::new());
    assert!(ws.hover_at(&a, 0).is_none());
    assert!(ws.definition_of(&a, 0).is_none());
    assert!(ws.completions_at(&a, 0).is_empty());
    assert!(ws.diagnostics_of(&a).unwrap().is_empty());
}

#[test]
fn untracked_path_yields_empty_results() {
    let mut ws = Workspace::new();
    let ghost_path = p("missing.rb");
    assert!(ws.hover_at(&ghost_path, 0).is_none());
    assert!(ws.definition_of(&ghost_path, 0).is_none());
    assert!(ws.completions_at(&ghost_path, 0).is_empty());
    assert!(ws.diagnostics_of(&ghost_path).is_none());
}
