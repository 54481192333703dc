use hare_lsp::doc::{Document, HareKind, Position};
use hare_lsp::module::{module_of_ident, resolve_ident};
use hare_lsp::path::{entry_action, import_dirs, is_source_file, module_from_path, EntryAction};
use hare_lsp::query::{find_definition, generate_completions, generate_hover, module_files, DefinitionResponse};
use hare_lsp::store::{update_docs, DocStore};

fn lines(text: &[&str]) -> Vec<String> {
    text.iter().map(|l| l.to_string()).collect()
}

fn ident(segs: &[&str]) -> Vec<String> {
    segs.iter().map(|s| s.to_string()).collect()
}

fn store(files: &[(&str, &[&str])]) -> DocStore {
    let mut docs = DocStore::new();
    for (path, text) in files {
        assert!(docs.index_file(path.to_string(), lines(text)));
    }
    docs
}

#[test]
fn unimported_identifier_is_local() {
    let imports = vec![ident(&["io"])];
    assert_eq!(resolve_ident("main", &ident(&["helper"]), &imports), ident(&["main", "helper"]));
    assert_eq!(module_of_ident(&ident(&["helper"]), "main", &imports), "main");
    assert_eq!(resolve_ident("main", &ident(&["fmt", "x"]), &imports), ident(&["main", "fmt", "x"]));
    assert_eq!(module_of_ident(&ident(&["fmt", "x"]), "main", &imports), "fmt");
}

#[test]
fn imported_identifier_is_qualified_by_import() {
    let imports = vec![ident(&["encoding", "utf8"])];
    assert_eq!(
        resolve_ident("main", &ident(&["utf8", "decode"]), &imports),
        ident(&["encoding", "utf8", "decode"])
    );
    assert_eq!(module_of_ident(&ident(&["utf8", "decode"]), "main", &imports), "utf8");
}

#[test]
fn println_imported_from_fmt() {
    let imports = vec![ident(&["fmt", "println"])];
    assert_eq!(resolve_ident("main", &ident(&["println"]), &imports), ident(&["fmt", "println"]));
    assert_eq!(module_of_ident(&ident(&["println"]), "main", &imports), "fmt");
    let docs = store(&[
        ("/src/main/main.ha", &["use fmt::println;", "println(x);"]),
        ("/lib/fmt/print.ha", &["fn println() void;"]),
    ]);
    let pos = Position { line: 1, character: 2 };
    match find_definition(&docs, "/src/main/main.ha", pos) {
        DefinitionResponse::Array(v) => assert!(v.is_empty()),
        DefinitionResponse::Scalar(_) => panic!("an unexported declaration was found"),
    }
    let docs = store(&[
        ("/src/main/main.ha", &["use fmt::println;", "println(x);"]),
        ("/lib/fmt/print.ha", &["export fn println() void;"]),
    ]);
    match find_definition(&docs, "/src/main/main.ha", pos) {
        DefinitionResponse::Scalar(loc) => {
            assert_eq!(loc.path, "/lib/fmt/print.ha");
            assert_eq!(loc.range.start, Position { line: 0, character: 10 });
        }
        DefinitionResponse::Array(_) => panic!("expected one definition"),
    }
}

#[test]
fn build_tag_directory_belongs_to_parent_module() {
    assert_eq!(module_from_path("/std/unix/+linux/open.ha"), Some("unix".to_string()));
    assert_eq!(module_from_path("unix/+linux/open.ha"), Some("unix".to_string()));
    assert_eq!(module_from_path("/std/unix/open.ha"), Some("unix".to_string()));
    assert_eq!(module_from_path("/open.ha"), None);
    assert_eq!(module_from_path("+linux/open.ha"), None);
    let docs = store(&[
        ("/std/unix/+linux/open.ha", &["export fn open() void;"]),
        ("/std/unix/close.ha", &["export fn close() void;"]),
        ("/std/io/io.ha", &["export fn open() void;"]),
    ]);
    assert_eq!(module_files(&docs, "unix"), vec![1, 2]);
    assert!(module_files(&docs, "+linux").is_empty());
}

#[test]
fn source_files_and_entries() {
    assert!(is_source_file("/a/b.ha"));
    assert!(!is_source_file("/a/.ha"));
    assert!(!is_source_file("/a/b.hb"));
    assert_eq!(entry_action("x.ha", true, false), EntryAction::Index);
    assert_eq!(entry_action("+x86_64", false, true), EntryAction::Descend);
    assert_eq!(entry_action("sub", false, true), EntryAction::Skip);
    assert_eq!(entry_action("README", true, false), EntryAction::Skip);
    assert_eq!(entry_action("+x.ha", false, true), EntryAction::Descend);
}

#[test]
fn import_dirs_join_every_root_with_every_import() {
    let roots = vec!["/usr/src/hare/stdlib/".to_string(), "/opt/third".to_string()];
    let imports = vec![ident(&["fmt"]), ident(&["encoding", "utf8"])];
    assert_eq!(
        import_dirs(&roots, &imports),
        vec![
            "/usr/src/hare/stdlib/fmt".to_string(),
            "/opt/third/fmt".to_string(),
            "/usr/src/hare/stdlib/encoding/utf8".to_string(),
            "/opt/third/encoding/utf8".to_string(),
        ]
    );
}

#[test]
fn indexing_twice_does_not_parse_again() {
    let mut docs = DocStore::new();
    assert!(docs.index_file("/m/a.ha".to_string(), lines(&["fn a() void;"])));
    assert!(!docs.index_file("/m/a.ha".to_string(), lines(&["fn b() void;"])));
    assert_eq!(docs.entries.len(), 1);
    assert_eq!(docs.entries[0].1.items[0].name, "a");
    assert!(docs.contains("/m/a.ha"));
    assert!(!docs.contains("/m/b.ha"));
}

#[test]
fn change_that_drops_imports_loads_nothing() {
    let mut docs = store(&[("/m/main.ha", &["use io;", "fn main() void;"])]);
    let added = update_docs(&mut docs, "/m/main.ha", lines(&["fn main() void;"]));
    assert!(added.is_empty());
    assert!(docs.entries[0].1.imports.is_empty());
}

#[test]
fn change_loads_only_new_imports() {
    let mut docs = store(&[("/m/main.ha", &["use io;"])]);
    let added = update_docs(&mut docs, "/m/main.ha", lines(&["use io;", "use fmt;", "use os::exec;"]));
    assert_eq!(added, vec![ident(&["fmt"]), ident(&["os", "exec"])]);
    assert_eq!(docs.entries[0].1.lines.len(), 3);
}

#[test]
fn change_of_unknown_file_does_nothing() {
    let mut docs = store(&[("/m/main.ha", &["use io;"])]);
    let added = update_docs(&mut docs, "/m/other.ha", lines(&["use fmt;"]));
    assert!(added.is_empty());
    assert_eq!(docs.entries.len(), 1);
    assert!(!docs.contains("/m/other.ha"));
}

#[test]
fn local_definition_sees_unexported_and_lists_all() {
    let docs = store(&[
        ("/p/m/a.ha", &["fn helper() void;", "helper();"]),
        ("/p/m/b.ha", &["export fn helper() void;"]),
        ("/p/n/c.ha", &["export fn helper() void;"]),
    ]);
    match find_definition(&docs, "/p/m/a.ha", Position { line: 1, character: 0 }) {
        DefinitionResponse::Array(v) => {
            assert_eq!(v.len(), 2);
            assert_eq!(v[0].path, "/p/m/a.ha");
            assert_eq!(v[1].path, "/p/m/b.ha");
        }
        DefinitionResponse::Scalar(_) => panic!("expected two definitions"),
    }
}

#[test]
fn out_of_range_queries_give_nothing() {
    let docs = store(&[("/p/m/a.ha", &["fn helper() void;"])]);
    match find_definition(&docs, "/p/m/a.ha", Position { line: 5, character: 0 }) {
        DefinitionResponse::Array(v) => assert!(v.is_empty()),
        DefinitionResponse::Scalar(_) => panic!(),
    }
    assert!(generate_hover(&docs, "/p/m/a.ha", Position { line: 0, character: 99 }).is_none());
    assert!(generate_completions(&docs, "/p/m/other.ha", Position { line: 0, character: 0 }).is_empty());
}

#[test]
fn hover_shows_comment_above_declaration() {
    let docs = store(&[
        ("/p/main/main.ha", &["use io;", "io::write();"]),
        ("/p/io/io.ha", &["// Writes data.", "export fn write() void;"]),
    ]);
    let hover = generate_hover(&docs, "/p/main/main.ha", Position { line: 1, character: 5 }).unwrap();
    assert_eq!(hover.contents, " Writes data.\n");
    assert_eq!(hover.range.start, Position { line: 1, character: 10 });
}

#[test]
fn hover_without_adjacent_comment_is_empty() {
    let docs = store(&[
        ("/p/main/main.ha", &["use io;", "io::write();"]),
        ("/p/io/io.ha", &["// Detached.", "", "export fn write() void;"]),
    ]);
    assert!(generate_hover(&docs, "/p/main/main.ha", Position { line: 1, character: 5 }).is_none());
}

#[test]
fn completion_offers_every_symbol_of_module() {
    let docs = store(&[
        ("/p/main/main.ha", &["use io;", "io::"]),
        ("/p/io/a.ha", &["// Doc.", "export fn write() void;", "fn hidden() void;"]),
        ("/p/io/+linux/b.ha", &["export type file = int;"]),
        ("/p/fmt/f.ha", &["export fn println() void;"]),
    ]);
    let items = generate_completions(&docs, "/p/main/main.ha", Position { line: 1, character: 4 });
    let mut labels: Vec<(String, HareKind, Option<String>)> =
        items.into_iter().map(|c| (c.label, c.kind, c.documentation)).collect();
    labels.sort_by(|a, b| a.0.cmp(&b.0));
    assert_eq!(
        labels,
        vec![
            ("file".to_string(), HareKind::Type, None),
            ("hidden".to_string(), HareKind::Fn, None),
            ("write".to_string(), HareKind::Fn, Some(" Doc.\n".to_string())),
        ]
    );
}

#[test]
fn insert_replaces_document_of_same_path() {
    let mut docs = DocStore::new();
    docs.insert("/m/a.ha".to_string(), Document::new(lines(&["fn a() void;"])));
    docs.insert("/m/a.ha".to_string(), Document::new(lines(&["fn b() void;"])));
    assert_eq!(docs.entries.len(), 1);
    assert_eq!(docs.entries[0].1.items[0].name, "b");
}

#[test]
fn file_in_build_tag_directory_is_found_in_parent_module() {
    let docs = store(&[("/src/unix/+linux/open.ha", &["export fn open() void;"])]);
    assert_eq!(module_files(&docs, "unix"), vec![0]);
    let item = &docs.entries[0].1.items[0];
    assert_eq!((item.kind, item.name.as_str(), item.exported), (HareKind::Fn, "open", true));
    let docs = store(&[
        ("/src/main/main.ha", &["use unix;", "unix::open();"]),
        ("/src/unix/+linux/open.ha", &["export fn open() void;"]),
    ]);
    match find_definition(&docs, "/src/main/main.ha", Position { line: 1, character: 7 }) {
        DefinitionResponse::Scalar(loc) => assert_eq!(loc.path, "/src/unix/+linux/open.ha"),
        DefinitionResponse::Array(_) => panic!("expected one definition"),
    }
}

#[test]
fn store_keeps_paths_in_order() {
    let docs = store(&[("/p/m/c.ha", &[]), ("/p/m/a.ha", &[]), ("/p/m/b.ha", &[]), ("/p/m/a.h", &[])]);
    let paths: Vec<&str> = docs.entries.iter().map(|e| e.0.as_str()).collect();
    assert_eq!(paths, vec!["/p/m/a.h", "/p/m/a.ha", "/p/m/b.ha", "/p/m/c.ha"]);
}

#[test]
fn definitions_in_several_files_come_in_path_order() {
    let docs = store(&[
        ("/p/m/z.ha", &["export fn f() void;"]),
        ("/p/m/a.ha", &["fn f() void;", "f();"]),
        ("/p/m/k.ha", &["fn f() void;"]),
    ]);
    match find_definition(&docs, "/p/m/a.ha", Position { line: 1, character: 0 }) {
        DefinitionResponse::Array(v) => {
            let paths: Vec<&str> = v.iter().map(|l| l.path.as_str()).collect();
            assert_eq!(paths, vec!["/p/m/a.ha", "/p/m/k.ha", "/p/m/z.ha"]);
        }
        DefinitionResponse::Scalar(_) => panic!("expected three definitions"),
    }
}
