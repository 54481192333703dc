use hare_lsp::doc::{get_imports, parse_items, positions_fit, Document, HareKind, Position, Range};
use hare_lsp::ident::get_identifier;

fn lines(text: &[&str]) -> Vec<String> {
    text.iter().map(|l| l.to_string()).collect()
}

fn ident(segs: &[&str]) -> Vec<String> {
    segs.iter().map(|s| s.to_string()).collect()
}

#[test]
fn export_fn_line_gives_exported_function() {
    let items = parse_items(&lines(&["export fn main(): void = {"]));
    assert_eq!(items.len(), 1);
    let item = &items[0];
    assert_eq!(item.kind, HareKind::Fn);
    assert_eq!(item.name, "main");
    assert!(item.exported);
    assert_eq!(
        item.range,
        Range {
            start: Position { line: 0, character: 10 },
            end: Position { line: 0, character: 14 },
        }
    );
}

#[test]
fn bare_forms_are_not_exported() {
    let src = lines(&["fn helper() void = {", "type point = struct {", "def LIMIT = 4;", "let x = 1;", "const y = 2;"]);
    let items = parse_items(&src);
    assert_eq!(items.len(), 5);
    for item in &items {
        assert!(!item.exported);
    }
    let kinds: Vec<HareKind> = (0..5u32)
        .map(|l| items.iter().find(|i| i.range.start.line == l).unwrap().kind)
        .collect();
    assert_eq!(kinds, vec![HareKind::Fn, HareKind::Type, HareKind::Def, HareKind::Var, HareKind::Var]);
}

#[test]
fn export_forms_are_exported() {
    let src = lines(&["export type a = int;", "export def B = 1;", "export let c = 2;", "export const d = 3;"]);
    let items = parse_items(&src);
    assert_eq!(items.len(), 4);
    for item in &items {
        assert!(item.exported);
    }
}

#[test]
fn range_recovers_name() {
    let src = lines(&["export fn   spaced_name(x: int) int = x;", "let   total: int = 0;"]);
    for item in parse_items(&src) {
        let line: Vec<char> = src[item.range.start.line as usize].chars().collect();
        let text: String = line[item.range.start.character as usize..item.range.end.character as usize]
            .iter()
            .collect();
        assert_eq!(text, item.name);
    }
}

#[test]
fn name_after_whitespace_is_located_after_prefix() {
    let items = parse_items(&lines(&["fn fn() void;"]));
    assert_eq!(items.len(), 1);
    assert_eq!(items[0].name, "fn");
    assert_eq!(items[0].range.start.character, 3);
    assert_eq!(items[0].range.end.character, 5);
}

#[test]
fn non_declaration_lines_give_nothing() {
    let items = parse_items(&lines(&["", "// fn comment", "  fn indented() void;", "return x;"]));
    assert!(items.is_empty());
}

#[test]
fn use_io_imports_io() {
    let imports = get_imports(&lines(&["use io;"]));
    assert_eq!(imports, vec![ident(&["io"])]);
}

#[test]
fn use_fmt_strings_imports_two_segments() {
    let imports = get_imports(&lines(&["use fmt::strings;"]));
    assert_eq!(imports, vec![ident(&["fmt", "strings"])]);
}

#[test]
fn imports_are_collapsed_and_incomplete_ones_skipped() {
    let imports = get_imports(&lines(&["use io;", "use os", "use io;", "use strings;"]));
    assert_eq!(imports, vec![ident(&["io"]), ident(&["strings"])]);
}

#[test]
fn identifier_extends_left_over_separators() {
    let line = "    fmt::println(\"hi\");";
    assert_eq!(get_identifier(line, 11), ident(&["fmt", "println"]));
    assert_eq!(get_identifier(line, 4), ident(&["fmt"]));
}

#[test]
fn identifier_after_separator_resolves_following_segment() {
    let line = "io::";
    assert_eq!(get_identifier(line, 4), ident(&["io"]));
    let line = "x = io::write(y)";
    assert_eq!(get_identifier(line, 8), ident(&["io", "write"]));
}

#[test]
fn identifier_at_line_edges() {
    assert_eq!(get_identifier("", 0), ident(&[""]));
    assert_eq!(get_identifier("abc", 3), ident(&["abc"]));
    assert_eq!(get_identifier("abc", 0), ident(&["abc"]));
    assert_eq!(get_identifier("a b", 1), ident(&["a"]));
}

#[test]
fn documentation_of_commented_declaration() {
    let doc = Document::new(lines(&["// Writes.", "// Twice.", "export fn write() void;"]));
    let item = &doc.items[0];
    assert_eq!(doc.get_documentation(item), Some(" Writes.\n Twice.\n".to_string()));
}

#[test]
fn no_documentation_when_line_above_is_no_comment() {
    let doc = Document::new(lines(&["// Far away.", "", "export fn write() void;"]));
    let item = &doc.items[0];
    assert_eq!(doc.get_documentation(item), None);
    let doc = Document::new(lines(&["export fn first() void;"]));
    assert_eq!(doc.get_documentation(&doc.items[0]), None);
}

#[test]
fn document_new_collects_items_and_imports() {
    let doc = Document::new(lines(&["use io;", "", "export fn main() void = {", "};"]));
    assert_eq!(doc.imports, vec![ident(&["io"])]);
    assert_eq!(doc.items.len(), 1);
    assert_eq!(doc.items[0].name, "main");
    assert_eq!(doc.lines.len(), 4);
}

#[test]
fn non_ascii_letters_stay_in_names() {
    let items = parse_items(&lines(&["let ünïcode_x = 1;"]));
    assert_eq!(items[0].name, "ünïcode_x");
    assert_eq!(items[0].range.end.character, 13);
}

#[test]
fn tabs_and_unicode_spaces_are_skipped_before_names() {
    let items = parse_items(&lines(&["fn\t\u{3000}name() void;"]));
    assert_eq!(items[0].name, "name");
    assert_eq!(items[0].range.start.character, 4);
    assert_eq!(items[0].range.end.character, 8);
}

#[test]
fn ordinary_texts_fit_positions() {
    assert!(positions_fit(&lines(&["fn a() void;", ""])));
    assert!(positions_fit(&[]));
}

#[test]
fn empty_name_stands_at_end_of_prefix() {
    let items = parse_items(&lines(&["fn ", "type"]));
    assert_eq!(items.len(), 2);
    for item in &items {
        assert_eq!(item.name, "");
    }
    let fn_item = items.iter().find(|i| i.kind == HareKind::Fn).unwrap();
    assert_eq!(fn_item.range.start, Position { line: 0, character: 2 });
    assert_eq!(fn_item.range.end, Position { line: 0, character: 2 });
    let type_item = items.iter().find(|i| i.kind == HareKind::Type).unwrap();
    assert_eq!(type_item.range.start, Position { line: 1, character: 4 });
    assert_eq!(type_item.range.end, Position { line: 1, character: 4 });
}

#[test]
fn white_space_before_names_agrees_with_std() {
    for code in 0u32..0x3100 {
        let Some(c) = char::from_u32(code) else { continue };
        if c.is_alphanumeric() || c == '_' || c == '\n' || c == '\r' {
            continue;
        }
        let items = parse_items(&lines(&[&format!("fn{c}x")]));
        let expected = if c.is_whitespace() { "x" } else { "" };
        assert_eq!(items[0].name, expected, "code point {code:#x}");
    }
}
