use mutilate::context::{build_context, Context};
use mutilate::node::{mutilate_document, DocumentError, Node, NodeKind};
use typst_syntax::{ast, SyntaxKind, SyntaxNode};

fn convert(node: &SyntaxNode) -> Node {
    let kind = match node.kind() {
        SyntaxKind::Text => NodeKind::Text,
        SyntaxKind::LineComment => NodeKind::LineComment,
        SyntaxKind::BlockComment => NodeKind::BlockComment,
        SyntaxKind::Str => NodeKind::Str,
        SyntaxKind::Raw => NodeKind::Raw {
            language: node
                .cast::<ast::Raw>()
                .and_then(|raw| raw.lang())
                .map(|tag| tag.get().to_string()),
        },
        SyntaxKind::Link => NodeKind::Link,
        SyntaxKind::ModuleInclude => NodeKind::ModuleInclude,
        SyntaxKind::ModuleImport => NodeKind::ModuleImport,
        _ => NodeKind::Other,
    };
    Node {
        kind,
        text: node.text().to_string(),
        children: node.children().map(convert).collect(),
    }
}

fn run(source: &str, context: &mut Context) -> Result<String, DocumentError> {
    let tree = typst_syntax::parse(source);
    mutilate_document(&convert(&tree), tree.errors().len(), context)
}

fn plain(seed: u8, aggressive: bool) -> Context {
    build_context([seed; 32], "en", None, aggressive).unwrap()
}

/// Whether `out` is `source` with letters for the letters and digits of
/// the places marked in `mask` by `x`, and the same characters elsewhere.
fn fits(source: &str, mask: &str, out: &str) -> bool {
    let source: Vec<char> = source.chars().collect();
    let mask: Vec<char> = mask.chars().collect();
    let out: Vec<char> = out.chars().collect();
    source.len() == mask.len()
        && source.len() == out.len()
        && (0..source.len()).all(|i| {
            if mask[i] == 'x' {
                out[i].is_ascii_alphabetic()
            } else {
                out[i] == source[i]
            }
        })
}

#[test]
fn markup_keeps_its_structure() {
    let source = "= Title\n\nSome *bold* and _soft_ words.\n- an item\n";
    let mask__ = "= xxxxx\n\nxxxx *xxxx* xxx _xxxx_ xxxxx.\n- xx xxxx\n";
    for seed in 0..10u8 {
        let mut context = plain(seed, false);
        let out = run(source, &mut context).unwrap();
        assert!(fits(source, mask__, &out), "{:?}", out);
    }
}

#[test]
fn comments_keep_their_delimiters() {
    let source = "text // a note\n/* more\n notes */ end";
    let mask__ = "xxxx // x xxxx\n/* xxxx\n xxxxx */ xxx";
    let mut context = plain(1, false);
    let out = run(source, &mut context).unwrap();
    assert!(fits(source, mask__, &out), "{:?}", out);
}

#[test]
fn an_open_block_comment_keeps_its_last_characters() {
    let source = "/* never closed";
    let mask__ = "/* xxxxx xxxxed";
    let mut context = plain(1, false);
    let out = run(source, &mut context).unwrap();
    assert!(fits(source, mask__, &out), "{:?}", out);
}

#[test]
fn code_is_echoed_but_for_its_text() {
    let source = "#let value = 3\n#figure(caption: [A label])\n";
    let mask__ = "#let value = 3\n#figure(caption: [x xxxxx])\n";
    let mut context = plain(2, false);
    let out = run(source, &mut context).unwrap();
    assert!(fits(source, mask__, &out), "{:?}", out);
}

#[test]
fn strings_are_mutilated_only_when_aggressive() {
    let source = "#text(\"secret\")[shown]";
    let mask_1 = "#text(\"secret\")[xxxxx]";
    let mask_2 = "#text(\"xxxxxx\")[xxxxx]";
    let mut context = plain(3, false);
    let out = run(source, &mut context).unwrap();
    assert!(fits(source, mask_1, &out), "{:?}", out);
    let mut context = plain(3, true);
    let out = run(source, &mut context).unwrap();
    assert!(fits(source, mask_2, &out), "{:?}", out);
}

#[test]
fn module_directives_stay_as_they_are() {
    let source = "#import \"lib.typ\": helper, other\n#include \"chapter.typ\"\nbody";
    let mask__ = "#import \"lib.typ\": helper, other\n#include \"chapter.typ\"\nxxxx";
    for aggressive in [false, true] {
        let mut context = plain(4, aggressive);
        let out = run(source, &mut context).unwrap();
        assert!(fits(source, mask__, &out), "{:?}", out);
    }
}

#[test]
fn raw_blocks_keep_fences_and_language() {
    let source = "before\n```rust\nfn main() {}\n```\nand `inline code` after";
    let mask__ = "xxxxxx\n```rust\nxx xxxx() {}\n```\nxxx `xxxxxx xxxx` xxxxx";
    let mut context = plain(5, false);
    let out = run(source, &mut context).unwrap();
    assert!(fits(source, mask__, &out), "{:?}", out);
}

#[test]
fn links_are_mutilated() {
    let source = "see https://typst.app/docs now";
    let mask__ = "xxx xxxxx://xxxxx.xxx/xxxx xxx";
    let mut context = plain(6, false);
    let out = run(source, &mut context).unwrap();
    assert!(fits(source, mask__, &out), "{:?}", out);
}

#[test]
fn numbers_collapse_in_a_document() {
    let mut context = plain(7, false);
    let out = run("In 2024 we met.", &mut context).unwrap();
    let chars: Vec<char> = out.chars().collect();
    assert_eq!(chars.len(), 12);
    assert!(chars[3].is_ascii_digit());
    assert_eq!(chars[2], ' ');
    assert_eq!(chars[4], ' ');
    assert_eq!(chars[11], '.');
}

#[test]
fn a_document_with_syntax_errors_gives_nothing() {
    let mut context = plain(8, false);
    assert_eq!(run("#let x = (1, 2", &mut context), Err(DocumentError::Syntax));
    assert_eq!(run("some \"text\" and #", &mut context), Err(DocumentError::Syntax));
}

#[test]
fn an_empty_raw_block_is_turned_down() {
    let mut context = plain(9, false);
    assert_eq!(run("a `` b", &mut context), Err(DocumentError::Delimiters));
}

#[test]
fn the_empty_document_gives_the_empty_document() {
    let mut context = plain(10, false);
    assert_eq!(run("", &mut context), Ok(String::new()));
}
