use cpu_api::names::ROOT;
use cpu_api::render::{parse_style, render, Style, UnknownRenderStyle};
use cpu_api::tree::ProcessTree;

// a -> b -> d, a -> c
fn tree() -> ProcessTree {
    let mut t = ProcessTree::new();
    let b = t.fork(ROOT).unwrap();
    t.fork(ROOT).unwrap();
    t.fork(b).unwrap();
    t
}

#[test]
fn style_names() {
    assert_eq!(parse_style("basic"), Ok(Style::Basic));
    assert_eq!(parse_style("line1"), Ok(Style::Line1));
    assert_eq!(parse_style("line2"), Ok(Style::Line2));
    assert_eq!(parse_style("fancy"), Ok(Style::Fancy));
    assert_eq!(parse_style("Fancy"), Err(UnknownRenderStyle));
    assert_eq!(parse_style(""), Err(UnknownRenderStyle));
}

#[test]
fn basic_indents_four_spaces() {
    assert_eq!(render(&tree(), Style::Basic), "a\n    b\n        d\n    c\n");
}

#[test]
fn fancy_draws_boxes() {
    assert_eq!(render(&tree(), Style::Fancy), " ─ ─ a\n├── b\n│   └── d\n└── c\n");
}

#[test]
fn line1_and_line2_glyphs() {
    assert_eq!(render(&tree(), Style::Line1), " - - a\n+-- b\n|   |-- d\n|-- c\n");
    assert_eq!(render(&tree(), Style::Line2), " _ _ a\n|__ b\n|   |__ d\n|__ c\n");
}

#[test]
fn last_branch_clears_vertical() {
    // a -> b -> c -> d, with b the only child: no verticals below it.
    let mut t = ProcessTree::new();
    let b = t.fork(ROOT).unwrap();
    let c = t.fork(b).unwrap();
    t.fork(c).unwrap();
    assert_eq!(render(&t, Style::Fancy), " ─ ─ a\n└── b\n    └── c\n        └── d\n");
}

#[test]
fn root_alone() {
    assert_eq!(render(&ProcessTree::new(), Style::Basic), "a\n");
}
