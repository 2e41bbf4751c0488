use alejandra::children::{count_line_breaks, extract, Child, Trivia};
use alejandra::syntax::{NodeKind, SyntaxElement, TokenKind};

fn token(text: &str) -> SyntaxElement {
    SyntaxElement::Token { kind: TokenKind::Other, text: text.to_string() }
}

fn space(text: &str) -> SyntaxElement {
    SyntaxElement::Token { kind: TokenKind::Whitespace, text: text.to_string() }
}

fn comment(text: &str) -> SyntaxElement {
    SyntaxElement::Token { kind: TokenKind::Comment, text: text.to_string() }
}

fn node(children: Vec<SyntaxElement>) -> SyntaxElement {
    SyntaxElement::Node { kind: NodeKind::Other, children }
}

fn elements(node: &SyntaxElement) -> &Vec<SyntaxElement> {
    match node {
        SyntaxElement::Node { children, .. } => children,
        SyntaxElement::Token { .. } => panic!("a token has no children"),
    }
}

#[test]
fn line_breaks_are_counted() {
    assert_eq!(count_line_breaks(""), 0);
    assert_eq!(count_line_breaks("   "), 0);
    assert_eq!(count_line_breaks("\n"), 1);
    assert_eq!(count_line_breaks(" \n  \n\t\n"), 3);
    assert_eq!(count_line_breaks("\r\n"), 1);
}

#[test]
fn a_token_has_no_children() {
    let leaf = token("a");
    assert_eq!(extract(&leaf), Vec::<Child>::new());
}

#[test]
fn a_node_without_meaningful_children_yields_nothing() {
    let empty = node(vec![]);
    assert!(extract(&empty).is_empty());
    let only_trivia = node(vec![space("\n"), comment("# alone"), space("\n")]);
    assert!(extract(&only_trivia).is_empty());
}

#[test]
fn meaningful_children_come_in_source_order() {
    let tree = node(vec![token("a"), space(" "), node(vec![token("b")]), space(" "), token("c")]);
    let children = extract(&tree);
    let parts = elements(&tree);
    assert_eq!(
        children,
        vec![
            Child { element: &parts[0], inline_comment: None, trivialities: vec![] },
            Child { element: &parts[2], inline_comment: None, trivialities: vec![] },
            Child { element: &parts[4], inline_comment: None, trivialities: vec![] },
        ]
    );
}

#[test]
fn a_comment_on_the_same_line_is_the_inline_comment() {
    let tree = node(vec![token("a"), space(" "), comment("# note"), space("\n  "), token("b")]);
    let children = extract(&tree);
    assert_eq!(children.len(), 2);
    assert_eq!(children[0].inline_comment, Some("# note"));
    assert!(children[0].trivialities.is_empty());
    assert!(children[0].has_inline_comment());
    assert!(!children[0].has_trivialities());
    assert!(!children[0].has_comments());
    assert_eq!(children[1].inline_comment, None);
}

#[test]
fn a_comment_on_a_later_line_joins_the_trivia() {
    let tree = node(vec![token("a"), space("\n  "), comment("# below"), space("\n  "), token("b")]);
    let children = extract(&tree);
    assert_eq!(children[0].inline_comment, None);
    assert_eq!(
        children[0].trivialities,
        vec![Trivia::BlankRun(1), Trivia::Comment("# below"), Trivia::BlankRun(1)]
    );
    assert!(!children[0].has_inline_comment());
    assert!(children[0].has_trivialities());
    assert!(children[0].has_comments());
}

#[test]
fn at_most_one_comment_is_inline() {
    let tree = node(vec![
        token("a"),
        comment("/* one */"),
        space(" "),
        comment("/* two */"),
        space("\n"),
        token("b"),
    ]);
    let children = extract(&tree);
    assert_eq!(children[0].inline_comment, Some("/* one */"));
    assert_eq!(
        children[0].trivialities,
        vec![Trivia::Comment("/* two */"), Trivia::BlankRun(1)]
    );
}

#[test]
fn the_break_that_ends_an_inline_comment_is_not_counted() {
    let tree = node(vec![token("a"), space(" "), comment("# note"), space("\n\n\n"), token("b")]);
    let children = extract(&tree);
    assert_eq!(children[0].inline_comment, Some("# note"));
    assert_eq!(children[0].trivialities, vec![Trivia::BlankRun(2)]);
    assert!(children[0].has_trivialities());
    assert!(!children[0].has_comments());
}

#[test]
fn whitespace_without_a_line_break_is_dropped() {
    let tree = node(vec![token("a"), space("   \t"), token("b"), space(" ")]);
    let children = extract(&tree);
    assert_eq!(children.len(), 2);
    assert!(!children[0].has_trivialities());
    assert!(!children[1].has_trivialities());
}

#[test]
fn trivia_before_the_first_child_is_dropped() {
    let tree = node(vec![comment("# lead"), space("\n"), token("a"), space("\n"), comment("# x")]);
    let children = extract(&tree);
    let parts = elements(&tree);
    assert_eq!(
        children,
        vec![Child {
            element: &parts[2],
            inline_comment: None,
            trivialities: vec![Trivia::BlankRun(1), Trivia::Comment("# x")],
        }]
    );
}

#[test]
fn trivia_attaches_to_the_child_before_it() {
    let tree = node(vec![
        token("a"),
        space("\n"),
        token("b"),
        space(" "),
        comment("# of b"),
        space("\n"),
        comment("# still of b"),
        space("\n\n"),
        token("c"),
    ]);
    let children = extract(&tree);
    assert_eq!(children.len(), 3);
    assert_eq!(children[0].trivialities, vec![Trivia::BlankRun(1)]);
    assert_eq!(children[1].inline_comment, Some("# of b"));
    assert_eq!(
        children[1].trivialities,
        vec![Trivia::Comment("# still of b"), Trivia::BlankRun(2)]
    );
    assert!(children[2].trivialities.is_empty());
}

#[test]
fn attaching_by_hand_matches_extraction() {
    let leaf = token("a");
    let mut child = Child::new(&leaf);
    assert_eq!(child, Child { element: &leaf, inline_comment: None, trivialities: vec![] });
    child.attach_whitespace("  ");
    assert!(!child.has_trivialities());
    child.attach_comment("# one");
    child.attach_whitespace("\n");
    child.attach_comment("# two");
    child.attach_whitespace("\n\n");
    assert_eq!(child.inline_comment, Some("# one"));
    assert_eq!(child.trivialities, vec![Trivia::Comment("# two"), Trivia::BlankRun(2)]);
}

#[test]
fn the_text_of_a_node_joins_its_tokens() {
    let tree = node(vec![
        token("("),
        node(vec![token("a"), space(" "), comment("/* c */")]),
        token(")"),
    ]);
    assert_eq!(tree.to_text(), "(a /* c */)");
    assert_eq!(token("x").to_text(), "x");
    assert_eq!(node(vec![]).to_text(), "");
    let mut out = String::from(">");
    tree.write_text(&mut out);
    assert_eq!(out, ">(a /* c */)");
}

#[test]
fn heights_count_levels() {
    assert_eq!(token("x").measured_height(), Some(1));
    assert_eq!(node(vec![]).measured_height(), Some(1));
    assert_eq!(node(vec![token("x")]).measured_height(), Some(2));
    let deep = node(vec![token("x"), node(vec![node(vec![token("y")])]), token("z")]);
    assert_eq!(deep.measured_height(), Some(4));
}

#[test]
fn trivia_are_told_from_meaningful_elements() {
    assert!(space(" ").trivia());
    assert!(comment("#").trivia());
    assert!(!token("a").trivia());
    assert!(!node(vec![]).trivia());
}

#[test]
fn every_comment_is_kept_once_and_in_order() {
    let tree = node(vec![
        comment("# before any child"),
        token("a"),
        space(" "),
        comment("# 1"),
        space("\n"),
        comment("# 2"),
        space("\n\n"),
        comment("# 3"),
        token("b"),
        comment("# 4"),
        comment("# 5"),
        space("\n"),
        token("c"),
    ]);
    let mut kept = Vec::new();
    for child in extract(&tree).iter() {
        if let Some(text) = child.inline_comment {
            kept.push(text);
        }
        for trivia in child.trivialities.iter() {
            if let Trivia::Comment(text) = trivia {
                kept.push(*text);
            }
        }
    }
    assert_eq!(kept, vec!["# 1", "# 2", "# 3", "# 4", "# 5"]);
}

#[test]
fn no_blank_run_of_an_extracted_child_is_empty() {
    let tree = node(vec![
        token("a"),
        space(" "),
        comment("# 1"),
        space("\n"),
        comment("# 2"),
        space(" "),
        space("\n\n"),
        token("b"),
        space("  "),
    ]);
    let children = extract(&tree);
    assert_eq!(children[0].inline_comment, Some("# 1"));
    assert_eq!(children[0].trivialities, vec![Trivia::Comment("# 2"), Trivia::BlankRun(2)]);
    assert!(children[1].trivialities.is_empty());
    for child in children.iter() {
        for trivia in child.trivialities.iter() {
            assert_ne!(*trivia, Trivia::BlankRun(0));
        }
    }
}
