use alejandra::builder::{is_runnable, render, try_render, BuildCtx, Renderer, Step};
use alejandra::children::{Child, Trivia};
use alejandra::rules::inherit::{
    any_carries_trivia, arrange, child_text, emission_order_of, format_inherit_child,
    from_clause, is_inherit_ready, rule,
};
use alejandra::rules::{dispatch, pass_through};
use alejandra::syntax::{NodeKind, SyntaxElement, TokenKind};

fn token(text: &str) -> SyntaxElement {
    SyntaxElement::Token { kind: TokenKind::Other, text: text.to_string() }
}

fn space(text: &str) -> SyntaxElement {
    SyntaxElement::Token { kind: TokenKind::Whitespace, text: text.to_string() }
}

fn comment(text: &str) -> SyntaxElement {
    SyntaxElement::Token { kind: TokenKind::Comment, text: text.to_string() }
}

fn ident(name: &str) -> SyntaxElement {
    SyntaxElement::Node { kind: NodeKind::Other, children: vec![token(name)] }
}

fn from(name: &str) -> SyntaxElement {
    SyntaxElement::Node {
        kind: NodeKind::InheritFrom,
        children: vec![token("("), ident(name), token(")")],
    }
}

fn inherit(children: Vec<SyntaxElement>) -> SyntaxElement {
    SyntaxElement::Node { kind: NodeKind::Inherit, children }
}

fn other(children: Vec<SyntaxElement>) -> SyntaxElement {
    SyntaxElement::Node { kind: NodeKind::Other, children }
}

fn elements(node: &SyntaxElement) -> &Vec<SyntaxElement> {
    match node {
        SyntaxElement::Node { children, .. } => children,
        SyntaxElement::Token { .. } => panic!("a token has no children"),
    }
}

fn plain(names: &[&str]) -> SyntaxElement {
    let mut children = vec![token("inherit")];
    for name in names {
        children.push(space(" "));
        children.push(ident(name));
    }
    children.push(token(";"));
    inherit(children)
}

fn horizontal() -> BuildCtx {
    BuildCtx { vertical: false, indent_width: 2 }
}

fn forced() -> BuildCtx {
    BuildCtx { vertical: true, indent_width: 2 }
}

fn names_in(steps: &[Step]) -> Vec<String> {
    let mut names = Vec::new();
    for step in steps {
        match step {
            Step::Format(element) | Step::FormatWide(element) => names.push(element.to_text()),
            _ => {},
        }
    }
    names
}

fn count(steps: &[Step], wanted: &Step) -> usize {
    steps.iter().filter(|step| *step == wanted).count()
}

#[test]
fn scenario_sorted_on_one_line() {
    let tree = plain(&["c", "a", "b"]);
    assert_eq!(render(&horizontal(), &tree), "inherit a b c;");
}

#[test]
fn scenario_comment_keeps_order_and_expands() {
    let tree = inherit(vec![
        token("inherit"),
        space(" "),
        ident("c"),
        space(" "),
        ident("a"),
        space(" "),
        comment("# note"),
        space("\n  "),
        ident("b"),
        token(";"),
    ]);
    assert_eq!(render(&horizontal(), &tree), "inherit\n  c\n  a # note\n  b\n  ;");
}

#[test]
fn sort_suppression() {
    let sorted = plain(&["c", "a", "b"]);
    let steps = rule(&horizontal(), &sorted);
    assert_eq!(names_in(&steps), vec!["inherit", "a", "b", "c", ";"]);

    let commented = inherit(vec![
        token("inherit"),
        space(" "),
        ident("c"),
        space(" "),
        ident("a"),
        space(" "),
        ident("b"),
        space(" "),
        comment("# trailing"),
        space("\n"),
        token(";"),
    ]);
    let steps = rule(&horizontal(), &commented);
    assert_eq!(names_in(&steps), vec!["inherit", "c", "a", "b", ";"]);
}

#[test]
fn names_sort_in_natural_order() {
    let tree = plain(&["item10", "item2", "item1"]);
    assert_eq!(render(&horizontal(), &tree), "inherit item1 item2 item10;");
}

#[test]
fn horizontal_steps_are_exact() {
    let tree = plain(&["b", "a"]);
    let parts = elements(&tree);
    let steps = rule(&horizontal(), &tree);
    assert_eq!(
        steps,
        vec![
            Step::Format(&parts[0]),
            Step::SingleSpace,
            Step::Format(&parts[4]),
            Step::SingleSpace,
            Step::Format(&parts[2]),
            Step::Format(&parts[5]),
        ]
    );
}

#[test]
fn vertical_steps_are_exact() {
    let tree = plain(&["b", "a"]);
    let parts = elements(&tree);
    let steps = rule(&forced(), &tree);
    assert_eq!(
        steps,
        vec![
            Step::Format(&parts[0]),
            Step::Indent,
            Step::NewLine,
            Step::Pad,
            Step::FormatWide(&parts[4]),
            Step::NewLine,
            Step::Pad,
            Step::FormatWide(&parts[2]),
            Step::NewLine,
            Step::Pad,
            Step::FormatWide(&parts[5]),
            Step::Dedent,
        ]
    );
}

#[test]
fn a_forcing_context_expands_a_plain_construct() {
    let tree = plain(&["b", "a"]);
    assert_eq!(render(&forced(), &tree), "inherit\n  a\n  b\n  ;");
}

#[test]
fn the_from_clause_stays_first() {
    let tree = inherit(vec![
        token("inherit"),
        space(" "),
        from("pkgs"),
        space(" "),
        ident("zlib"),
        space(" "),
        ident("curl"),
        token(";"),
    ]);
    assert_eq!(render(&horizontal(), &tree), "inherit (pkgs) curl zlib;");
    assert_eq!(render(&forced(), &tree), "inherit\n  (pkgs)\n  curl\n  zlib\n  ;");
}

#[test]
fn a_comment_on_the_from_clause_keeps_the_order() {
    let tree = inherit(vec![
        token("inherit"),
        space(" "),
        from("pkgs"),
        space(" "),
        comment("# all of them"),
        space("\n  "),
        ident("zlib"),
        space(" "),
        ident("curl"),
        token(";"),
    ]);
    assert_eq!(
        render(&horizontal(), &tree),
        "inherit\n  (pkgs) # all of them\n  zlib\n  curl\n  ;"
    );
}

#[test]
fn a_comment_on_the_keyword_expands_but_still_sorts() {
    let tree = inherit(vec![
        token("inherit"),
        space(" "),
        comment("# why"),
        space("\n  "),
        ident("b"),
        space(" "),
        ident("a"),
        token(";"),
    ]);
    assert_eq!(render(&horizontal(), &tree), "inherit # why\n  a\n  b\n  ;");
}

#[test]
fn a_comment_on_the_terminator_expands_but_still_sorts() {
    let tree = inherit(vec![
        token("inherit"),
        space(" "),
        ident("b"),
        space(" "),
        ident("a"),
        token(";"),
        space(" "),
        comment("# done"),
    ]);
    assert_eq!(render(&horizontal(), &tree), "inherit\n  a\n  b\n  ; # done\n  ");
}

#[test]
fn line_breaks_between_names_keep_the_layout_and_the_order() {
    let tree = inherit(vec![
        token("inherit"),
        space("\n  "),
        ident("b"),
        space("\n\n  "),
        ident("a"),
        space("\n"),
        token(";"),
    ]);
    assert_eq!(render(&horizontal(), &tree), "inherit\n  b\n  a\n  ;");
}

#[test]
fn standalone_comments_get_padded_lines() {
    let tree = inherit(vec![
        token("inherit"),
        space("\n  "),
        comment("# first"),
        space("\n  "),
        ident("b"),
        space("\n  "),
        comment("# about a"),
        space("\n  "),
        ident("a"),
        token(";"),
    ]);
    assert_eq!(render(&horizontal(), &tree), "inherit\n  # first\n  b\n  # about a\n  a\n  ;");
}

#[test]
fn a_blank_line_after_an_inline_comment_is_kept_once() {
    let tree = inherit(vec![
        token("inherit"),
        space(" "),
        ident("b"),
        space(" "),
        comment("# note"),
        space("\n\n\n  "),
        ident("a"),
        token(";"),
    ]);
    assert_eq!(render(&horizontal(), &tree), "inherit\n  b # note\n\n  a\n  ;");
}

#[test]
fn keyword_and_terminator_alone() {
    let tree = inherit(vec![token("inherit"), token(";")]);
    assert_eq!(render(&horizontal(), &tree), "inherit;");
    assert_eq!(render(&forced(), &tree), "inherit\n  ;");
}

#[test]
fn the_indentation_unit_is_read_from_the_context() {
    let tree = plain(&["a"]);
    let wide = BuildCtx { vertical: true, indent_width: 4 };
    assert_eq!(render(&wide, &tree), "inherit\n    a\n    ;");
    let none = BuildCtx { vertical: true, indent_width: 0 };
    assert_eq!(render(&none, &tree), "inherit\na\n;");
}

#[test]
fn nested_constructs_indent_by_depth() {
    let inner = inherit(vec![
        token("inherit"),
        space(" "),
        ident("y"),
        space(" "),
        comment("# why"),
        space("\n"),
        ident("x"),
        token(";"),
    ]);
    let wrapped = other(vec![token("{"), inner, token("}")]);
    let tree = inherit(vec![
        token("inherit"),
        space(" "),
        wrapped,
        space(" "),
        comment("# outer"),
        space("\n"),
        token(";"),
    ]);
    assert_eq!(
        render(&horizontal(), &tree),
        "inherit\n  {inherit\n    y # why\n    x\n    ;} # outer\n  ;"
    );
}

#[test]
fn other_nodes_pass_through_unchanged() {
    let tree = other(vec![
        token("{"),
        space("\n  "),
        comment("# kept"),
        space("\n  "),
        plain(&["b", "a"]),
        space("\n"),
        token("}"),
    ]);
    assert_eq!(render(&horizontal(), &tree), "{\n  # kept\n  inherit a b;\n}");
    let parts = elements(&tree);
    let steps = pass_through(&horizontal(), &tree);
    assert_eq!(steps.len(), 7);
    assert_eq!(steps[0], Step::Format(&parts[0]));
    assert_eq!(steps[4], Step::Format(&parts[4]));
    let steps = pass_through(&forced(), &tree);
    assert_eq!(steps[4], Step::FormatWide(&parts[4]));
}

#[test]
fn dispatch_picks_the_rule_by_kind() {
    let construct = plain(&["b", "a"]);
    assert_eq!(dispatch(&horizontal(), &construct), rule(&horizontal(), &construct));
    let clause = from("pkgs");
    assert_eq!(dispatch(&horizontal(), &clause), pass_through(&horizontal(), &clause));
    let leaf = token("x");
    assert_eq!(dispatch(&horizontal(), &leaf), Vec::<Step>::new());
}

#[test]
fn dispatch_is_pure() {
    let tree = plain(&["item10", "item2", "item1"]);
    assert_eq!(dispatch(&forced(), &tree), dispatch(&forced(), &tree));
    assert_eq!(render(&forced(), &tree), render(&forced(), &tree));
}

#[test]
fn a_token_renders_as_its_text() {
    assert_eq!(render(&horizontal(), &token("inherit")), "inherit");
    assert_eq!(render(&forced(), &comment("# c")), "# c");
}

#[test]
fn indentation_is_balanced() {
    let trees = vec![
        plain(&["c", "a", "b"]),
        inherit(vec![token("inherit"), token(";")]),
        inherit(vec![
            token("inherit"),
            space(" "),
            comment("# k"),
            space("\n\n"),
            comment("# l"),
            space("\n"),
            from("x"),
            space("\n"),
            ident("a"),
            token(";"),
            space(" "),
            comment("# t"),
        ]),
        other(vec![token("a"), token("b")]),
    ];
    for tree in trees.iter() {
        for ctx in [horizontal(), forced()].iter() {
            let steps = dispatch(ctx, tree);
            assert_eq!(count(&steps, &Step::Indent), count(&steps, &Step::Dedent));
        }
    }
}

#[test]
fn the_terminator_is_never_sorted() {
    let tree = inherit(vec![
        token("inherit"),
        space(" "),
        ident("b"),
        space(" "),
        ident("a"),
        space(" "),
        ident("0"),
    ]);
    let steps = rule(&horizontal(), &tree);
    assert_eq!(names_in(&steps), vec!["inherit", "a", "b", "0"]);
    assert_eq!(render(&horizontal(), &tree), "inherit a b0");
    let steps = rule(&forced(), &tree);
    let parts = elements(&tree);
    assert_eq!(steps[steps.len() - 2], Step::FormatWide(&parts[6]));
    assert_eq!(steps[steps.len() - 1], Step::Dedent);
}

#[test]
fn formatting_the_formatted_tree_changes_nothing() {
    let first = render(&horizontal(), &plain(&["c", "a", "b"]));
    let second = render(&horizontal(), &plain(&["a", "b", "c"]));
    assert_eq!(first, second);

    let tree = inherit(vec![
        token("inherit"),
        space(" "),
        ident("c"),
        space(" "),
        comment("# note"),
        space("\n\n"),
        ident("a"),
        token(";"),
    ]);
    let first = render(&horizontal(), &tree);
    assert_eq!(first, "inherit\n  c # note\n\n  a\n  ;");
    let reread = inherit(vec![
        token("inherit"),
        space("\n  "),
        ident("c"),
        space(" "),
        comment("# note"),
        space("\n\n  "),
        ident("a"),
        space("\n  "),
        token(";"),
    ]);
    assert_eq!(render(&horizontal(), &reread), first);
}

#[test]
fn the_emission_order_lists_the_middle_children() {
    let tree = inherit(vec![
        token("inherit"),
        space(" "),
        from("x"),
        space(" "),
        ident("b10"),
        space(" "),
        ident("b9"),
        space(" "),
        ident("a"),
        token(";"),
    ]);
    let children = alejandra::children::extract(&tree);
    assert!(is_inherit_ready(&children));
    assert_eq!(emission_order_of(&children), vec![1, 4, 3, 2]);
    assert!(from_clause(&children[1]));
    assert!(!from_clause(&children[2]));
    assert_eq!(child_text(&children[1]), "(x)");
    assert_eq!(child_text(&children[2]), "b10");
    assert!(!any_carries_trivia(&children, 0, 5));
}

#[test]
fn readiness_rejects_broken_shapes() {
    let lonely = inherit(vec![token("inherit")]);
    assert!(!is_inherit_ready(&alejandra::children::extract(&lonely)));
    assert!(!lonely.is_well_formed());
    assert_eq!(try_render(&horizontal(), &lonely), None);

    let empty = inherit(vec![]);
    assert_eq!(try_render(&horizontal(), &empty), None);

    let misplaced = inherit(vec![token("inherit"), ident("a"), from("x"), token(";")]);
    assert_eq!(try_render(&horizontal(), &misplaced), None);

    let as_terminator = inherit(vec![token("inherit"), from("x")]);
    assert_eq!(try_render(&horizontal(), &as_terminator), None);

    let as_keyword = inherit(vec![from("x"), ident("a"), token(";")]);
    assert_eq!(try_render(&horizontal(), &as_keyword), None);

    let nested = other(vec![token("{"), inherit(vec![token("inherit")]), token("}")]);
    assert!(!nested.is_well_formed());
    assert_eq!(try_render(&horizontal(), &nested), None);
}

#[test]
fn readiness_rejects_names_that_cannot_be_ranked() {
    let long = plain(&["a", "b12345678901"]);
    assert!(!long.is_well_formed());
    assert_eq!(try_render(&horizontal(), &long), None);

    let kept = inherit(vec![
        token("inherit"),
        space(" "),
        ident("b12345678901"),
        space(" "),
        comment("# kept as written"),
        space("\n"),
        ident("a"),
        token(";"),
    ]);
    assert!(kept.is_well_formed());
    assert_eq!(
        try_render(&horizontal(), &kept),
        Some("inherit\n  b12345678901 # kept as written\n  a\n  ;".to_string())
    );
}

#[test]
fn try_render_agrees_with_render() {
    let tree = plain(&["c", "a", "b"]);
    assert!(tree.is_well_formed());
    assert_eq!(try_render(&horizontal(), &tree), Some("inherit a b c;".to_string()));
    assert_eq!(try_render(&forced(), &token("x")), Some("x".to_string()));
}

#[test]
fn one_child_in_a_horizontal_layout() {
    let leaf = ident("a");
    let child = Child { element: &leaf, inline_comment: Some("# dropped"), trivialities: vec![] };
    let mut steps = vec![Step::Indent];
    format_inherit_child(&mut steps, false, &child, true);
    assert_eq!(steps, vec![Step::Indent, Step::SingleSpace, Step::Format(&leaf)]);
    let mut steps = Vec::new();
    format_inherit_child(&mut steps, false, &child, false);
    assert_eq!(steps, vec![Step::Format(&leaf)]);
}

#[test]
fn one_child_in_a_vertical_layout() {
    let leaf = ident("a");
    let bare = Child { element: &leaf, inline_comment: None, trivialities: vec![] };
    let mut steps = Vec::new();
    format_inherit_child(&mut steps, true, &bare, true);
    assert_eq!(steps, vec![Step::FormatWide(&leaf), Step::NewLine, Step::Pad]);
    let mut steps = Vec::new();
    format_inherit_child(&mut steps, true, &bare, false);
    assert_eq!(steps, vec![Step::FormatWide(&leaf)]);
}

#[test]
fn an_inline_comment_is_padded_unless_a_blank_run_follows() {
    let leaf = ident("a");
    let alone = Child { element: &leaf, inline_comment: Some("# c"), trivialities: vec![] };
    let mut steps = Vec::new();
    format_inherit_child(&mut steps, true, &alone, false);
    assert_eq!(
        steps,
        vec![
            Step::FormatWide(&leaf),
            Step::SingleSpace,
            Step::Comment("# c"),
            Step::NewLine,
            Step::Pad,
        ]
    );

    let before_blank = Child {
        element: &leaf,
        inline_comment: Some("# c"),
        trivialities: vec![Trivia::BlankRun(1)],
    };
    let mut steps = Vec::new();
    format_inherit_child(&mut steps, true, &before_blank, true);
    assert_eq!(
        steps,
        vec![
            Step::FormatWide(&leaf),
            Step::SingleSpace,
            Step::Comment("# c"),
            Step::NewLine,
            Step::NewLine,
            Step::Pad,
        ]
    );

    let before_comment = Child {
        element: &leaf,
        inline_comment: Some("# c"),
        trivialities: vec![Trivia::Comment("# d")],
    };
    let mut steps = Vec::new();
    format_inherit_child(&mut steps, true, &before_comment, true);
    assert_eq!(
        steps,
        vec![
            Step::FormatWide(&leaf),
            Step::SingleSpace,
            Step::Comment("# c"),
            Step::NewLine,
            Step::Pad,
            Step::Comment("# d"),
            Step::NewLine,
            Step::Pad,
        ]
    );
}

#[test]
fn a_comment_before_a_blank_run_does_not_end_its_line_twice() {
    let leaf = ident("a");
    let child = Child {
        element: &leaf,
        inline_comment: None,
        trivialities: vec![
            Trivia::Comment("# one"),
            Trivia::BlankRun(2),
            Trivia::Comment("# two"),
            Trivia::Comment("# three"),
        ],
    };
    let mut steps = Vec::new();
    format_inherit_child(&mut steps, true, &child, true);
    assert_eq!(
        steps,
        vec![
            Step::FormatWide(&leaf),
            Step::NewLine,
            Step::Pad,
            Step::Comment("# one"),
            Step::NewLine,
            Step::Pad,
            Step::Comment("# two"),
            Step::NewLine,
            Step::Pad,
            Step::Comment("# three"),
            Step::NewLine,
            Step::Pad,
        ]
    );
}

#[test]
fn the_last_child_ends_no_line() {
    let leaf = token(";");
    let child = Child {
        element: &leaf,
        inline_comment: None,
        trivialities: vec![Trivia::BlankRun(1), Trivia::Comment("# end")],
    };
    let mut steps = Vec::new();
    format_inherit_child(&mut steps, true, &child, false);
    assert_eq!(
        steps,
        vec![Step::FormatWide(&leaf), Step::NewLine, Step::Pad, Step::Comment("# end")]
    );

    let commented = Child {
        element: &leaf,
        inline_comment: None,
        trivialities: vec![Trivia::Comment("# end")],
    };
    let mut steps = Vec::new();
    format_inherit_child(&mut steps, true, &commented, false);
    assert_eq!(
        steps,
        vec![Step::FormatWide(&leaf), Step::NewLine, Step::Pad, Step::Comment("# end")]
    );
}

#[test]
fn the_renderer_executes_each_step() {
    let leaf = token("x");
    let mut renderer = Renderer::new();
    assert_eq!(renderer.depth, 0);
    assert_eq!(renderer.output, "");
    let steps = vec![
        Step::Format(&leaf),
        Step::Indent,
        Step::Indent,
        Step::NewLine,
        Step::Pad,
        Step::Comment("# c"),
        Step::SingleSpace,
        Step::FormatWide(&leaf),
        Step::Dedent,
        Step::NewLine,
        Step::Pad,
        Step::Dedent,
        Step::Pad,
    ];
    renderer.execute(3, &steps);
    assert_eq!(renderer.depth, 0);
    assert_eq!(renderer.output, "x\n      # c x\n   ");
}

#[test]
fn the_renderer_keeps_what_it_has() {
    let mut renderer = Renderer { depth: 2, output: String::from("head") };
    renderer.step(2, &Step::Pad);
    assert_eq!(renderer.output, "head    ");
    renderer.step(2, &Step::Dedent);
    assert_eq!(renderer.depth, 1);
    renderer.pad(1);
    assert_eq!(renderer.output, "head     ");
    let tree = plain(&["b", "a"]);
    renderer.format(&forced(), &tree);
    assert_eq!(renderer.depth, 1);
    assert_eq!(renderer.output, "head     inherit\n    a\n    b\n    ;");
}

#[test]
fn padding_only_follows_a_line_break() {
    let tree = inherit(vec![
        token("inherit"),
        space(" "),
        comment("# k"),
        space("\n\n  "),
        comment("# l"),
        space("\n  "),
        from("x"),
        space(" "),
        comment("# f"),
        space("\n\n  "),
        ident("b"),
        space("\n  "),
        comment("# m"),
        space("\n  "),
        ident("a"),
        token(";"),
    ]);
    for ctx in [horizontal(), forced()].iter() {
        let steps = rule(ctx, &tree);
        assert!(count(&steps, &Step::Pad) > 0);
        for i in 0..steps.len() {
            if steps[i] == Step::Pad {
                assert!(i > 0 && steps[i - 1] == Step::NewLine);
            }
        }
    }
    assert_eq!(
        render(&horizontal(), &tree),
        "inherit # k\n  # l\n  (x) # f\n\n  b\n  # m\n  a\n  ;"
    );
}

#[test]
fn every_child_of_an_expanded_construct_begins_a_padded_line() {
    let tree = inherit(vec![
        token("inherit"),
        space(" "),
        from("x"),
        space(" "),
        ident("b"),
        space(" "),
        comment("# why b"),
        space("\n"),
        ident("a"),
        token(";"),
    ]);
    let steps = rule(&horizontal(), &tree);
    assert_eq!(steps[1], Step::Indent);
    assert_eq!(steps[steps.len() - 1], Step::Dedent);
    let mut wide = 0;
    for i in 1..steps.len() {
        match steps[i] {
            Step::Format(_) => panic!("a compact element in an expanded construct"),
            Step::FormatWide(_) => {
                wide += 1;
                assert_eq!(steps[i - 1], Step::Pad);
            },
            _ => {},
        }
    }
    assert_eq!(wide, 4);
}

#[test]
fn nothing_follows_a_bare_terminator_but_the_closing() {
    let tree = plain(&["b", "a"]);
    let parts = elements(&tree);
    let steps = rule(&horizontal(), &tree);
    assert_eq!(steps[steps.len() - 1], Step::Format(&parts[5]));
    let steps = rule(&forced(), &tree);
    assert_eq!(steps[steps.len() - 2], Step::FormatWide(&parts[5]));
    assert_eq!(steps[steps.len() - 1], Step::Dedent);
}

#[test]
fn a_tree_without_the_construct_renders_as_written() {
    let tree = other(vec![
        token("{"),
        space("\n\n   "),
        comment("/* kept */"),
        space(" "),
        other(vec![ident("a"), space("  "), token("="), space("\t"), from("b")]),
        token(";"),
        space("\n"),
        token("}"),
    ]);
    let source = tree.to_text();
    assert_eq!(source, "{\n\n   /* kept */ a  =\t(b);\n}");
    assert_eq!(render(&horizontal(), &tree), source);
    assert_eq!(render(&forced(), &tree), source);
}

#[test]
fn never_two_blank_lines_in_a_row() {
    let tree = inherit(vec![
        token("inherit"),
        space(" "),
        comment("# k"),
        space("\n\n\n\n  "),
        ident("c"),
        space(" "),
        comment("# c"),
        space("\n\n\n\n\n  "),
        comment("# above b"),
        space("\n\n\n  "),
        ident("b"),
        space("\n\n\n\n  "),
        ident("a"),
        space("\n\n\n"),
        token(";"),
    ]);
    let steps = rule(&horizontal(), &tree);
    for i in 2..steps.len() {
        if steps[i] == Step::NewLine && steps[i - 2] == Step::NewLine {
            assert_ne!(steps[i - 1], Step::NewLine);
            assert_ne!(steps[i - 1], Step::Pad);
        }
    }
    let text = render(&horizontal(), &tree);
    assert_eq!(text, "inherit # k\n  c # c\n\n  # above b\n  b\n  a\n  ;");
    assert!(!text.contains("\n\n\n"));
}

#[test]
fn steps_that_would_leave_the_depth_range_cannot_run() {
    assert!(is_runnable(&Vec::new(), 0));
    assert!(is_runnable(&vec![Step::Indent, Step::Pad, Step::Dedent], 0));
    assert!(!is_runnable(&vec![Step::Dedent], 0));
    assert!(is_runnable(&vec![Step::Dedent], 1));
    assert!(!is_runnable(&vec![Step::Indent, Step::Dedent, Step::Dedent, Step::Indent], 0));
    assert!(!is_runnable(&vec![Step::Indent], usize::MAX));
    assert!(is_runnable(&vec![Step::Dedent, Step::Indent], usize::MAX));
}

#[test]
fn steps_with_a_broken_element_cannot_run() {
    let good = plain(&["b", "a"]);
    let broken = inherit(vec![token("inherit")]);
    assert!(is_runnable(&vec![Step::Format(&good), Step::FormatWide(&good)], 0));
    assert!(!is_runnable(&vec![Step::Format(&good), Step::FormatWide(&broken)], 0));
    assert!(!is_runnable(&vec![Step::Format(&good)], usize::MAX - 1));
    assert!(is_runnable(&vec![Step::Format(&token("x"))], usize::MAX - 1));
    for ctx in [horizontal(), forced()].iter() {
        assert!(is_runnable(&rule(ctx, &good), 0));
    }
}

#[test]
fn a_given_order_is_emitted_as_given() {
    let tree = plain(&["c", "a", "b"]);
    let parts = elements(&tree);
    let children = alejandra::children::extract(&tree);
    let steps = arrange(&horizontal(), &children, &vec![3, 1, 2]);
    assert_eq!(names_in(&steps), vec!["inherit", "b", "c", "a", ";"]);
    let steps = arrange(&horizontal(), &children, &vec![2]);
    assert_eq!(
        steps,
        vec![
            Step::Format(&parts[0]),
            Step::SingleSpace,
            Step::Format(&parts[4]),
            Step::Format(&parts[7]),
        ]
    );
    let steps = arrange(&forced(), &children, &Vec::new());
    assert_eq!(
        steps,
        vec![
            Step::Format(&parts[0]),
            Step::Indent,
            Step::NewLine,
            Step::Pad,
            Step::FormatWide(&parts[7]),
            Step::Dedent,
        ]
    );
    assert_eq!(
        arrange(&forced(), &children, &emission_order_of(&children)),
        rule(&forced(), &tree)
    );
}

#[test]
fn every_comment_of_the_last_child_gets_a_padded_line() {
    let leaf = token(";");
    let child = Child {
        element: &leaf,
        inline_comment: None,
        trivialities: vec![Trivia::Comment("# x"), Trivia::Comment("# y")],
    };
    let mut steps = Vec::new();
    format_inherit_child(&mut steps, true, &child, false);
    assert_eq!(
        steps,
        vec![
            Step::FormatWide(&leaf),
            Step::NewLine,
            Step::Pad,
            Step::Comment("# x"),
            Step::NewLine,
            Step::Pad,
            Step::Comment("# y"),
        ]
    );

    let mixed = Child {
        element: &leaf,
        inline_comment: Some("# in"),
        trivialities: vec![
            Trivia::Comment("# x"),
            Trivia::BlankRun(2),
            Trivia::Comment("# y"),
            Trivia::BlankRun(1),
        ],
    };
    let mut steps = Vec::new();
    format_inherit_child(&mut steps, true, &mixed, false);
    assert_eq!(
        steps,
        vec![
            Step::FormatWide(&leaf),
            Step::SingleSpace,
            Step::Comment("# in"),
            Step::NewLine,
            Step::Pad,
            Step::Comment("# x"),
            Step::NewLine,
            Step::Pad,
            Step::Comment("# y"),
        ]
    );
}

#[test]
fn only_the_break_that_ends_the_last_block_is_dropped() {
    let leaf = token(";");
    let trivia = vec![Trivia::Comment("# x"), Trivia::Comment("# y"), Trivia::BlankRun(1)];
    let child = Child { element: &leaf, inline_comment: None, trivialities: trivia };
    let mut last = Vec::new();
    format_inherit_child(&mut last, true, &child, false);
    let mut inner = Vec::new();
    format_inherit_child(&mut inner, true, &child, true);
    assert_eq!(inner.len(), last.len() + 2);
    assert_eq!(inner[..last.len()], last[..]);
    assert_eq!(inner[last.len()..], [Step::NewLine, Step::Pad]);

    let blank = Child { element: &leaf, inline_comment: None, trivialities: vec![Trivia::BlankRun(3)] };
    let mut steps = Vec::new();
    format_inherit_child(&mut steps, true, &blank, false);
    assert_eq!(steps, vec![Step::FormatWide(&leaf)]);
}

#[test]
fn comments_behind_the_terminator_keep_their_lines() {
    let tree = inherit(vec![
        token("inherit"),
        space(" "),
        ident("b"),
        space(" "),
        ident("a"),
        token(";"),
        space("\n  "),
        comment("# x"),
        space("\n  "),
        comment("# y"),
    ]);
    assert_eq!(render(&horizontal(), &tree), "inherit\n  a\n  b\n  ;\n  # x\n  # y");
}
