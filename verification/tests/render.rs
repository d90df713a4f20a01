use codemap::elide::{elide, spec_body_not_found, walk};
use codemap::languages::{FunctionSpec, Language, LanguageGrammar};
use codemap::parser::{parse, process_rust_code};
use codemap::process::{process, process_code, render_parsed, RenderError};
use codemap::provider::{syntax_tree, LoadFailure, ParseError};
use codemap::tree::SyntaxNode;

fn node(kind: &str, start_byte: usize, end_byte: usize, children: Vec<SyntaxNode>) -> SyntaxNode {
    SyntaxNode { kind: kind.to_string(), start_byte, end_byte, children }
}

fn grammar(specs: Vec<(&str, &str, &str)>) -> LanguageGrammar {
    let mut function_specs = Vec::new();
    for (function, function_body, replacement) in specs {
        function_specs.push(FunctionSpec {
            function: function.to_string(),
            function_body: function_body.to_string(),
            replacement: replacement.to_string(),
        });
    }
    LanguageGrammar { language: Language::Rust, function_specs }
}

fn rust_like() -> LanguageGrammar {
    grammar(vec![("function_item", "block", "{ ... }")])
}

fn render(language: Language, text: &str) -> String {
    String::from_utf8(process_code(text.as_bytes(), &language).unwrap()).unwrap()
}

fn render_tree(root: &SyntaxNode, text: &str, grammar: &LanguageGrammar) -> String {
    String::from_utf8(elide(root, text.as_bytes(), grammar)).unwrap()
}

#[test]
fn extension_table() {
    assert_eq!(Language::from_extension("rs"), Some(Language::Rust));
    assert_eq!(Language::from_extension("go"), Some(Language::Go));
    assert_eq!(Language::from_extension("js"), Some(Language::JavaScript));
    assert_eq!(Language::from_extension("py"), Some(Language::Python));
    assert_eq!(Language::from_extension("txt"), None);
    assert_eq!(Language::from_extension(""), None);
    assert_eq!(Language::from_extension("RS"), None);
    assert_eq!(Language::from_extension("rss"), None);
}

#[test]
fn registered_grammars() {
    let expected = vec![
        (Language::Rust, "function_item", "block", "{ ... }"),
        (Language::Go, "function_declaration", "block", "{ ... }"),
        (Language::JavaScript, "function_declaration", "statement_block", "{ ... }"),
        (Language::Python, "function_definition", "block", "..."),
    ];
    for (language, function, function_body, replacement) in expected {
        let grammar = language.get_grammar().unwrap();
        assert_eq!(grammar.language, language);
        assert_eq!(grammar.function_specs.len(), 1);
        assert_eq!(grammar.function_specs[0].function, function);
        assert_eq!(grammar.function_specs[0].function_body, function_body);
        assert_eq!(grammar.function_specs[0].replacement, replacement);
        assert!(grammar.is_valid());
    }
}

#[test]
fn grammar_with_a_kind_claimed_twice_is_invalid() {
    assert!(grammar(vec![]).is_valid());
    assert!(grammar(vec![("a", "b", "x"), ("c", "b", "x")]).is_valid());
    assert!(!grammar(vec![("a", "b", "x"), ("c", "b", "x"), ("a", "d", "y")]).is_valid());
}

#[test]
fn find_spec_gives_the_first_claiming_spec() {
    let g = grammar(vec![("a", "b", "x"), ("c", "b", "y"), ("c", "d", "z")]);
    assert_eq!(g.find_spec(&"a".to_string()), Some(0));
    assert_eq!(g.find_spec(&"c".to_string()), Some(1));
    assert_eq!(g.find_spec(&"b".to_string()), None);
}

#[test]
fn well_formed_ranges() {
    let good = node("root", 0, 10, vec![node("a", 0, 4, vec![]), node("b", 6, 10, vec![])]);
    assert!(good.is_well_formed());
    assert!(node("empty", 3, 3, vec![]).is_well_formed());
    assert!(!node("reversed", 4, 3, vec![]).is_well_formed());
    let overlap = node("root", 0, 10, vec![node("a", 0, 5, vec![]), node("b", 4, 10, vec![])]);
    assert!(!overlap.is_well_formed());
    let outside = node("root", 2, 8, vec![node("a", 2, 9, vec![])]);
    assert!(!outside.is_well_formed());
    let before = node("root", 2, 8, vec![node("a", 1, 3, vec![])]);
    assert!(!before.is_well_formed());
    let deep = node("root", 0, 8, vec![node("a", 0, 8, vec![node("b", 5, 4, vec![])])]);
    assert!(!deep.is_well_formed());
}

#[test]
fn single_function_body_is_replaced() {
    let input = "fn add(a: i32, b: i32) -> i32 {\n    a + b\n}\n";
    assert_eq!(render(Language::Rust, input), "fn add(a: i32, b: i32) -> i32 { ... }\n");
}

#[test]
fn leading_comment_is_kept() {
    let input = "// doc\nfn f() {\n  1\n}\n";
    assert_eq!(render(Language::Rust, input), "// doc\nfn f() { ... }\n");
}

#[test]
fn separator_between_two_functions_is_kept() {
    let input = "fn a() {\n x\n}\n\nfn b() {\n y\n}\n";
    assert_eq!(render(Language::Rust, input), "fn a() { ... }\n\nfn b() { ... }\n");
}

#[test]
fn comment_between_sibling_functions_stays_in_place() {
    let input = "fn a() { 1 }\n\n// between\n\nfn b() { 2 }\n";
    assert_eq!(render(Language::Rust, input), "fn a() { ... }\n\n// between\n\nfn b() { ... }\n");
}

#[test]
fn nested_function_is_dropped_with_the_outer_body() {
    let input = "fn outer() {\n    fn inner() { 1 }\n    inner()\n}\n";
    let output = render(Language::Rust, input);
    assert_eq!(output, "fn outer() { ... }\n");
    assert!(!output.contains("inner"));
}

#[test]
fn text_without_functions_is_unchanged() {
    let input = "// a comment\nstruct S {\n    a: u32,\n}\n\nconst N: usize = 3;\n";
    assert_eq!(render(Language::Rust, input), input);
    assert_eq!(render(Language::Rust, ""), "");
    assert_eq!(render(Language::Rust, "\n\n  \n"), "\n\n  \n");
}

#[test]
fn methods_inside_an_impl_are_replaced() {
    let input = "impl S {\n    // first\n    fn a(&self) -> u32 {\n        1\n    }\n\n    fn b(&self) {}\n}\n";
    let expected = "impl S {\n    // first\n    fn a(&self) -> u32 { ... }\n\n    fn b(&self) { ... }\n}\n";
    assert_eq!(render(Language::Rust, input), expected);
}

#[test]
fn signature_without_a_body_is_unchanged() {
    let input = "trait T {\n    fn f(&self);\n}\n";
    let output = render(Language::Rust, input);
    assert_eq!(output, "trait T {\n    fn f(&self);\n}\n");
}

#[test]
fn go_function_is_replaced() {
    let input = "package main\n\nfunc add(a int, b int) int {\n\treturn a + b\n}\n";
    assert_eq!(render(Language::Go, input), "package main\n\nfunc add(a int, b int) int { ... }\n");
}

#[test]
fn javascript_function_is_replaced() {
    let input = "// top\nfunction add(a, b) {\n  return a + b;\n}\nconst x = 1;\n";
    assert_eq!(render(Language::JavaScript, input), "// top\nfunction add(a, b) { ... }\nconst x = 1;\n");
}

#[test]
fn python_function_is_replaced() {
    let input = "import os\n\ndef add(a, b):\n    return a + b\n\nx = 1\n";
    assert_eq!(render(Language::Python, input), "import os\n\ndef add(a, b):\n    ...\n\nx = 1\n");
}

#[test]
fn unknown_language_is_copied() {
    let texts = ["", "plain text\n", "fn f() { 1 }\n", "\u{e9}t\u{e9}\n"];
    for text in texts {
        assert_eq!(process(None, text.as_bytes()), Ok(text.as_bytes().to_vec()));
    }
    let binary: Vec<u8> = vec![0, 159, 146, 150, 255];
    assert_eq!(process(None, &binary), Ok(binary.clone()));
}

#[test]
fn known_language_is_rendered() {
    let input = "fn f() {\n  1\n}\n";
    let output = process(Language::from_extension("rs"), input.as_bytes()).unwrap();
    assert_eq!(String::from_utf8(output).unwrap(), "fn f() { ... }\n");
}

#[test]
fn rust_pipeline_renders_rust_and_reports_the_rest() {
    let input = "fn f() {\n  1\n}\n";
    assert_eq!(process_rust_code(input.as_bytes()), Ok(b"fn f() { ... }\n".to_vec()));
    assert_eq!(parse(Language::Rust, input.as_bytes()), Ok(b"fn f() { ... }\n".to_vec()));
    assert_eq!(parse(Language::Rust, input.as_bytes()), process_code(input.as_bytes(), &Language::Rust));
    let go = "package p\n";
    assert_eq!(parse(Language::Go, go.as_bytes()), Err(RenderError::GrammarUnavailable(Language::Go)));
    assert_eq!(parse(Language::JavaScript, go.as_bytes()), Err(RenderError::GrammarUnavailable(Language::JavaScript)));
    assert_eq!(parse(Language::Python, b""), Err(RenderError::GrammarUnavailable(Language::Python)));
}

#[test]
fn process_on_a_known_language_is_process_code() {
    let texts = [(Language::Rust, "fn f() { 1 }\n"), (Language::Go, "func f() {\n}\n"), (Language::Python, "x = 1\n")];
    for (language, text) in texts {
        assert_eq!(process(Some(language), text.as_bytes()), process_code(text.as_bytes(), &language));
        assert!(process_code(text.as_bytes(), &language).is_ok());
    }
}

#[test]
fn syntax_tree_covers_the_text_with_typed_nodes() {
    let input = "fn f() {}\n";
    let root = syntax_tree(&Language::Rust, input.as_bytes()).unwrap();
    assert_eq!(root.kind, "source_file");
    assert!(root.is_well_formed());
    assert!(root.end_byte <= input.len());
    assert_eq!(root.children.len(), 1);
    let function = &root.children[0];
    assert_eq!(function.kind, "function_item");
    assert_eq!(function.start_byte, 0);
    assert_eq!(function.end_byte, 9);
    let body = function.children.iter().find(|child| child.kind == "block").unwrap();
    assert_eq!(body.start_byte, 7);
    assert_eq!(body.end_byte, 9);
}

#[test]
fn parser_errors_are_handed_on() {
    let code = b"fn f() {}\n";
    for error in [
        ParseError::NoTree,
        ParseError::Unreadable,
        ParseError::GrammarLoad(LoadFailure::NotParseable),
        ParseError::GrammarLoad(LoadFailure::Version(3)),
    ] {
        assert_eq!(
            render_parsed(Err(error), code, &Language::Go),
            Err(RenderError::Parse(Language::Go, error))
        );
    }
}

#[test]
fn ill_formed_tree_is_refused() {
    let code = b"0123456789";
    let beyond = node("root", 0, 11, vec![]);
    assert_eq!(render_parsed(Ok(beyond), code, &Language::Rust), Err(RenderError::MalformedTree(Language::Rust)));
    let overlap = node("root", 0, 10, vec![node("a", 0, 5, vec![]), node("b", 4, 10, vec![])]);
    assert_eq!(render_parsed(Ok(overlap), code, &Language::Python), Err(RenderError::MalformedTree(Language::Python)));
    let reversed = node("root", 5, 4, vec![]);
    assert_eq!(render_parsed(Ok(reversed), code, &Language::Go), Err(RenderError::MalformedTree(Language::Go)));
}

#[test]
fn render_parsed_walks_a_given_tree() {
    let text = "fn a() {\n x\n}\n";
    let root = node(
        "source_file",
        0,
        14,
        vec![node(
            "function_item",
            0,
            13,
            vec![node("fn", 0, 2, vec![]), node("identifier", 3, 4, vec![]), node("block", 7, 13, vec![])],
        )],
    );
    assert_eq!(render_parsed(Ok(root), text.as_bytes(), &Language::Rust), Ok(b"fn a() { ... }\n".to_vec()));
}

#[test]
fn walker_on_a_hand_built_tree() {
    let text = "  fn a() {B} /*c*/ fn b() {D}  ";
    let function = |at: usize| {
        node(
            "function_item",
            at,
            at + 10,
            vec![
                node("fn", at, at + 2, vec![]),
                node("identifier", at + 3, at + 4, vec![]),
                node("parameters", at + 4, at + 6, vec![]),
                node("block", at + 7, at + 10, vec![node("identifier", at + 8, at + 9, vec![])]),
            ],
        )
    };
    let root = node("source_file", 2, 29, vec![function(2), function(19)]);
    assert!(root.is_well_formed());
    assert_eq!(render_tree(&root, text, &rust_like()), "  fn a() { ... } /*c*/ fn b() { ... }  ");
    assert_eq!(render_tree(&root, text, &grammar(vec![])), text);
    assert_eq!(render_tree(&root, text, &grammar(vec![("function_item", "block", "")])), "  fn a()  /*c*/ fn b()   ");
}

#[test]
fn walker_takes_the_first_body_child() {
    let text = "f{a}{b}";
    let root = node(
        "function_item",
        0,
        7,
        vec![node("name", 0, 1, vec![]), node("block", 1, 4, vec![]), node("block", 4, 7, vec![])],
    );
    assert_eq!(render_tree(&root, text, &rust_like()), "f{ ... }");
}

#[test]
fn walker_without_a_body_child_copies_the_node() {
    let text = "fn f(); x";
    let root = node(
        "source_file",
        0,
        9,
        vec![
            node("function_item", 0, 7, vec![node("fn", 0, 2, vec![]), node("name", 3, 4, vec![])]),
            node("identifier", 8, 9, vec![]),
        ],
    );
    assert_eq!(render_tree(&root, text, &rust_like()), text);
}

#[test]
fn walker_does_not_look_under_a_function_without_a_body() {
    let text = "fn f = fn g {1};";
    let inner = node("function_item", 7, 15, vec![node("name", 10, 11, vec![]), node("block", 12, 15, vec![])]);
    let root = node("function_item", 0, 16, vec![node("name", 3, 4, vec![]), node("value", 7, 15, vec![inner])]);
    assert_eq!(render_tree(&root, text, &rust_like()), text);
}

#[test]
fn walker_drops_what_lies_in_a_body() {
    let text = "fn f {fn g {1}} end";
    let inner = node("function_item", 6, 14, vec![node("name", 9, 10, vec![]), node("block", 11, 14, vec![])]);
    let root = node(
        "source_file",
        0,
        19,
        vec![
            node("function_item", 0, 15, vec![node("name", 3, 4, vec![]), node("block", 5, 15, vec![inner])]),
            node("identifier", 16, 19, vec![]),
        ],
    );
    assert_eq!(render_tree(&root, text, &rust_like()), "fn f { ... } end");
}

fn body_spans(node: &SyntaxNode, spans: &mut Vec<(usize, usize)>) {
    if node.kind == "function_item" {
        if let Some(body) = node.children.iter().find(|child| child.kind == "block") {
            spans.push((body.start_byte, node.end_byte));
        }
        return;
    }
    for child in &node.children {
        body_spans(child, spans);
    }
}

#[test]
fn output_is_the_source_with_each_body_span_replaced() {
    let input = "// one\nfn a() { 1 }\nstruct S;\nimpl S {\n    fn b(&self) { fn c() {} }\n}\n// end\n";
    let root = syntax_tree(&Language::Rust, input.as_bytes()).unwrap();
    let mut spans = Vec::new();
    body_spans(&root, &mut spans);
    assert_eq!(spans.len(), 2);
    let mut expected = String::new();
    let mut at = 0;
    for (start, end) in spans {
        assert!(at <= start && start <= end && end <= input.len());
        expected.push_str(&input[at..start]);
        expected.push_str("{ ... }");
        at = end;
    }
    expected.push_str(&input[at..]);
    assert_eq!(render(Language::Rust, input), expected);
    assert_eq!(expected, "// one\nfn a() { ... }\nstruct S;\nimpl S {\n    fn b(&self) { ... }\n}\n// end\n");
}

#[test]
fn walker_with_several_specs() {
    let text = "def f: pass; fn g {1} tail";
    let root = node(
        "module",
        0,
        21,
        vec![
            node("function_definition", 0, 12, vec![node("name", 4, 5, vec![]), node("suite", 7, 12, vec![])]),
            node("function_item", 13, 21, vec![node("name", 16, 17, vec![]), node("block", 18, 21, vec![])]),
        ],
    );
    let g = grammar(vec![("function_item", "block", "{ ... }"), ("function_definition", "suite", "...")]);
    assert_eq!(render_tree(&root, text, &g), "def f: ... fn g { ... } tail");
}

#[test]
fn walker_on_a_root_that_is_a_leaf() {
    let text = " abc ";
    assert_eq!(render_tree(&node("word", 1, 4, vec![]), text, &rust_like()), text);
    assert_eq!(render_tree(&node("word", 0, 0, vec![]), text, &rust_like()), text);
    assert_eq!(render_tree(&node("word", 0, 0, vec![]), "", &rust_like()), "");
}

#[test]
fn walker_keeps_text_that_no_child_covers() {
    let text = "[ a , b ]";
    let root = node("list", 0, 9, vec![node("item", 2, 3, vec![]), node("item", 6, 7, vec![])]);
    assert_eq!(render_tree(&root, text, &rust_like()), text);
}

#[test]
fn rendering_is_repeatable() {
    let input = "fn a() {\n x\n}\n\nfn b() {\n y\n}\n";
    assert_eq!(render(Language::Rust, input), render(Language::Rust, input));
}

#[test]
fn function_without_a_body_is_reported() {
    let with_body = node(
        "source_file",
        0,
        9,
        vec![node("function_item", 0, 9, vec![node("name", 3, 4, vec![]), node("block", 7, 9, vec![])])],
    );
    assert!(!spec_body_not_found(&with_body, &rust_like()));
    let without = node(
        "source_file",
        0,
        9,
        vec![
            node("identifier", 0, 1, vec![]),
            node("item", 2, 9, vec![node("function_item", 2, 9, vec![node("name", 5, 6, vec![])])]),
        ],
    );
    assert!(spec_body_not_found(&without, &rust_like()));
    assert!(!spec_body_not_found(&without, &grammar(vec![])));
    let hidden = node(
        "function_item",
        0,
        9,
        vec![node("block", 2, 9, vec![node("function_item", 3, 8, vec![])])],
    );
    assert!(!spec_body_not_found(&hidden, &rust_like()));
    let root = syntax_tree(&Language::Rust, b"fn f() {}\n").unwrap();
    assert!(!spec_body_not_found(&root, &Language::Rust.get_grammar().unwrap()));
}

#[test]
fn deeply_nested_text_is_rendered() {
    let depth = 1000;
    let mut text = String::from("fn f() { 1 }\nconst X: u32 = ");
    for _ in 0..depth {
        text.push('(');
    }
    text.push('1');
    for _ in 0..depth {
        text.push(')');
    }
    text.push_str(";\n");
    let expected = text.replace("{ 1 }", "{ ... }");
    assert_eq!(render(Language::Rust, &text), expected);
}

#[test]
fn text_that_does_not_parse_is_still_rendered() {
    let input = "fn a( {\n x\n}\n)) ]] fn b() { y }\n";
    let output = render(Language::Rust, input);
    assert!(output.ends_with("fn b() { ... }\n"));
    let plain = "))) not a program (((\n";
    assert_eq!(render(Language::Rust, plain), plain);
}

#[test]
fn text_with_wide_characters_is_rendered() {
    let input = "// caf\u{e9} \u{1f600}\nfn f() { \"\u{e9}\" }\n// \u{4e2d}\n";
    assert_eq!(render(Language::Rust, input), "// caf\u{e9} \u{1f600}\nfn f() { ... }\n// \u{4e2d}\n");
}

#[test]
fn syntax_trees_have_well_formed_ranges_within_the_text() {
    let texts = [
        (Language::Rust, "// caf\u{e9}\nfn f() { 1 }\n\n  "),
        (Language::Rust, ")) fn ( { ]]"),
        (Language::Go, "package main\n\nfunc f() {\n}\n"),
        (Language::JavaScript, "function f() { return 1; }\n"),
        (Language::Python, "def f():\n    return 1\n"),
        (Language::Python, ""),
    ];
    for (language, text) in texts {
        let root = syntax_tree(&language, text.as_bytes()).unwrap();
        assert!(root.is_well_formed());
        assert!(root.end_byte <= text.len());
    }
}

fn function_at(start: usize, body: usize, end: usize) -> SyntaxNode {
    node(
        "function_item",
        start,
        end,
        vec![node("fn", start, start + 2, vec![]), node("identifier", start + 3, start + 4, vec![]), node("block", body, end, vec![])],
    )
}

#[test]
fn walk_over_two_functions_stops_at_the_last_one() {
    let code = "fn a() {\n x\n}\n\nfn b() {\n y\n}\n";
    let root = node("source_file", 0, 29, vec![function_at(0, 7, 13), function_at(15, 22, 28)]);
    let mut out = Vec::new();
    let mut cursor = 0;
    walk(&root, code.as_bytes(), &rust_like(), &mut out, &mut cursor);
    assert_eq!(String::from_utf8(out).unwrap(), "fn a() { ... }\n\nfn b() { ... }");
    assert_eq!(cursor, 28);
}

#[test]
fn walk_after_a_leading_comment() {
    let code = "// doc\nfn f() {\n  1\n}\n";
    let root = node("source_file", 0, 22, vec![node("line_comment", 0, 6, vec![]), function_at(7, 14, 21)]);
    let mut out = Vec::new();
    let mut cursor = 0;
    walk(&root, code.as_bytes(), &rust_like(), &mut out, &mut cursor);
    assert_eq!(String::from_utf8(out).unwrap(), "// doc\nfn f() { ... }");
    assert_eq!(cursor, 21);
}

#[test]
fn walk_over_a_leaf_copies_from_the_cursor_to_its_end() {
    let code = "ab  cdef  ";
    let mut out = b"kept".to_vec();
    let mut cursor = 2;
    walk(&node("word", 4, 8, vec![]), code.as_bytes(), &rust_like(), &mut out, &mut cursor);
    assert_eq!(String::from_utf8(out).unwrap(), "kept  cdef");
    assert_eq!(cursor, 8);
}

#[test]
fn walk_over_a_function_without_a_body_copies_it() {
    let code = "x fn f(); y";
    let bare = node("function_item", 2, 9, vec![node("fn", 2, 4, vec![]), node("name", 5, 6, vec![])]);
    let mut out = b"x".to_vec();
    let mut cursor = 1;
    walk(&bare, code.as_bytes(), &rust_like(), &mut out, &mut cursor);
    assert_eq!(String::from_utf8(out).unwrap(), "x fn f();");
    assert_eq!(cursor, 9);
}

#[test]
fn walk_over_a_function_writes_one_placeholder() {
    let code = "  fn f {fn g {1}} end";
    let inner = node("function_item", 8, 16, vec![node("name", 11, 12, vec![]), node("block", 13, 16, vec![])]);
    let outer = node("function_item", 2, 17, vec![node("name", 5, 6, vec![]), node("block", 7, 17, vec![inner])]);
    let mut out = Vec::new();
    let mut cursor = 0;
    walk(&outer, code.as_bytes(), &rust_like(), &mut out, &mut cursor);
    assert_eq!(String::from_utf8(out).unwrap(), "  fn f { ... }");
    assert_eq!(cursor, 17);
}
