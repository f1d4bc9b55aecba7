use nesfab_language_server::backend::{Backend, CompletionKind, UpdateFailure};
use nesfab_language_server::symbol::{Symbol, SymbolTable};
use nesfab_language_server::tree::{NodeData, Position, SrcRange, SyntaxTree};

fn node(
    kind: &str,
    named: bool,
    field: Option<&str>,
    parent: Option<usize>,
    span: (usize, usize, usize, usize),
    text: &str,
) -> NodeData {
    NodeData {
        kind: kind.to_string(),
        named,
        field: field.map(|f| f.to_string()),
        parent,
        range: SrcRange {
            start: Position { line: span.0, character: span.1 },
            end: Position { line: span.2, character: span.3 },
        },
        text: text.to_string(),
    }
}

/// `fn add(a, b)\n    return a + b\n`
fn tree_defining_add() -> SyntaxTree {
    SyntaxTree {
        nodes: vec![
            node("module", true, None, None, (0, 0, 2, 0), "fn add(a, b)\n    return a + b\n"),
            node(
                "function_definition",
                true,
                None,
                Some(0),
                (0, 0, 1, 18),
                "fn add(a, b)\n    return a + b",
            ),
            node("signature", true, Some("signature"), Some(1), (0, 0, 0, 12), "fn add(a, b)"),
            node("identifier", true, Some("name"), Some(2), (0, 3, 0, 6), "add"),
        ],
    }
}

/// `fn main()\n    add(1, 2)\n`
fn tree_calling_add() -> SyntaxTree {
    SyntaxTree {
        nodes: vec![
            node("module", true, None, None, (0, 0, 2, 0), "fn main()\n    add(1, 2)\n"),
            node(
                "function_definition",
                true,
                None,
                Some(0),
                (0, 0, 1, 13),
                "fn main()\n    add(1, 2)",
            ),
            node("signature", true, Some("signature"), Some(1), (0, 0, 0, 9), "fn main()"),
            node("identifier", true, Some("name"), Some(2), (0, 3, 0, 7), "main"),
            node("call", true, None, Some(1), (1, 4, 1, 13), "add(1, 2)"),
            node("identifier", true, None, Some(4), (1, 4, 1, 7), "add"),
        ],
    }
}

/// `// adds two numbers\nfn add(a, b)\n    return a + b\n`
fn tree_with_comment() -> SyntaxTree {
    SyntaxTree {
        nodes: vec![
            node(
                "module",
                true,
                None,
                None,
                (0, 0, 3, 0),
                "// adds two numbers\nfn add(a, b)\n    return a + b\n",
            ),
            node("comment", true, None, Some(0), (0, 0, 0, 19), "// adds two numbers"),
            node(
                "function_definition",
                true,
                None,
                Some(0),
                (1, 0, 2, 18),
                "fn add(a, b)\n    return a + b",
            ),
            node("signature", true, Some("signature"), Some(2), (1, 0, 1, 12), "fn add(a, b)"),
            node("identifier", true, Some("name"), Some(3), (1, 3, 1, 6), "add"),
        ],
    }
}

/// A file defining one function under the given name.
fn tree_defining(name: &str) -> SyntaxTree {
    let sig = format!("fn {}()", name);
    let body = format!("fn {}()\n    return\n", name);
    SyntaxTree {
        nodes: vec![
            node("module", true, None, None, (0, 0, 2, 0), &body),
            node("function_definition", true, None, Some(0), (0, 0, 1, 10), &body),
            node("signature", true, Some("signature"), Some(1), (0, 0, 0, 9), &sig),
            node("identifier", true, Some("name"), Some(2), (0, 3, 0, 3 + name.len()), name),
        ],
    }
}

/// `vars\n    UU score = 0\n`
fn tree_with_global() -> SyntaxTree {
    SyntaxTree {
        nodes: vec![
            node("module", true, None, None, (0, 0, 2, 0), "vars\n    UU score = 0\n"),
            node("vars_definition", true, None, Some(0), (0, 0, 1, 16), "vars\n    UU score = 0"),
            node("variable_definition", true, None, Some(1), (1, 4, 1, 16), "UU score = 0"),
            node("identifier", true, Some("name"), Some(2), (1, 7, 1, 12), "score"),
        ],
    }
}

#[test]
fn call_resolves_to_bare_signature() {
    let mut b = Backend::new();
    b.update_file("/proj/a.fab".to_string(), "fn add(a, b)\n    return a + b\n".to_string(), Some(tree_defining_add())).unwrap();
    b.update_file("/proj/b.fab".to_string(), "fn main()\n    add(1, 2)\n".to_string(), Some(tree_calling_add())).unwrap();

    let (from, sym) = b.find_symbol("/proj/b.fab", Position { line: 1, character: 5 }).unwrap();
    assert_eq!(from, "/proj/a.fab");
    assert_eq!(sym.description(), "fn add(a, b)");
    match &sym {
        Symbol::Function(f) => {
            assert_eq!(f.signature, "fn add(a, b)");
            assert_eq!(f.comments, None);
        },
        Symbol::Variable(_) => panic!("a call names a function"),
    }
}

#[test]
fn goto_definition_spans_the_definition() {
    let mut b = Backend::new();
    b.update_file("/proj/a.fab".to_string(), "fn add(a, b)\n    return a + b\n".to_string(), Some(tree_defining_add())).unwrap();
    b.update_file("/proj/b.fab".to_string(), "fn main()\n    add(1, 2)\n".to_string(), Some(tree_calling_add())).unwrap();

    let (file, range) = b.goto_definition("/proj/b.fab", Position { line: 1, character: 4 }).unwrap();
    assert_eq!(file, "/proj/a.fab");
    assert_eq!(range.start, Position { line: 0, character: 0 });
    assert_eq!(range.end, Position { line: 1, character: 18 });
}

#[test]
fn goto_definition_on_unindexed_input_is_no_result() {
    let b = Backend::new();
    assert!(b.goto_definition("/nowhere/x.fab", Position { line: 3, character: 1 }).is_none());
}

#[test]
fn goto_definition_off_any_identifier_is_no_result() {
    let mut b = Backend::new();
    b.update_file("/proj/b.fab".to_string(), "fn main()\n    add(1, 2)\n".to_string(), Some(tree_calling_add())).unwrap();
    assert!(b.goto_definition("/proj/b.fab", Position { line: 1, character: 9 }).is_none());
    assert!(b.goto_definition("/proj/b.fab", Position { line: 7, character: 0 }).is_none());
}

#[test]
fn comment_block_heads_the_description() {
    let mut b = Backend::new();
    b.update_file(
        "/proj/c.fab".to_string(),
        "// adds two numbers\nfn add(a, b)\n    return a + b\n".to_string(),
        Some(tree_with_comment()),
    ).unwrap();

    let (_, sym) = b.find_symbol("/proj/c.fab", Position { line: 1, character: 4 }).unwrap();
    assert_eq!(sym.description(), "// adds two numbers\nfn add(a, b)");
    assert!(sym.description().starts_with("// adds two numbers"));
    match &sym {
        Symbol::Function(f) => assert_eq!(f.comments, Some("// adds two numbers\n".to_string())),
        Symbol::Variable(_) => panic!("a definition header names a function"),
    }
}

#[test]
fn update_file_twice_yields_identical_answers() {
    let text = "fn add(a, b)\n    return a + b\n".to_string();
    let mut b = Backend::new();
    b.update_file("/proj/a.fab".to_string(), text.clone(), Some(tree_defining_add())).unwrap();
    let first = b.find_symbol("/proj/a.fab", Position { line: 0, character: 4 });
    b.update_file("/proj/a.fab".to_string(), text, Some(tree_defining_add())).unwrap();
    let second = b.find_symbol("/proj/a.fab", Position { line: 0, character: 4 });
    assert_eq!(first, second);
    assert!(first.is_some());
}

#[test]
fn failed_update_keeps_the_cached_answers() {
    let mut b = Backend::new();
    b.update_file("/proj/a.fab".to_string(), "fn add(a, b)\n    return a + b\n".to_string(), Some(tree_defining_add())).unwrap();

    // A definition node without its signature sub-node: extraction aborts.
    let broken = SyntaxTree {
        nodes: vec![
            node("module", true, None, None, (0, 0, 1, 0), "fn\n"),
            node("function_definition", true, None, Some(0), (0, 0, 0, 2), "fn"),
        ],
    };
    let r = b.update_file("/proj/a.fab".to_string(), "fn\n".to_string(), Some(broken));
    assert_eq!(r, Err(UpdateFailure::ExtractionFailure));

    // A record whose parent links point the wrong way is no usable parse.
    let ill_formed = SyntaxTree { nodes: vec![node("module", true, None, Some(0), (0, 0, 1, 0), "")] };
    let r = b.update_file("/proj/a.fab".to_string(), String::new(), Some(ill_formed));
    assert_eq!(r, Err(UpdateFailure::ParseFailure));

    let r = b.update_file("/proj/a.fab".to_string(), String::new(), None);
    assert_eq!(r, Err(UpdateFailure::ParseFailure));

    // The old index still answers.
    let (_, sym) = b.find_symbol("/proj/a.fab", Position { line: 0, character: 4 }).unwrap();
    assert_eq!(sym.description(), "fn add(a, b)");
}

#[test]
fn global_variable_resolves_outside_headers_and_calls() {
    let mut b = Backend::new();
    b.update_file("/proj/d.fab".to_string(), "vars\n    UU score = 0\n".to_string(), Some(tree_with_global())).unwrap();

    // A lone identifier occurrence in another file's body.
    let user = SyntaxTree {
        nodes: vec![
            node("module", true, None, None, (0, 0, 2, 0), "fn main()\n    score\n"),
            node("function_definition", true, None, Some(0), (0, 0, 1, 9), "fn main()\n    score"),
            node("signature", true, Some("signature"), Some(1), (0, 0, 0, 9), "fn main()"),
            node("identifier", true, Some("name"), Some(2), (0, 3, 0, 7), "main"),
            node("block", true, None, Some(1), (1, 0, 1, 9), "    score"),
            node("expression_statement", true, None, Some(4), (1, 4, 1, 9), "score"),
            node("identifier", true, None, Some(5), (1, 4, 1, 9), "score"),
        ],
    };
    b.update_file("/proj/e.fab".to_string(), "fn main()\n    score\n".to_string(), Some(user)).unwrap();

    let (from, sym) = b.find_symbol("/proj/e.fab", Position { line: 1, character: 6 }).unwrap();
    assert_eq!(from, "/proj/d.fab");
    match &sym {
        Symbol::Variable(v) => {
            assert_eq!(v.name, "score");
            assert_eq!(v.description, "UU score = 0");
        },
        Symbol::Function(_) => panic!("score names a variable"),
    }
}

#[test]
fn hover_shortens_by_the_longest_root() {
    let mut b = Backend::new();
    b.add_workspace_dir("/proj".to_string());
    b.add_workspace_dir("/proj/sub".to_string());
    b.update_file("/proj/sub/a.fab".to_string(), "fn add(a, b)\n    return a + b\n".to_string(), Some(tree_defining_add())).unwrap();

    let (desc, disp) = b.hover("/proj/sub/a.fab", Position { line: 0, character: 4 }).unwrap();
    assert_eq!(desc, "fn add(a, b)");
    assert_eq!(disp, "a.fab");
}

#[test]
fn hover_outside_every_root_stays_absolute() {
    let mut b = Backend::new();
    b.add_workspace_dir("/elsewhere".to_string());
    b.update_file("/proj/a.fab".to_string(), "fn add(a, b)\n    return a + b\n".to_string(), Some(tree_defining_add())).unwrap();

    let (_, disp) = b.hover("/proj/a.fab", Position { line: 0, character: 4 }).unwrap();
    assert_eq!(disp, "/proj/a.fab");
}

#[test]
fn completion_is_scoped_by_shared_configs() {
    let mut b = Backend::new();
    b.update_file("/p1/a.fab".to_string(), "fn alpha()\n    return\n".to_string(), Some(tree_defining("alpha"))).unwrap();
    b.update_file("/p1/b.fab".to_string(), "fn beta()\n    return\n".to_string(), Some(tree_defining("beta"))).unwrap();
    b.update_file("/p2/c.fab".to_string(), "fn gamma()\n    return\n".to_string(), Some(tree_defining("gamma"))).unwrap();
    b.apply_refresh(
        vec![
            ("/p1".to_string(), vec!["/p1/a.fab".to_string(), "/p1/b.fab".to_string()]),
            ("/p2".to_string(), vec!["/p2/c.fab".to_string()]),
        ],
        vec![],
    );

    let names = |items: &Vec<nesfab_language_server::backend::CompletionItem>| {
        let mut v: Vec<String> = items.iter().map(|i| i.name.clone()).collect();
        v.sort();
        v
    };

    let from_a = b.completion("/p1/a.fab");
    assert_eq!(names(&from_a), vec!["alpha".to_string(), "beta".to_string()]);
    let from_b = b.completion("/p1/b.fab");
    assert_eq!(names(&from_b), vec!["alpha".to_string(), "beta".to_string()]);
    let from_c = b.completion("/p2/c.fab");
    assert_eq!(names(&from_c), vec!["gamma".to_string()]);
    for item in from_a.iter() {
        assert_eq!(item.kind, CompletionKind::Function);
    }
}

#[test]
fn completion_documents_with_the_description() {
    let mut b = Backend::new();
    b.update_file(
        "/p1/c.fab".to_string(),
        "// adds two numbers\nfn add(a, b)\n    return a + b\n".to_string(),
        Some(tree_with_comment()),
    ).unwrap();
    b.apply_refresh(vec![("/p1".to_string(), vec!["/p1/c.fab".to_string()])], vec![]);

    let items = b.completion("/p1/c.fab");
    assert_eq!(items.len(), 1);
    assert_eq!(items[0].name, "add");
    assert_eq!(items[0].documentation, "// adds two numbers\nfn add(a, b)");
}

#[test]
fn dependency_round_trip() {
    let mut b = Backend::new();
    b.apply_refresh(vec![("/d".to_string(), vec!["/d/foo.fab".to_string()])], vec![]);
    let deps = b.get_dependencies("/d/foo.fab");
    assert_eq!(deps, vec!["/d/foo.fab".to_string()]);

    // An unresolvable reference left the entry empty: nothing depends on it.
    b.apply_refresh(vec![("/d".to_string(), vec![])], vec![]);
    assert!(b.get_dependencies("/d/foo.fab").is_empty());
}

#[test]
fn scan_covers_only_untracked_directories() {
    let mut b = Backend::new();
    let dirs = b.scan_dirs(&vec!["/w".to_string(), "/w".to_string()], &vec![]);
    assert_eq!(dirs, vec!["/w".to_string()]);
    b.apply_refresh(vec![("/w".to_string(), vec![])], vec![]);
    let dirs = b.scan_dirs(&vec!["/w".to_string(), "/v".to_string()], &vec![]);
    assert_eq!(dirs, vec!["/v".to_string()]);
}

#[test]
fn refresh_reads_only_uncached_files() {
    let mut b = Backend::new();
    b.update_file("/p1/a.fab".to_string(), "fn alpha()\n    return\n".to_string(), Some(tree_defining("alpha"))).unwrap();
    let entries = vec![("/p1".to_string(), vec!["/p1/a.fab".to_string(), "/p1/b.fab".to_string()])];
    let missing = b.uncached_files(&entries);
    assert_eq!(missing, vec!["/p1/b.fab".to_string()]);
}

#[test]
fn refresh_merges_tables_additively() {
    let mut b = Backend::new();
    let table = SymbolTable::from_tree(&tree_defining("beta")).unwrap();
    b.apply_refresh(
        vec![("/p1".to_string(), vec!["/p1/a.fab".to_string(), "/p1/b.fab".to_string()])],
        vec![("/p1/b.fab".to_string(), table)],
    );
    b.update_file("/p1/a.fab".to_string(), "fn alpha()\n    return\n".to_string(), Some(tree_defining("alpha"))).unwrap();
    let mut names: Vec<String> = b.completion("/p1/a.fab").iter().map(|i| i.name.clone()).collect();
    names.sort();
    assert_eq!(names, vec!["alpha".to_string(), "beta".to_string()]);
}

#[test]
fn own_table_answers_before_other_files() {
    let mut b = Backend::new();
    // Both files define `add`; a query from the defining file itself must
    // answer from its own table.
    b.update_file("/proj/x.fab".to_string(), "fn add(a, b)\n    return a + b\n".to_string(), Some(tree_defining_add())).unwrap();
    b.update_file("/proj/y.fab".to_string(), "fn add(a, b)\n    return a + b\n".to_string(), Some(tree_defining_add())).unwrap();

    let (from, _) = b.find_symbol("/proj/y.fab", Position { line: 0, character: 4 }).unwrap();
    assert_eq!(from, "/proj/y.fab");
}

#[test]
fn a_distant_comment_ends_the_chain() {
    // Two comments, two blank lines between them: only the nearer one,
    // adjacent to the definition, joins the block.
    let nodes = vec![
        node("module", true, None, None, (0, 0, 6, 0), ""),
        node("comment", true, None, Some(0), (0, 0, 0, 9), "// stale"),
        node("comment", true, None, Some(0), (3, 0, 3, 9), "// fresh"),
        node(
            "function_definition",
            true,
            None,
            Some(0),
            (4, 0, 5, 10),
            "fn f()\n    return",
        ),
        node("signature", true, Some("signature"), Some(3), (4, 0, 4, 6), "fn f()"),
        node("identifier", true, Some("name"), Some(4), (4, 3, 4, 4), "f"),
    ];
    let table = SymbolTable::from_tree(&SyntaxTree { nodes }).unwrap();
    let f = table.functions.get("f").unwrap();
    assert_eq!(f.comments, Some("// fresh\n".to_string()));
    assert_eq!(f.description, "// fresh\nfn f()");
}

#[test]
fn assembly_functions_are_extracted_too() {
    let nodes = vec![
        node("module", true, None, None, (0, 0, 2, 0), ""),
        node(
            "asm_function_definition",
            true,
            None,
            Some(0),
            (0, 0, 1, 8),
            "asm fn irq()\n    rti",
        ),
        node("signature", true, Some("signature"), Some(1), (0, 0, 0, 12), "asm fn irq()"),
        node("identifier", true, Some("name"), Some(2), (0, 7, 0, 10), "irq"),
    ];
    let table = SymbolTable::from_tree(&SyntaxTree { nodes }).unwrap();
    let f = table.functions.get("irq").unwrap();
    assert_eq!(f.signature, "asm fn irq()");
}

#[test]
fn later_definition_overwrites_earlier_same_name() {
    let nodes = vec![
        node("module", true, None, None, (0, 0, 4, 0), ""),
        node("function_definition", true, None, Some(0), (0, 0, 1, 10), "fn f()\n    return"),
        node("signature", true, Some("signature"), Some(1), (0, 0, 0, 6), "fn f()"),
        node("identifier", true, Some("name"), Some(2), (0, 3, 0, 4), "f"),
        node("function_definition", true, None, Some(0), (2, 0, 3, 11), "fn f(x)\n    return x"),
        node("signature", true, Some("signature"), Some(4), (2, 0, 2, 7), "fn f(x)"),
        node("identifier", true, Some("name"), Some(5), (2, 3, 2, 4), "f"),
    ];
    let table = SymbolTable::from_tree(&SyntaxTree { nodes }).unwrap();
    let f = table.functions.get("f").unwrap();
    assert_eq!(f.signature, "fn f(x)");
    assert_eq!(table.functions.len(), 1);
}
