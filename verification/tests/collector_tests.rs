use client_edges::collector::TopLevelStatements;
use client_edges::statements::ModuleImportName;
use client_edges::statements::TopLevelStatement;
use client_edges::statements::stmt_le_exec;
use client_edges::statements::stmt_render;
use client_edges::statements::sort_statements;

fn default_import(name: &str, path: &str) -> TopLevelStatement {
    TopLevelStatement::ImportStatement {
        module_import_name: ModuleImportName::Default(name.to_string()),
        path: path.to_string(),
    }
}

fn named_import(name: &str, alias: Option<&str>, path: &str) -> TopLevelStatement {
    TopLevelStatement::ImportStatement {
        module_import_name: ModuleImportName::Named {
            name: name.to_string(),
            import_as: alias.map(|a| a.to_string()),
        },
        path: path.to_string(),
    }
}

fn var_def(text: &str) -> TopLevelStatement {
    TopLevelStatement::VariableDefinition(text.to_string())
}

#[test]
fn renders_sorted_scenario() {
    let mut stmts = TopLevelStatements::new();
    stmts.insert("Foo".to_string(), default_import("Foo", "Foo.graphql"));
    stmts.insert("bar".to_string(), var_def("const bar = 1;"));
    stmts.insert("Baz".to_string(), named_import("Baz", None, "Baz.graphql"));
    let rendered = stmts.render();
    assert_eq!(
        rendered,
        "import Foo from 'Foo.graphql';\nimport {Baz} from 'Baz.graphql';\nconst bar = 1;"
    );
}

#[test]
fn render_is_insertion_order_independent() {
    let entries: Vec<(&str, TopLevelStatement)> = vec![
        ("a", var_def("const a = 2;")),
        ("B", default_import("B", "B.js")),
        ("C", named_import("C", Some("c0"), "C.js")),
        ("D", named_import("D", None, "D.js")),
    ];
    let orders: Vec<Vec<usize>> = vec![
        vec![0, 1, 2, 3],
        vec![3, 2, 1, 0],
        vec![2, 0, 3, 1],
        vec![1, 3, 0, 2],
    ];
    let mut rendered: Vec<String> = Vec::new();
    for order in orders {
        let mut stmts = TopLevelStatements::new();
        for i in order {
            let (symbol, stmt) = &entries[i];
            let copy = match stmt {
                TopLevelStatement::ImportStatement { module_import_name, path } => {
                    TopLevelStatement::ImportStatement {
                        module_import_name: module_import_name.clone(),
                        path: path.clone(),
                    }
                }
                TopLevelStatement::VariableDefinition(t) => {
                    TopLevelStatement::VariableDefinition(t.clone())
                }
            };
            stmts.insert(symbol.to_string(), copy);
        }
        rendered.push(stmts.render());
    }
    for r in &rendered {
        assert_eq!(r, &rendered[0]);
    }
}

#[test]
fn insert_is_idempotent() {
    let mut once = TopLevelStatements::new();
    once.insert("X".to_string(), default_import("X", "X.js"));
    once.insert("y".to_string(), var_def("const y = 0;"));
    let mut twice = TopLevelStatements::new();
    twice.insert("X".to_string(), default_import("X", "X.js"));
    twice.insert("y".to_string(), var_def("const y = 0;"));
    twice.insert("X".to_string(), default_import("X", "X.js"));
    assert_eq!(once.render(), twice.render());
}

#[test]
fn insert_overwrites_under_same_symbol() {
    let mut stmts = TopLevelStatements::new();
    stmts.insert("X".to_string(), default_import("X", "old.js"));
    stmts.insert("X".to_string(), default_import("X", "new.js"));
    assert_eq!(stmts.render(), "import X from 'new.js';\n");
}

#[test]
fn contains_and_is_empty() {
    let mut stmts = TopLevelStatements::new();
    assert!(stmts.is_empty());
    assert!(!stmts.contains("Foo"));
    stmts.insert("Foo".to_string(), default_import("Foo", "Foo.js"));
    assert!(!stmts.is_empty());
    assert!(stmts.contains("Foo"));
    assert!(!stmts.contains("Bar"));
}

#[test]
fn clone_keeps_entries() {
    let mut stmts = TopLevelStatements::new();
    stmts.insert("Foo".to_string(), default_import("Foo", "Foo.js"));
    let copy = stmts.clone();
    assert_eq!(copy.render(), stmts.render());
    assert!(copy.contains("Foo"));
}

#[test]
fn default_is_empty() {
    let stmts = TopLevelStatements::default();
    assert!(stmts.is_empty());
    assert_eq!(stmts.render(), "");
}

#[test]
fn statement_order_ranks() {
    // imports before variable definitions
    assert!(stmt_le_exec(&default_import("z", "z.js"), &var_def("const a = 1;")));
    assert!(!stmt_le_exec(&var_def("const a = 1;"), &default_import("z", "z.js")));
    // default imports before named imports
    assert!(stmt_le_exec(&default_import("z", "z.js"), &named_import("a", None, "a.js")));
    // default imports ordered by bound name
    assert!(stmt_le_exec(&default_import("A", "1.js"), &default_import("B", "0.js")));
    // named imports ordered by imported name, then absence of alias first
    assert!(stmt_le_exec(&named_import("A", None, "1.js"), &named_import("A", Some("x"), "0.js")));
    assert!(!stmt_le_exec(&named_import("A", Some("x"), "0.js"), &named_import("A", None, "1.js")));
    // equal names compare by path
    assert!(stmt_le_exec(&default_import("A", "a.js"), &default_import("A", "b.js")));
    // variable definitions ordered by text
    assert!(stmt_le_exec(&var_def("const a = 1;"), &var_def("const b = 1;")));
}

#[test]
fn renders_named_alias_forms() {
    assert_eq!(
        stmt_render(&named_import("name", Some("alias"), "p.js")),
        "import {name as alias} from 'p.js';\n"
    );
    assert_eq!(stmt_render(&named_import("name", None, "p.js")), "import {name} from 'p.js';\n");
    assert_eq!(stmt_render(&default_import("d", "p.js")), "import d from 'p.js';\n");
    assert_eq!(stmt_render(&var_def("let q = 3;")), "let q = 3;");
}

#[test]
fn sort_statements_orders_fully() {
    let sorted = sort_statements(vec![
        var_def("const b = 1;"),
        named_import("N", Some("n"), "n.js"),
        default_import("D", "d.js"),
        var_def("const a = 1;"),
        named_import("N", None, "n.js"),
    ]);
    let texts: Vec<String> = sorted.iter().map(|s| stmt_render(s)).collect();
    assert_eq!(
        texts,
        vec![
            "import D from 'd.js';\n".to_string(),
            "import {N} from 'n.js';\n".to_string(),
            "import {N as n} from 'n.js';\n".to_string(),
            "const a = 1;".to_string(),
            "const b = 1;".to_string(),
        ]
    );
}
