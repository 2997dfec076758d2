use client_edges::deps::Fragment;
use client_edges::deps::ModuleDependency;
use client_edges::deps::compute_module_dependencies;
use client_edges::ir::FieldNode;
use client_edges::ir::FragmentSpreadNode;
use client_edges::ir::InlineFragmentNode;
use client_edges::ir::Selection;

fn module_field(id: usize, module: usize, selections: Vec<Selection>) -> Selection {
    Selection::Field(FieldNode {
        field_id: id,
        arguments: Vec::new(),
        directives: Vec::new(),
        selections,
        module: Some(module),
        client_edge: None,
    })
}

fn plain_field(id: usize, selections: Vec<Selection>) -> Selection {
    Selection::Field(FieldNode {
        field_id: id,
        arguments: Vec::new(),
        directives: Vec::new(),
        selections,
        module: None,
        client_edge: None,
    })
}

fn spread(fragment: usize) -> Selection {
    Selection::FragmentSpread(FragmentSpreadNode { fragment, directives: Vec::new() })
}

#[test]
fn query_with_direct_module_dep() {
    let deps = compute_module_dependencies(
        &Vec::new(),
        &vec![plain_field(0, vec![module_field(1, 100, vec![])])],
    );
    assert_eq!(deps, vec![ModuleDependency { module: 100, direct: true }]);
}

#[test]
fn query_with_transitive_module_dep() {
    let fragments = vec![Fragment { selections: vec![module_field(1, 200, vec![])] }];
    let deps = compute_module_dependencies(&fragments, &vec![plain_field(0, vec![spread(0)])]);
    assert_eq!(deps, vec![ModuleDependency { module: 200, direct: false }]);
}

#[test]
fn query_with_direct_and_transitive_module_dep() {
    // the same module is declared in the document and reached via a spread:
    // one entry, and direct wins
    let fragments = vec![Fragment {
        selections: vec![module_field(1, 100, vec![]), module_field(2, 300, vec![])],
    }];
    let deps = compute_module_dependencies(
        &fragments,
        &vec![module_field(1, 100, vec![]), spread(0)],
    );
    assert_eq!(
        deps,
        vec![
            ModuleDependency { module: 100, direct: true },
            ModuleDependency { module: 300, direct: false },
        ]
    );
}

#[test]
fn module_reachable_through_fragment_chain() {
    let fragments = vec![
        Fragment { selections: vec![spread(1)] },
        Fragment {
            selections: vec![Selection::InlineFragment(InlineFragmentNode {
                type_condition: Some(3),
                directives: Vec::new(),
                selections: vec![module_field(1, 400, vec![])],
            })],
        },
    ];
    let deps = compute_module_dependencies(&fragments, &vec![spread(0)]);
    assert_eq!(deps, vec![ModuleDependency { module: 400, direct: false }]);
}

#[test]
fn recursive_fragments_terminate() {
    // a fragment spreading itself is walked once
    let fragments = vec![Fragment {
        selections: vec![module_field(1, 500, vec![]), spread(0)],
    }];
    let deps = compute_module_dependencies(&fragments, &vec![spread(0)]);
    assert_eq!(deps, vec![ModuleDependency { module: 500, direct: false }]);
}

#[test]
fn duplicate_modules_collapse() {
    let deps = compute_module_dependencies(
        &Vec::new(),
        &vec![module_field(1, 100, vec![]), module_field(2, 100, vec![])],
    );
    assert_eq!(deps, vec![ModuleDependency { module: 100, direct: true }]);
}

#[test]
fn unknown_fragment_reference_is_ignored() {
    let deps = compute_module_dependencies(&Vec::new(), &vec![spread(9)]);
    assert_eq!(deps, Vec::<ModuleDependency>::new());
}
