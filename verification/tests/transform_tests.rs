use client_edges::ir::Argument;
use client_edges::ir::ArgumentValue;
use client_edges::ir::ClientEdgeKind;
use client_edges::ir::Directive;
use client_edges::ir::DiagnosticKind;
use client_edges::ir::FieldDef;
use client_edges::ir::FieldNode;
use client_edges::ir::Operation;
use client_edges::ir::Schema;
use client_edges::ir::Selection;
use client_edges::ir::TypeDef;
use client_edges::transform::TransformConfig;
use client_edges::transform::transform_document;

const ACK: usize = 7;

fn cfg() -> TransformConfig {
    TransformConfig { ack_argument: ACK }
}

fn server_type() -> TypeDef {
    TypeDef { on_server: true, is_abstract: false, has_server_branch: true }
}

fn client_object_type() -> TypeDef {
    TypeDef { on_server: false, is_abstract: false, has_server_branch: false }
}

fn client_only_abstract_type() -> TypeDef {
    TypeDef { on_server: false, is_abstract: true, has_server_branch: false }
}

fn field(id: usize, selections: Vec<Selection>) -> Selection {
    Selection::Field(FieldNode {
        field_id: id,
        arguments: Vec::new(),
        directives: Vec::new(),
        selections,
        module: None,
        client_edge: None,
    })
}

fn field_with(
    id: usize,
    arguments: Vec<Argument>,
    directives: Vec<Directive>,
    selections: Vec<Selection>,
) -> Selection {
    Selection::Field(FieldNode {
        field_id: id,
        arguments,
        directives,
        selections,
        module: None,
        client_edge: None,
    })
}

fn ack_argument() -> Argument {
    Argument { name: ACK, value: ArgumentValue::Constant(1) }
}

/// Schema layout used throughout: field 0 is a plain server field, field 1
/// a to-server client edge, field 2 a to-client-object edge, field 3 an
/// edge to a client-only interface, field 4 a plain leaf field.
fn schema() -> Schema {
    Schema {
        fields: vec![
            FieldDef { client_resolved: false, target_type: 0 },
            FieldDef { client_resolved: true, target_type: 0 },
            FieldDef { client_resolved: true, target_type: 1 },
            FieldDef { client_resolved: true, target_type: 2 },
            FieldDef { client_resolved: false, target_type: 0 },
        ],
        types: vec![server_type(), client_object_type(), client_only_abstract_type()],
    }
}

fn run(selections: Vec<Selection>) -> client_edges::transform::TransformResult {
    run_with_variables(Vec::new(), selections)
}

fn run_with_variables(
    variables: Vec<usize>,
    selections: Vec<Selection>,
) -> client_edges::transform::TransformResult {
    transform_document(&schema(), cfg(), Operation { variables, selections })
}

#[test]
fn no_client_edges_is_identity() {
    let result = run(vec![field(0, vec![field(4, vec![])]), field(4, vec![])]);
    assert_eq!(
        result.residual.selections,
        vec![field(0, vec![field(4, vec![])]), field(4, vec![])]
    );
    assert!(result.queries.is_empty());
    assert!(result.diagnostics.is_empty());
    assert!(result.compilable);
}

#[test]
fn client_edge() {
    // actor { client_edge_profile_picture }: a depth-0 to-server edge with
    // no descendant edges
    let result = run(vec![field(0, vec![field(1, vec![field(4, vec![])])])]);
    assert!(result.diagnostics.is_empty());
    assert!(result.compilable);
    assert_eq!(result.queries.len(), 1);
    assert_eq!(result.queries[0].edge_id, 0);
    assert_eq!(result.queries[0].selections, vec![field(4, vec![])]);
    // the residual tree holds a childless placeholder carrying the metadata
    match &result.residual.selections[0] {
        Selection::Field(actor) => match &actor.selections[0] {
            Selection::Field(edge) => {
                assert!(edge.selections.is_empty());
                let meta = edge.client_edge.expect("placeholder keeps its metadata");
                assert_eq!(meta.edge_id, 0);
                assert_eq!(meta.kind, ClientEdgeKind::ToServer);
                assert_eq!(meta.depth, 0);
            }
            other => panic!("expected a field, got {:?}", other),
        },
        other => panic!("expected a field, got {:?}", other),
    }
}

#[test]
fn client_edge_to_client_object() {
    // the edge stays in place, tagged, and no query is split out
    let result = run(vec![field(2, vec![field(4, vec![])])]);
    assert!(result.diagnostics.is_empty());
    assert!(result.queries.is_empty());
    match &result.residual.selections[0] {
        Selection::Field(edge) => {
            let meta = edge.client_edge.expect("to-client edge is tagged");
            assert_eq!(meta.kind, ClientEdgeKind::ToClientObject);
            assert_eq!(edge.selections, vec![field(4, vec![])]);
        }
        other => panic!("expected a field, got {:?}", other),
    }
}

#[test]
fn depth_zero_to_server_edge_passes_without_acknowledgment() {
    let result = run(vec![field(1, vec![field(4, vec![])])]);
    assert!(result.diagnostics.is_empty());
    assert!(result.compilable);
    assert_eq!(result.queries.len(), 1);
}

#[test]
fn unexpected_waterfall_invalid() {
    // outer to-server edge A holding inner unacknowledged to-server edge B:
    // exactly one UnexpectedWaterfall, referencing B, with A as ancestor;
    // the document is non-compilable even though A alone is valid
    let result = run(vec![field(1, vec![field(1, vec![field(4, vec![])])])]);
    assert_eq!(result.diagnostics.len(), 1);
    assert_eq!(result.diagnostics[0].kind, DiagnosticKind::UnexpectedWaterfall);
    assert_eq!(result.diagnostics[0].edge_id, 1);
    assert_eq!(result.diagnostics[0].ancestor, Some(0));
    assert!(!result.compilable);
}

#[test]
fn waterfall_traversal_finds_every_violation() {
    // two unacknowledged nested edges under one outer edge: one diagnostic
    // each, found in the same pass
    let result = run(vec![field(
        1,
        vec![field(1, vec![field(4, vec![])]), field(1, vec![field(4, vec![])])],
    )]);
    let waterfalls: Vec<_> = result
        .diagnostics
        .iter()
        .filter(|d| d.kind == DiagnosticKind::UnexpectedWaterfall)
        .collect();
    assert_eq!(waterfalls.len(), 2);
    assert_eq!(waterfalls[0].edge_id, 1);
    assert_eq!(waterfalls[1].edge_id, 2);
    assert!(!result.compilable);
}

#[test]
fn nested_client_edges() {
    // an acknowledged inner edge splits cleanly: descendants first, so the
    // inner query is listed before the outer one, and the outer query body
    // holds the inner placeholder
    let inner = field_with(1, vec![ack_argument()], vec![], vec![field(4, vec![])]);
    let result = run(vec![field(1, vec![inner])]);
    assert!(result.diagnostics.is_empty());
    assert_eq!(result.queries.len(), 2);
    assert_eq!(result.queries[0].edge_id, 1);
    assert_eq!(result.queries[1].edge_id, 0);
    match &result.queries[1].selections[0] {
        Selection::Field(inner_placeholder) => {
            assert!(inner_placeholder.selections.is_empty());
            assert!(inner_placeholder.client_edge.is_some());
        }
        other => panic!("expected a field, got {:?}", other),
    }
}

#[test]
fn client_edge_to_client_interface_invalid() {
    // edge targeting a client-only interface with no server-resolvable
    // branch: TargetTypeUnresolvable, subtree left unrewritten
    let result = run(vec![field(3, vec![field(4, vec![])])]);
    assert_eq!(result.diagnostics.len(), 1);
    assert_eq!(result.diagnostics[0].kind, DiagnosticKind::TargetTypeUnresolvable);
    assert_eq!(result.diagnostics[0].edge_id, 0);
    assert!(result.queries.is_empty());
    assert!(!result.compilable);
    match &result.residual.selections[0] {
        Selection::Field(edge) => {
            assert_eq!(edge.selections, vec![field(4, vec![])]);
        }
        other => panic!("expected a field, got {:?}", other),
    }
}

#[test]
fn client_edge_with_required_invalid() {
    // a to-server edge carrying a nullability-enforcing directive
    let result = run(vec![field_with(
        1,
        vec![],
        vec![Directive { name: 9, enforces_nullability: true }],
        vec![field(4, vec![])],
    )]);
    assert_eq!(result.diagnostics.len(), 1);
    assert_eq!(result.diagnostics[0].kind, DiagnosticKind::IncompatibleDirective);
    assert!(result.queries.is_empty());
    assert!(!result.compilable);
}

#[test]
fn client_edge_variables() {
    // variables referenced in the split subtree are copied onto the
    // synthetic query, in declaration order
    let leaf_a = field_with(
        4,
        vec![Argument { name: 1, value: ArgumentValue::Variable(30) }],
        vec![],
        vec![],
    );
    let leaf_b = field_with(
        4,
        vec![Argument {
            name: 2,
            value: ArgumentValue::List(vec![ArgumentValue::Variable(10)]),
        }],
        vec![],
        vec![],
    );
    let result = run_with_variables(vec![10, 20, 30], vec![field(1, vec![leaf_a, leaf_b])]);
    assert!(result.diagnostics.is_empty());
    assert_eq!(result.queries.len(), 1);
    assert_eq!(result.queries[0].variables, vec![10, 30]);
}

#[test]
fn undeclared_variable_is_a_malformed_synthetic_query() {
    let leaf = field_with(
        4,
        vec![Argument { name: 1, value: ArgumentValue::Variable(99) }],
        vec![],
        vec![],
    );
    let result = run_with_variables(vec![10], vec![field(1, vec![leaf])]);
    assert_eq!(result.diagnostics.len(), 1);
    assert_eq!(result.diagnostics[0].kind, DiagnosticKind::MalformedSyntheticQuery);
    assert!(result.queries.is_empty());
    assert!(!result.compilable);
}

#[test]
fn client_edge_inline_fragment() {
    // an edge below an inline fragment is found and split like any other
    let inline = Selection::InlineFragment(client_edges::ir::InlineFragmentNode {
        type_condition: Some(0),
        directives: Vec::new(),
        selections: vec![field(1, vec![field(4, vec![])])],
    });
    let result = run(vec![inline]);
    assert!(result.diagnostics.is_empty());
    assert_eq!(result.queries.len(), 1);
}

#[test]
fn metadata_depth_counts_to_server_ancestors() {
    let inner = field_with(1, vec![ack_argument()], vec![], vec![field(4, vec![])]);
    let result = run(vec![field(2, vec![field(1, vec![inner])])]);
    // to-client edge at depth 0, to-server below it still depth 0, the
    // acknowledged inner edge at depth 1
    match &result.queries[1].selections[0] {
        Selection::Field(inner_placeholder) => {
            let meta = inner_placeholder.client_edge.unwrap();
            assert_eq!(meta.depth, 1);
            assert!(meta.acknowledged);
        }
        other => panic!("expected a field, got {:?}", other),
    }
}
