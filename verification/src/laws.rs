use vstd::prelude::*;
use crate::ir::ClientEdgeKind;
use crate::ir::Diagnostic;
use crate::ir::DiagnosticKind;
use crate::ir::SelectionModel;
use crate::ir::QueryModel;
use crate::transform::TransformConfig;
use crate::ir::Schema;
use crate::transform::classify_m;
use crate::transform::classify_ms;
use crate::transform::field_def;
use crate::transform::target_unresolvable;
use crate::transform::typecheck_m;
use crate::transform::typecheck_ms;
use crate::transform::waterfall_m;
use crate::transform::waterfall_ms;
use crate::transform::rewrite_m;
use crate::transform::rewrite_ms;
use crate::transform::rewrite_ok;
use crate::transform::has_nullability_directive;
use crate::transform::transform_doc;

verus! {

/// A document that holds no client-edge field: no field's schema definition
/// is client-resolved, and nothing carries metadata yet.
pub open spec fn no_client_edges(schema: Schema, m: SelectionModel) -> bool
    decreases m,
{
    match m {
        SelectionModel::FieldV { field_id, selections, client_edge, .. } => {
            &&& !field_def(schema, field_id).client_resolved
            &&& client_edge is None
            &&& no_client_edges_ms(schema, selections)
        },
        SelectionModel::InlineV { selections, .. } => no_client_edges_ms(schema, selections),
        SelectionModel::SpreadV { .. } => true,
    }
}

pub open spec fn no_client_edges_ms(schema: Schema, ms: Seq<SelectionModel>) -> bool
    decreases ms,
{
    if ms.len() == 0 {
        true
    } else {
        no_client_edges(schema, ms[0]) && no_client_edges_ms(schema, ms.drop_first())
    }
}

proof fn lemma_classify_identity(
    schema: Schema,
    cfg: TransformConfig,
    m: SelectionModel,
    depth: usize,
    next: usize,
)
    requires
        no_client_edges(schema, m),
    ensures
        classify_m(schema, cfg, m, depth, next) == (m, next),
    decreases m,
{
    match m {
        SelectionModel::FieldV { selections, .. } => {
            lemma_classify_identity_ms(schema, cfg, selections, depth, next);
            assert(classify_m(schema, cfg, m, depth, next).0 == m);
        },
        SelectionModel::InlineV { selections, .. } => {
            lemma_classify_identity_ms(schema, cfg, selections, depth, next);
        },
        SelectionModel::SpreadV { .. } => {},
    }
}

proof fn lemma_classify_identity_ms(
    schema: Schema,
    cfg: TransformConfig,
    ms: Seq<SelectionModel>,
    depth: usize,
    next: usize,
)
    requires
        no_client_edges_ms(schema, ms),
    ensures
        classify_ms(schema, cfg, ms, depth, next) == (ms, next),
    decreases ms,
{
    if ms.len() == 0 {
        assert(classify_ms(schema, cfg, ms, depth, next).0 =~= ms);
    } else {
        lemma_classify_identity(schema, cfg, ms[0], depth, next);
        lemma_classify_identity_ms(schema, cfg, ms.drop_first(), depth, next);
        assert(seq![ms[0]] + ms.drop_first() =~= ms);
    }
}

proof fn lemma_waterfall_none(schema: Schema, m: SelectionModel, nearest: Option<usize>)
    requires
        no_client_edges(schema, m),
    ensures
        waterfall_m(m, nearest) == Seq::<Diagnostic>::empty(),
    decreases m,
{
    match m {
        SelectionModel::FieldV { selections, .. } => {
            lemma_waterfall_none_ms(schema, selections, nearest);
        },
        SelectionModel::InlineV { selections, .. } => {
            lemma_waterfall_none_ms(schema, selections, nearest);
        },
        SelectionModel::SpreadV { .. } => {},
    }
}

proof fn lemma_waterfall_none_ms(schema: Schema, ms: Seq<SelectionModel>, nearest: Option<usize>)
    requires
        no_client_edges_ms(schema, ms),
    ensures
        waterfall_ms(ms, nearest) == Seq::<Diagnostic>::empty(),
    decreases ms,
{
    if ms.len() > 0 {
        lemma_waterfall_none(schema, ms[0], nearest);
        lemma_waterfall_none_ms(schema, ms.drop_first(), nearest);
        assert(Seq::<Diagnostic>::empty() + Seq::<Diagnostic>::empty() =~= Seq::<
            Diagnostic,
        >::empty());
    }
}

proof fn lemma_typecheck_none(schema: Schema, m: SelectionModel)
    requires
        no_client_edges(schema, m),
    ensures
        typecheck_m(schema, m) == Seq::<Diagnostic>::empty(),
    decreases m,
{
    match m {
        SelectionModel::FieldV { selections, .. } => {
            lemma_typecheck_none_ms(schema, selections);
            assert(Seq::<Diagnostic>::empty() + Seq::<Diagnostic>::empty() =~= Seq::<
                Diagnostic,
            >::empty());
        },
        SelectionModel::InlineV { selections, .. } => {
            lemma_typecheck_none_ms(schema, selections);
        },
        SelectionModel::SpreadV { .. } => {},
    }
}

proof fn lemma_typecheck_none_ms(schema: Schema, ms: Seq<SelectionModel>)
    requires
        no_client_edges_ms(schema, ms),
    ensures
        typecheck_ms(schema, ms) == Seq::<Diagnostic>::empty(),
    decreases ms,
{
    if ms.len() > 0 {
        lemma_typecheck_none(schema, ms[0]);
        lemma_typecheck_none_ms(schema, ms.drop_first());
        assert(Seq::<Diagnostic>::empty() + Seq::<Diagnostic>::empty() =~= Seq::<
            Diagnostic,
        >::empty());
    }
}

proof fn lemma_rewrite_identity(
    schema: Schema,
    m: SelectionModel,
    decls: Seq<usize>,
    nearest: Option<usize>,
)
    requires
        no_client_edges(schema, m),
    ensures
        rewrite_m(schema, m, decls, nearest) == (
            m,
            Seq::<QueryModel>::empty(),
            Seq::<Diagnostic>::empty(),
        ),
    decreases m,
{
    match m {
        SelectionModel::FieldV { selections, .. } => {
            lemma_rewrite_identity_ms(schema, selections, decls, nearest);
            assert(rewrite_m(schema, m, decls, nearest).0 == m);
        },
        SelectionModel::InlineV { selections, .. } => {
            lemma_rewrite_identity_ms(schema, selections, decls, nearest);
        },
        SelectionModel::SpreadV { .. } => {},
    }
}

proof fn lemma_rewrite_identity_ms(
    schema: Schema,
    ms: Seq<SelectionModel>,
    decls: Seq<usize>,
    nearest: Option<usize>,
)
    requires
        no_client_edges_ms(schema, ms),
    ensures
        rewrite_ms(schema, ms, decls, nearest) == (
            ms,
            Seq::<QueryModel>::empty(),
            Seq::<Diagnostic>::empty(),
        ),
    decreases ms,
{
    if ms.len() == 0 {
        assert(rewrite_ms(schema, ms, decls, nearest).0 =~= ms);
    } else {
        lemma_rewrite_identity(schema, ms[0], decls, nearest);
        lemma_rewrite_identity_ms(schema, ms.drop_first(), decls, nearest);
        assert(seq![ms[0]] + ms.drop_first() =~= ms);
        assert(Seq::<QueryModel>::empty() + Seq::<QueryModel>::empty() =~= Seq::<
            QueryModel,
        >::empty());
        assert(Seq::<Diagnostic>::empty() + Seq::<Diagnostic>::empty() =~= Seq::<
            Diagnostic,
        >::empty());
    }
}

/// A document with no client-edge fields passes through untouched: the
/// residual tree is the input, no synthetic query is split out, and no
/// diagnostic is reported.
pub proof fn lemma_transform_identity(
    schema: Schema,
    cfg: TransformConfig,
    variables: Seq<usize>,
    ms: Seq<SelectionModel>,
)
    requires
        no_client_edges_ms(schema, ms),
    ensures
        transform_doc(schema, cfg, variables, ms) == (
            ms,
            Seq::<QueryModel>::empty(),
            Seq::<Diagnostic>::empty(),
        ),
{
    lemma_classify_identity_ms(schema, cfg, ms, 0, 0);
    lemma_waterfall_none_ms(schema, ms, None);
    lemma_typecheck_none_ms(schema, ms);
    lemma_rewrite_identity_ms(schema, ms, variables, None);
    assert(Seq::<Diagnostic>::empty() + Seq::<Diagnostic>::empty() + Seq::<Diagnostic>::empty()
        =~= Seq::<Diagnostic>::empty());
}

/// A to-server edge with no enclosing to-server edge passes waterfall
/// validation whether or not it is acknowledged: its own entry contributes
/// no diagnostic, only what lies beneath it can.
pub proof fn lemma_depth_zero_passes(m: SelectionModel)
    requires
        m matches SelectionModel::FieldV { client_edge: Some(meta), .. } && meta.kind
            == ClientEdgeKind::ToServer,
    ensures
        (m matches SelectionModel::FieldV { client_edge: Some(meta), selections, .. } ==>
            waterfall_m(m, None) == waterfall_ms(selections, Some(meta.edge_id))),
{
    match m {
        SelectionModel::FieldV { selections, client_edge, .. } => {
            let meta = client_edge->0;
            assert(Seq::<Diagnostic>::empty() + waterfall_ms(selections, Some(meta.edge_id))
                =~= waterfall_ms(selections, Some(meta.edge_id)));
        },
        _ => {},
    }
}

/// How many `UnexpectedWaterfall` diagnostics a list holds for an edge.
pub open spec fn waterfall_count(ds: Seq<Diagnostic>, e: usize) -> nat
    decreases ds,
{
    if ds.len() == 0 {
        0
    } else {
        (if ds[0].kind == DiagnosticKind::UnexpectedWaterfall && ds[0].edge_id == e {
            1nat
        } else {
            0nat
        }) + waterfall_count(ds.drop_first(), e)
    }
}

/// How many offending nodes a subtree holds for an edge identifier: nodes
/// that are to-server, unacknowledged, and nested under a to-server edge.
pub open spec fn offence_count(m: SelectionModel, nearest: Option<usize>, e: usize) -> nat
    decreases m,
{
    match m {
        SelectionModel::FieldV { selections, client_edge, .. } => {
            match client_edge {
                Some(meta) => {
                    if meta.kind == ClientEdgeKind::ToServer {
                        (if nearest is Some && !meta.acknowledged && meta.edge_id == e {
                            1nat
                        } else {
                            0nat
                        }) + offence_count_ms(selections, Some(meta.edge_id), e)
                    } else {
                        offence_count_ms(selections, nearest, e)
                    }
                },
                None => offence_count_ms(selections, nearest, e),
            }
        },
        SelectionModel::InlineV { selections, .. } => offence_count_ms(selections, nearest, e),
        SelectionModel::SpreadV { .. } => 0,
    }
}

pub open spec fn offence_count_ms(
    ms: Seq<SelectionModel>,
    nearest: Option<usize>,
    e: usize,
) -> nat
    decreases ms,
{
    if ms.len() == 0 {
        0
    } else {
        offence_count(ms[0], nearest, e) + offence_count_ms(ms.drop_first(), nearest, e)
    }
}

proof fn lemma_waterfall_count_concat(a: Seq<Diagnostic>, b: Seq<Diagnostic>, e: usize)
    ensures
        waterfall_count(a + b, e) == waterfall_count(a, e) + waterfall_count(b, e),
    decreases a.len(),
{
    if a.len() == 0 {
        assert(a + b =~= b);
    } else {
        assert((a + b)[0] == a[0]);
        assert((a + b).drop_first() =~= a.drop_first() + b);
        lemma_waterfall_count_concat(a.drop_first(), b, e);
    }
}

/// Waterfall validation reports exactly one `UnexpectedWaterfall` per
/// offending node -- an unacknowledged to-server edge nested under another
/// to-server edge -- and keeps traversing, so every deeper violation is
/// found in the same pass.
pub proof fn lemma_one_diagnostic_per_offence(m: SelectionModel, nearest: Option<usize>, e: usize)
    ensures
        waterfall_count(waterfall_m(m, nearest), e) == offence_count(m, nearest, e),
    decreases m,
{
    match m {
        SelectionModel::FieldV { selections, client_edge, .. } => {
            match client_edge {
                Some(meta) => {
                    if meta.kind == ClientEdgeKind::ToServer {
                        let own: Seq<Diagnostic> = if nearest is Some && !meta.acknowledged {
                            seq![
                                Diagnostic {
                                    kind: DiagnosticKind::UnexpectedWaterfall,
                                    edge_id: meta.edge_id,
                                    ancestor: nearest,
                                },
                            ]
                        } else {
                            Seq::<Diagnostic>::empty()
                        };
                        lemma_one_diagnostic_per_offence_ms(selections, Some(meta.edge_id), e);
                        lemma_waterfall_count_concat(
                            own,
                            waterfall_ms(selections, Some(meta.edge_id)),
                            e,
                        );
                        assert(waterfall_count(Seq::<Diagnostic>::empty(), e) == 0);
                        if own.len() > 0 {
                            assert(own.drop_first() =~= Seq::<Diagnostic>::empty());
                            assert(waterfall_count(own, e) == (if meta.edge_id == e {
                                1nat
                            } else {
                                0nat
                            }));
                        }
                    } else {
                        lemma_one_diagnostic_per_offence_ms(selections, nearest, e);
                    }
                },
                None => {
                    lemma_one_diagnostic_per_offence_ms(selections, nearest, e);
                },
            }
        },
        SelectionModel::InlineV { selections, .. } => {
            lemma_one_diagnostic_per_offence_ms(selections, nearest, e);
        },
        SelectionModel::SpreadV { .. } => {},
    }
}

pub proof fn lemma_one_diagnostic_per_offence_ms(
    ms: Seq<SelectionModel>,
    nearest: Option<usize>,
    e: usize,
)
    ensures
        waterfall_count(waterfall_ms(ms, nearest), e) == offence_count_ms(ms, nearest, e),
    decreases ms,
{
    if ms.len() > 0 {
        lemma_one_diagnostic_per_offence(ms[0], nearest, e);
        lemma_one_diagnostic_per_offence_ms(ms.drop_first(), nearest, e);
        lemma_waterfall_count_concat(
            waterfall_m(ms[0], nearest),
            waterfall_ms(ms.drop_first(), nearest),
            e,
        );
    }
}

/// No two to-server edges share a round trip unless explicitly
/// acknowledged: nested under another to-server edge, an unacknowledged
/// to-server edge is not split, so the only queries handed back are those
/// of its descendants.
pub proof fn lemma_nested_split_needs_acknowledgment(
    schema: Schema,
    m: SelectionModel,
    decls: Seq<usize>,
    nearest: Option<usize>,
)
    requires
        nearest is Some,
        m matches SelectionModel::FieldV { client_edge: Some(meta), .. } && meta.kind
            == ClientEdgeKind::ToServer && !meta.acknowledged,
    ensures
        (m matches SelectionModel::FieldV { selections, client_edge: Some(meta), .. } ==>
            rewrite_m(schema, m, decls, nearest).1 == rewrite_ms(
                schema,
                selections,
                decls,
                Some(meta.edge_id),
            ).1),
{
}

/// An edge whose target resolves only through client-only abstract types is
/// reported, and its subtree is left unrewritten: the node keeps its
/// arguments, directives and (processed) children, and contributes no
/// synthetic query of its own.
pub proof fn lemma_unresolvable_target(
    schema: Schema,
    m: SelectionModel,
    decls: Seq<usize>,
    nearest: Option<usize>,
)
    requires
        m matches SelectionModel::FieldV { client_edge: Some(meta), .. } && target_unresolvable(
            schema,
            meta.target_type,
        ),
    ensures
        typecheck_m(schema, m).len() >= 1,
        (m matches SelectionModel::FieldV { client_edge: Some(meta), .. } ==> typecheck_m(
            schema,
            m,
        )[0] == Diagnostic {
            kind: DiagnosticKind::TargetTypeUnresolvable,
            edge_id: meta.edge_id,
            ancestor: None,
        }),
        (m matches SelectionModel::FieldV {
            field_id,
            arguments,
            directives,
            selections,
            module,
            client_edge: Some(meta),
        } ==> rewrite_m(schema, m, decls, nearest) == (
            SelectionModel::FieldV {
                field_id,
                arguments,
                directives,
                selections: rewrite_ms(
                    schema,
                    selections,
                    decls,
                    if meta.kind == ClientEdgeKind::ToServer {
                        Some(meta.edge_id)
                    } else {
                        nearest
                    },
                ).0,
                module,
                client_edge: Some(meta),
            },
            rewrite_ms(
                schema,
                selections,
                decls,
                if meta.kind == ClientEdgeKind::ToServer {
                    Some(meta.edge_id)
                } else {
                    nearest
                },
            ).1,
            rewrite_ms(
                schema,
                selections,
                decls,
                if meta.kind == ClientEdgeKind::ToServer {
                    Some(meta.edge_id)
                } else {
                    nearest
                },
            ).2,
        )),
{
    match m {
        SelectionModel::FieldV { directives, selections, client_edge, .. } => {
            let meta = client_edge->0;
            assert(!rewrite_ok(schema, meta, directives, nearest));
            let own = seq![
                Diagnostic {
                    kind: DiagnosticKind::TargetTypeUnresolvable,
                    edge_id: meta.edge_id,
                    ancestor: None,
                },
            ];
            let incompatible: Seq<Diagnostic> = if meta.kind == ClientEdgeKind::ToServer
                && has_nullability_directive(directives) {
                seq![
                    Diagnostic {
                        kind: DiagnosticKind::IncompatibleDirective,
                        edge_id: meta.edge_id,
                        ancestor: None,
                    },
                ]
            } else {
                Seq::<Diagnostic>::empty()
            };
            assert((own + incompatible + typecheck_ms(schema, selections))[0] == own[0]);
        },
        _ => {},
    }
}

} // verus!
