use vstd::prelude::*;
use crate::ir::Argument;
use crate::ir::Selection;
use crate::ir::SyntheticQuery;
use crate::ir::sel_model;
use crate::ir::sel_models;
use crate::ir::arg_model;
use crate::ir::arg_models;
use crate::ir::lemma_sel_models_push;
use crate::ir::ClientEdgeKind;
use crate::ir::ClientEdgeMetadata;
use crate::ir::Diagnostic;
use crate::ir::DiagnosticKind;
use crate::ir::FieldDef;
use crate::ir::TypeDef;
use crate::ir::Schema;
use crate::ir::ArgumentModel;
use crate::ir::ValueModel;
use crate::ir::SelectionModel;
use crate::ir::QueryModel;

verus! {

/// The per-run configuration the transform reads: which argument name is
/// the explicit waterfall acknowledgment.
#[derive(Clone, Copy, PartialEq, Eq, Structural)]
pub struct TransformConfig {
    pub ack_argument: usize,
}

pub open spec fn field_known(schema: Schema, id: usize) -> bool {
    id < schema.fields@.len()
}

pub open spec fn field_def(schema: Schema, id: usize) -> FieldDef {
    schema.fields@[id as int]
}

pub open spec fn type_known(schema: Schema, id: usize) -> bool {
    id < schema.types@.len()
}

pub open spec fn type_def(schema: Schema, id: usize) -> TypeDef {
    schema.types@[id as int]
}

/// A target is unresolvable when it lives only as a client extension of an
/// interface or union none of whose branches the server can answer.
pub open spec fn target_unresolvable(schema: Schema, target: usize) -> bool {
    let td = type_def(schema, target);
    !td.on_server && td.is_abstract && !td.has_server_branch
}

/// Every schema reference inside the tree resolves: that is what upstream
/// typing guarantees and what the lookups here lean on.
pub open spec fn wf_sel(schema: Schema, m: SelectionModel) -> bool
    decreases m,
{
    match m {
        SelectionModel::FieldV { field_id, selections, client_edge, .. } => {
            &&& field_known(schema, field_id)
            &&& type_known(schema, field_def(schema, field_id).target_type)
            &&& (match client_edge {
                Some(meta) => type_known(schema, meta.target_type),
                None => true,
            })
            &&& wf_sels(schema, selections)
        },
        SelectionModel::InlineV { selections, .. } => wf_sels(schema, selections),
        SelectionModel::SpreadV { .. } => true,
    }
}

pub open spec fn wf_sels(schema: Schema, ms: Seq<SelectionModel>) -> bool
    decreases ms,
{
    if ms.len() == 0 {
        true
    } else {
        wf_sel(schema, ms[0]) && wf_sels(schema, ms.drop_first())
    }
}

/// Number of nodes in a selection tree; it bounds every counter the
/// transform threads through a traversal.
pub open spec fn sel_size(m: SelectionModel) -> nat
    decreases m,
{
    match m {
        SelectionModel::FieldV { selections, .. } => 1 + sels_size(selections),
        SelectionModel::InlineV { selections, .. } => 1 + sels_size(selections),
        SelectionModel::SpreadV { .. } => 1,
    }
}

pub open spec fn sels_size(ms: Seq<SelectionModel>) -> nat
    decreases ms,
{
    if ms.len() == 0 {
        0
    } else {
        sel_size(ms[0]) + sels_size(ms.drop_first())
    }
}

/// Whether the field's arguments carry the explicit acknowledgment.
pub open spec fn has_ack(cfg: TransformConfig, args: Seq<ArgumentModel>) -> bool {
    exists|i: int| 0 <= i < args.len() && args[i].name == cfg.ack_argument
}

/// What classification decides for one field: not a client edge, or a
/// client edge whose kind follows from whether the declared target type
/// exists on the server schema.
pub open spec fn classify_field(
    schema: Schema,
    cfg: TransformConfig,
    field_id: usize,
    args: Seq<ArgumentModel>,
    depth: usize,
    next: usize,
) -> Option<ClientEdgeMetadata> {
    let fd = field_def(schema, field_id);
    if fd.client_resolved {
        Some(
            ClientEdgeMetadata {
                edge_id: next,
                target_type: fd.target_type,
                kind: if type_def(schema, fd.target_type).on_server {
                    ClientEdgeKind::ToServer
                } else {
                    ClientEdgeKind::ToClientObject
                },
                depth,
                acknowledged: has_ack(cfg, args),
            },
        )
    } else {
        None
    }
}

/// Classification over one node: attaches metadata to client-edge fields,
/// threads the depth of enclosing to-server edges and the next free edge
/// identifier, and never alters the tree's shape.
pub open spec fn classify_m(
    schema: Schema,
    cfg: TransformConfig,
    m: SelectionModel,
    depth: usize,
    next: usize,
) -> (SelectionModel, usize)
    decreases m,
{
    match m {
        SelectionModel::FieldV { field_id, arguments, directives, selections, module, .. } => {
            let meta = classify_field(schema, cfg, field_id, arguments, depth, next);
            let next1 = if meta is Some {
                (next + 1) as usize
            } else {
                next
            };
            let child_depth = if meta matches Some(mm) && mm.kind == ClientEdgeKind::ToServer {
                (depth + 1) as usize
            } else {
                depth
            };
            let (cs, next2) = classify_ms(schema, cfg, selections, child_depth, next1);
            (
                SelectionModel::FieldV {
                    field_id,
                    arguments,
                    directives,
                    selections: cs,
                    module,
                    client_edge: meta,
                },
                next2,
            )
        },
        SelectionModel::InlineV { type_condition, directives, selections } => {
            let (cs, next2) = classify_ms(schema, cfg, selections, depth, next);
            (SelectionModel::InlineV { type_condition, directives, selections: cs }, next2)
        },
        SelectionModel::SpreadV { .. } => (m, next),
    }
}

pub open spec fn classify_ms(
    schema: Schema,
    cfg: TransformConfig,
    ms: Seq<SelectionModel>,
    depth: usize,
    next: usize,
) -> (Seq<SelectionModel>, usize)
    decreases ms,
{
    if ms.len() == 0 {
        (Seq::<SelectionModel>::empty(), next)
    } else {
        let (c, next1) = classify_m(schema, cfg, ms[0], depth, next);
        let (cs, next2) = classify_ms(schema, cfg, ms.drop_first(), depth, next1);
        (seq![c] + cs, next2)
    }
}

/// Waterfall validation over one node. `nearest` is the nearest enclosing
/// to-server edge, if any: a to-server edge under one, without the explicit
/// acknowledgment, is one `UnexpectedWaterfall`; the node is still entered,
/// so deeper violations are found in the same pass.
pub open spec fn waterfall_m(m: SelectionModel, nearest: Option<usize>) -> Seq<Diagnostic>
    decreases m,
{
    match m {
        SelectionModel::FieldV { selections, client_edge, .. } => {
            match client_edge {
                Some(meta) => {
                    if meta.kind == ClientEdgeKind::ToServer {
                        let own: Seq<Diagnostic> = if nearest is Some && !meta.acknowledged {
                            seq![
                                Diagnostic {
                                    kind: DiagnosticKind::UnexpectedWaterfall,
                                    edge_id: meta.edge_id,
                                    ancestor: nearest,
                                },
                            ]
                        } else {
                            Seq::<Diagnostic>::empty()
                        };
                        own + waterfall_ms(selections, Some(meta.edge_id))
                    } else {
                        waterfall_ms(selections, nearest)
                    }
                },
                None => waterfall_ms(selections, nearest),
            }
        },
        SelectionModel::InlineV { selections, .. } => waterfall_ms(selections, nearest),
        SelectionModel::SpreadV { .. } => Seq::<Diagnostic>::empty(),
    }
}

pub open spec fn waterfall_ms(ms: Seq<SelectionModel>, nearest: Option<usize>) -> Seq<Diagnostic>
    decreases ms,
{
    if ms.len() == 0 {
        Seq::<Diagnostic>::empty()
    } else {
        waterfall_m(ms[0], nearest) + waterfall_ms(ms.drop_first(), nearest)
    }
}

/// Whether any directive on the node enforces nullability.
pub open spec fn has_nullability_directive(ds: Seq<crate::ir::Directive>) -> bool {
    exists|i: int| 0 <= i < ds.len() && ds[i].enforces_nullability
}

/// Type-compatibility validation over one node, order-independent: an edge
/// whose target is unresolvable, and a to-server edge carrying a
/// nullability-enforcing directive, are each one diagnostic. All
/// violations are collected; nothing fails fast.
pub open spec fn typecheck_m(schema: Schema, m: SelectionModel) -> Seq<Diagnostic>
    decreases m,
{
    match m {
        SelectionModel::FieldV { directives, selections, client_edge, .. } => {
            let own: Seq<Diagnostic> = match client_edge {
                Some(meta) => {
                    let unresolved: Seq<Diagnostic> = if target_unresolvable(
                        schema,
                        meta.target_type,
                    ) {
                        seq![
                            Diagnostic {
                                kind: DiagnosticKind::TargetTypeUnresolvable,
                                edge_id: meta.edge_id,
                                ancestor: None,
                            },
                        ]
                    } else {
                        Seq::<Diagnostic>::empty()
                    };
                    let incompatible: Seq<Diagnostic> = if meta.kind == ClientEdgeKind::ToServer
                        && has_nullability_directive(directives) {
                        seq![
                            Diagnostic {
                                kind: DiagnosticKind::IncompatibleDirective,
                                edge_id: meta.edge_id,
                                ancestor: None,
                            },
                        ]
                    } else {
                        Seq::<Diagnostic>::empty()
                    };
                    unresolved + incompatible
                },
                None => Seq::<Diagnostic>::empty(),
            };
            own + typecheck_ms(schema, selections)
        },
        SelectionModel::InlineV { selections, .. } => typecheck_ms(schema, selections),
        SelectionModel::SpreadV { .. } => Seq::<Diagnostic>::empty(),
    }
}

pub open spec fn typecheck_ms(schema: Schema, ms: Seq<SelectionModel>) -> Seq<Diagnostic>
    decreases ms,
{
    if ms.len() == 0 {
        Seq::<Diagnostic>::empty()
    } else {
        typecheck_m(schema, ms[0]) + typecheck_ms(schema, ms.drop_first())
    }
}

/// The variables an argument value refers to, in reading order.
pub open spec fn used_vars_val(v: ValueModel) -> Seq<usize>
    decreases v,
{
    match v {
        ValueModel::ConstantV { .. } => Seq::<usize>::empty(),
        ValueModel::VariableV { var } => seq![var],
        ValueModel::ListV { items } => used_vars_vals(items),
    }
}

pub open spec fn used_vars_vals(vs: Seq<ValueModel>) -> Seq<usize>
    decreases vs,
{
    if vs.len() == 0 {
        Seq::<usize>::empty()
    } else {
        used_vars_val(vs[0]) + used_vars_vals(vs.drop_first())
    }
}

pub open spec fn used_vars_args(args: Seq<ArgumentModel>) -> Seq<usize>
    decreases args,
{
    if args.len() == 0 {
        Seq::<usize>::empty()
    } else {
        used_vars_val(args[0].value) + used_vars_args(args.drop_first())
    }
}

/// The variables a subtree refers to, transitively, through its argument
/// value expressions.
pub open spec fn used_vars_sel(m: SelectionModel) -> Seq<usize>
    decreases m,
{
    match m {
        SelectionModel::FieldV { arguments, selections, .. } => used_vars_args(arguments)
            + used_vars_sels(selections),
        SelectionModel::InlineV { selections, .. } => used_vars_sels(selections),
        SelectionModel::SpreadV { .. } => Seq::<usize>::empty(),
    }
}

pub open spec fn used_vars_sels(ms: Seq<SelectionModel>) -> Seq<usize>
    decreases ms,
{
    if ms.len() == 0 {
        Seq::<usize>::empty()
    } else {
        used_vars_sel(ms[0]) + used_vars_sels(ms.drop_first())
    }
}

/// The declared variables a subtree refers to, kept in declaration order.
pub open spec fn selected_vars(decls: Seq<usize>, used: Seq<usize>) -> Seq<usize>
    decreases decls,
{
    if decls.len() == 0 {
        Seq::<usize>::empty()
    } else if used.contains(decls[0]) {
        seq![decls[0]] + selected_vars(decls.drop_first(), used)
    } else {
        selected_vars(decls.drop_first(), used)
    }
}

/// Whether every variable the subtree refers to is declared on the
/// enclosing operation. When not, the synthetic query would not compile on
/// its own: an internal defect, not a user error.
pub open spec fn vars_covered(used: Seq<usize>, decls: Seq<usize>) -> bool {
    forall|i: int| 0 <= i < used.len() ==> decls.contains(#[trigger] used[i])
}

/// Whether a validated to-server edge may be rewritten: its target
/// resolves, it carries no nullability-enforcing directive, and any nested
/// position is explicitly acknowledged.
pub open spec fn rewrite_ok(
    schema: Schema,
    meta: ClientEdgeMetadata,
    directives: Seq<crate::ir::Directive>,
    nearest: Option<usize>,
) -> bool {
    &&& !target_unresolvable(schema, meta.target_type)
    &&& !has_nullability_directive(directives)
    &&& (nearest is None || meta.acknowledged)
}

/// The minimal placeholder a rewritten to-server edge leaves in the
/// residual tree: the field and its metadata, nothing beneath it.
pub open spec fn placeholder(
    field_id: usize,
    module: Option<usize>,
    meta: ClientEdgeMetadata,
) -> SelectionModel {
    SelectionModel::FieldV {
        field_id,
        arguments: Seq::<ArgumentModel>::empty(),
        directives: Seq::<crate::ir::Directive>::empty(),
        selections: Seq::<SelectionModel>::empty(),
        module,
        client_edge: Some(meta),
    }
}

/// The rewrite over one classified node: descendants first, then the
/// node's own placeholder decision. A valid to-server edge becomes a
/// placeholder and its processed subtree the body of a synthetic query
/// carrying the declared variables the subtree refers to; an invalid one is
/// left unrewritten, aborting nothing else.
pub open spec fn rewrite_m(
    schema: Schema,
    m: SelectionModel,
    decls: Seq<usize>,
    nearest: Option<usize>,
) -> (SelectionModel, Seq<QueryModel>, Seq<Diagnostic>)
    decreases m,
{
    match m {
        SelectionModel::FieldV {
            field_id,
            arguments,
            directives,
            selections,
            module,
            client_edge,
        } => {
            match client_edge {
                Some(meta) => {
                    if meta.kind == ClientEdgeKind::ToServer && rewrite_ok(
                        schema,
                        meta,
                        directives,
                        nearest,
                    ) {
                        let (cs, qs, ds) = rewrite_ms(
                            schema,
                            selections,
                            decls,
                            Some(meta.edge_id),
                        );
                        let used = used_vars_sels(cs);
                        if vars_covered(used, decls) {
                            (
                                placeholder(field_id, module, meta),
                                qs + seq![
                                    QueryModel {
                                        edge_id: meta.edge_id,
                                        variables: selected_vars(decls, used),
                                        selections: cs,
                                    },
                                ],
                                ds,
                            )
                        } else {
                            (
                                SelectionModel::FieldV {
                                    field_id,
                                    arguments,
                                    directives,
                                    selections: cs,
                                    module,
                                    client_edge,
                                },
                                qs,
                                ds + seq![
                                    Diagnostic {
                                        kind: DiagnosticKind::MalformedSyntheticQuery,
                                        edge_id: meta.edge_id,
                                        ancestor: None,
                                    },
                                ],
                            )
                        }
                    } else {
                        let child_nearest = if meta.kind == ClientEdgeKind::ToServer {
                            Some(meta.edge_id)
                        } else {
                            nearest
                        };
                        let (cs, qs, ds) = rewrite_ms(schema, selections, decls, child_nearest);
                        (
                            SelectionModel::FieldV {
                                field_id,
                                arguments,
                                directives,
                                selections: cs,
                                module,
                                client_edge,
                            },
                            qs,
                            ds,
                        )
                    }
                },
                None => {
                    let (cs, qs, ds) = rewrite_ms(schema, selections, decls, nearest);
                    (
                        SelectionModel::FieldV {
                            field_id,
                            arguments,
                            directives,
                            selections: cs,
                            module,
                            client_edge,
                        },
                        qs,
                        ds,
                    )
                },
            }
        },
        SelectionModel::InlineV { type_condition, directives, selections } => {
            let (cs, qs, ds) = rewrite_ms(schema, selections, decls, nearest);
            (SelectionModel::InlineV { type_condition, directives, selections: cs }, qs, ds)
        },
        SelectionModel::SpreadV { .. } => {
            (m, Seq::<QueryModel>::empty(), Seq::<Diagnostic>::empty())
        },
    }
}

pub open spec fn rewrite_ms(
    schema: Schema,
    ms: Seq<SelectionModel>,
    decls: Seq<usize>,
    nearest: Option<usize>,
) -> (Seq<SelectionModel>, Seq<QueryModel>, Seq<Diagnostic>)
    decreases ms,
{
    if ms.len() == 0 {
        (Seq::<SelectionModel>::empty(), Seq::<QueryModel>::empty(), Seq::<Diagnostic>::empty())
    } else {
        let (c, qs0, ds0) = rewrite_m(schema, ms[0], decls, nearest);
        let (cs, qs1, ds1) = rewrite_ms(schema, ms.drop_first(), decls, nearest);
        (seq![c] + cs, qs0 + qs1, ds0 + ds1)
    }
}

/// The whole transform of one document: classify, validate waterfalls,
/// validate types, then rewrite. The diagnostics are every violation found
/// in any pass; a document with any of them is non-compilable.
pub open spec fn transform_doc(
    schema: Schema,
    cfg: TransformConfig,
    variables: Seq<usize>,
    selections: Seq<SelectionModel>,
) -> (Seq<SelectionModel>, Seq<QueryModel>, Seq<Diagnostic>) {
    let (cs, _next) = classify_ms(schema, cfg, selections, 0, 0);
    let wd = waterfall_ms(cs, None);
    let td = typecheck_ms(schema, cs);
    let (rs, qs, md) = rewrite_ms(schema, cs, variables, None);
    (rs, qs, wd + td + md)
}

/// Each element's size is bounded by the whole sequence's size.
pub proof fn lemma_sels_size_index(ms: Seq<SelectionModel>)
    ensures
        forall|i: int| 0 <= i < ms.len() ==> sel_size(#[trigger] ms[i]) <= sels_size(ms),
    decreases ms.len(),
{
    if ms.len() > 0 {
        lemma_sels_size_index(ms.drop_first());
        assert forall|i: int| 0 <= i < ms.len() implies sel_size(#[trigger] ms[i]) <= sels_size(
            ms,
        ) by {
            if i > 0 {
                assert(ms.drop_first()[i - 1] == ms[i]);
                assert(sel_size(ms.drop_first()[i - 1]) <= sels_size(ms.drop_first()));
            }
        }
    }
}

pub proof fn lemma_sel_models_index(ss: Seq<Selection>)
    ensures
        sel_models(ss).len() == ss.len(),
        forall|i: int| 0 <= i < ss.len() ==> sel_models(ss)[i] == sel_model(ss[i]),
    decreases ss.len(),
{
    if ss.len() > 0 {
        lemma_sel_models_index(ss.drop_first());
        assert forall|i: int| 0 <= i < ss.len() implies sel_models(ss)[i] == sel_model(
            ss[i],
        ) by {
            if i > 0 {
                assert(sel_models(ss)[i] == sel_models(ss.drop_first())[i - 1]);
                assert(ss.drop_first()[i - 1] == ss[i]);
            }
        }
    }
}

pub proof fn lemma_arg_models_index(args: Seq<Argument>)
    ensures
        arg_models(args).len() == args.len(),
        forall|i: int| 0 <= i < args.len() ==> arg_models(args)[i] == arg_model(args[i]),
    decreases args.len(),
{
    if args.len() > 0 {
        lemma_arg_models_index(args.drop_first());
        assert forall|i: int| 0 <= i < args.len() implies arg_models(args)[i] == arg_model(
            args[i],
        ) by {
            if i > 0 {
                assert(arg_models(args)[i] == arg_models(args.drop_first())[i - 1]);
                assert(args.drop_first()[i - 1] == args[i]);
            }
        }
    }
}

/// Validates waterfalls below one node, `nearest` being the nearest
/// enclosing to-server edge.
pub fn waterfall_sel(s: &Selection, nearest: Option<usize>) -> (r: Vec<Diagnostic>)
    ensures
        r@ == waterfall_m(sel_model(*s), nearest),
    decreases sel_size(sel_model(*s)),
{
    match s {
        Selection::Field(f) => {
            let mut acc: Vec<Diagnostic> = Vec::new();
            let child_nearest: Option<usize> = match &f.client_edge {
                Some(meta) => {
                    if matches!(meta.kind, ClientEdgeKind::ToServer) {
                        if nearest.is_some() && !meta.acknowledged {
                            acc.push(
                                Diagnostic {
                                    kind: DiagnosticKind::UnexpectedWaterfall,
                                    edge_id: meta.edge_id,
                                    ancestor: nearest,
                                },
                            );
                        }
                        Some(meta.edge_id)
                    } else {
                        nearest
                    }
                },
                None => nearest,
            };
            let ghost cms = sel_models(f.selections@);
            let ghost own = acc@;
            proof {
                lemma_sel_models_index(f.selections@);
                assert(cms.skip(0) =~= cms);
            }
            let mut i: usize = 0;
            while i < f.selections.len()
                invariant
                    i <= f.selections@.len(),
                    cms == sel_models(f.selections@),
                    1 + sels_size(cms) <= sel_size(sel_model(*s)),
                    own + waterfall_ms(cms, child_nearest) == acc@ + waterfall_ms(
                        cms.skip(i as int),
                        child_nearest,
                    ),
                decreases f.selections@.len() - i,
            {
                proof {
                    lemma_sel_models_index(f.selections@);
                    lemma_sels_size_index(cms);
                    assert(sel_size(sel_model(f.selections@[i as int])) <= sels_size(cms));
                }
                let d = waterfall_sel(&f.selections[i], child_nearest);
                let ghost old_acc = acc@;
                let mut dm = d;
                acc.append(&mut dm);
                proof {
                    lemma_sel_models_index(f.selections@);
                    let rest = cms.skip(i as int);
                    assert(rest[0] == cms[i as int]);
                    assert(rest.drop_first() =~= cms.skip(i + 1));
                    assert(waterfall_ms(rest, child_nearest) == waterfall_m(cms[i as int],
                        child_nearest) + waterfall_ms(cms.skip(i + 1), child_nearest));
                    assert(old_acc + (waterfall_m(cms[i as int], child_nearest) + waterfall_ms(
                        cms.skip(i + 1),
                        child_nearest,
                    )) =~= acc@ + waterfall_ms(cms.skip(i + 1), child_nearest));
                }
                i = i + 1;
            }
            proof {
                assert(cms.skip(cms.len() as int) =~= Seq::<SelectionModel>::empty());
                assert(acc@ + Seq::<Diagnostic>::empty() =~= acc@);
                assert(own + waterfall_ms(cms, child_nearest) =~= acc@);
                assert(own =~= seq![] + own);
            }
            acc
        },
        Selection::InlineFragment(inl) => {
            let mut acc: Vec<Diagnostic> = Vec::new();
            let ghost cms = sel_models(inl.selections@);
            proof {
                lemma_sel_models_index(inl.selections@);
                assert(cms.skip(0) =~= cms);
            }
            let mut i: usize = 0;
            while i < inl.selections.len()
                invariant
                    i <= inl.selections@.len(),
                    cms == sel_models(inl.selections@),
                    1 + sels_size(cms) <= sel_size(sel_model(*s)),
                    waterfall_ms(cms, nearest) == acc@ + waterfall_ms(
                        cms.skip(i as int),
                        nearest,
                    ),
                decreases inl.selections@.len() - i,
            {
                proof {
                    lemma_sel_models_index(inl.selections@);
                    lemma_sels_size_index(cms);
                    assert(sel_size(sel_model(inl.selections@[i as int])) <= sels_size(cms));
                }
                let d = waterfall_sel(&inl.selections[i], nearest);
                let ghost old_acc = acc@;
                let mut dm = d;
                acc.append(&mut dm);
                proof {
                    lemma_sel_models_index(inl.selections@);
                    let rest = cms.skip(i as int);
                    assert(rest[0] == cms[i as int]);
                    assert(rest.drop_first() =~= cms.skip(i + 1));
                    assert(old_acc + (waterfall_m(cms[i as int], nearest) + waterfall_ms(
                        cms.skip(i + 1),
                        nearest,
                    )) =~= acc@ + waterfall_ms(cms.skip(i + 1), nearest));
                }
                i = i + 1;
            }
            proof {
                assert(cms.skip(cms.len() as int) =~= Seq::<SelectionModel>::empty());
                assert(acc@ + Seq::<Diagnostic>::empty() =~= acc@);
            }
            acc
        },
        Selection::FragmentSpread(_) => Vec::new(),
    }
}

/// Validates waterfalls over a whole selection list.
pub fn waterfall_sels(ss: &Vec<Selection>, nearest: Option<usize>) -> (r: Vec<Diagnostic>)
    ensures
        r@ == waterfall_ms(sel_models(ss@), nearest),
{
    let ghost cms = sel_models(ss@);
    let mut acc: Vec<Diagnostic> = Vec::new();
    proof {
        lemma_sel_models_index(ss@);
        assert(cms.skip(0) =~= cms);
    }
    let mut i: usize = 0;
    while i < ss.len()
        invariant
            i <= ss@.len(),
            cms == sel_models(ss@),
            waterfall_ms(cms, nearest) == acc@ + waterfall_ms(cms.skip(i as int), nearest),
        decreases ss@.len() - i,
    {
        let d = waterfall_sel(&ss[i], nearest);
        let ghost old_acc = acc@;
        let mut dm = d;
        acc.append(&mut dm);
        proof {
            lemma_sel_models_index(ss@);
            let rest = cms.skip(i as int);
            assert(rest[0] == cms[i as int]);
            assert(rest.drop_first() =~= cms.skip(i + 1));
            assert(old_acc + (waterfall_m(cms[i as int], nearest) + waterfall_ms(
                cms.skip(i + 1),
                nearest,
            )) =~= acc@ + waterfall_ms(cms.skip(i + 1), nearest));
        }
        i = i + 1;
    }
    proof {
        assert(cms.skip(cms.len() as int) =~= Seq::<SelectionModel>::empty());
        assert(acc@ + Seq::<Diagnostic>::empty() =~= acc@);
    }
    acc
}

/// Whether any directive in the list enforces nullability.
fn scan_nullability(ds: &Vec<crate::ir::Directive>) -> (r: bool)
    ensures
        r == has_nullability_directive(ds@),
{
    let mut i: usize = 0;
    while i < ds.len()
        invariant
            i <= ds@.len(),
            forall|t: int| 0 <= t < i ==> !(#[trigger] ds@[t]).enforces_nullability,
        decreases ds@.len() - i,
    {
        if ds[i].enforces_nullability {
            return true;
        }
        i = i + 1;
    }
    false
}

/// Whether the arguments carry the explicit acknowledgment argument.
fn scan_ack(cfg: TransformConfig, args: &Vec<Argument>) -> (r: bool)
    ensures
        r == has_ack(cfg, arg_models(args@)),
{
    proof {
        lemma_arg_models_index(args@);
    }
    let mut i: usize = 0;
    while i < args.len()
        invariant
            i <= args@.len(),
            forall|t: int| 0 <= t < i ==> (#[trigger] args@[t]).name != cfg.ack_argument,
            arg_models(args@).len() == args@.len(),
            forall|t: int|
                0 <= t < args@.len() ==> #[trigger] arg_models(args@)[t] == arg_model(args@[t]),
        decreases args@.len() - i,
    {
        if args[i].name == cfg.ack_argument {
            proof {
                assert(arg_models(args@)[i as int].name == cfg.ack_argument);
            }
            return true;
        }
        i = i + 1;
    }
    proof {
        assert forall|t: int| 0 <= t < arg_models(args@).len() implies (#[trigger] arg_models(
            args@,
        )[t]).name != cfg.ack_argument by {
            assert(arg_models(args@)[t] == arg_model(args@[t]));
        }
    }
    false
}

/// Validates type compatibility below one node.
pub fn typecheck_sel(schema: &Schema, s: &Selection) -> (r: Vec<Diagnostic>)
    requires
        wf_sel(*schema, sel_model(*s)),
    ensures
        r@ == typecheck_m(*schema, sel_model(*s)),
    decreases sel_size(sel_model(*s)),
{
    match s {
        Selection::Field(f) => {
            let mut acc: Vec<Diagnostic> = Vec::new();
            match &f.client_edge {
                Some(meta) => {
                    let td = schema.types[meta.target_type];
                    if !td.on_server && td.is_abstract && !td.has_server_branch {
                        acc.push(
                            Diagnostic {
                                kind: DiagnosticKind::TargetTypeUnresolvable,
                                edge_id: meta.edge_id,
                                ancestor: None,
                            },
                        );
                    }
                    if matches!(meta.kind, ClientEdgeKind::ToServer) && scan_nullability(
                        &f.directives,
                    ) {
                        acc.push(
                            Diagnostic {
                                kind: DiagnosticKind::IncompatibleDirective,
                                edge_id: meta.edge_id,
                                ancestor: None,
                            },
                        );
                    }
                },
                None => {},
            };
            let ghost cms = sel_models(f.selections@);
            let ghost own = acc@;
            proof {
                lemma_sel_models_index(f.selections@);
                assert(cms.skip(0) =~= cms);
                assert(own + Seq::<Diagnostic>::empty() =~= own);
            }
            let mut i: usize = 0;
            while i < f.selections.len()
                invariant
                    i <= f.selections@.len(),
                    cms == sel_models(f.selections@),
                    1 + sels_size(cms) <= sel_size(sel_model(*s)),
                    wf_sels(*schema, cms.skip(i as int)),
                    own + typecheck_ms(*schema, cms) == acc@ + typecheck_ms(
                        *schema,
                        cms.skip(i as int),
                    ),
                decreases f.selections@.len() - i,
            {
                proof {
                    lemma_sel_models_index(f.selections@);
                    lemma_sels_size_index(cms);
                    let rest = cms.skip(i as int);
                    assert(rest[0] == cms[i as int]);
                    assert(rest.drop_first() =~= cms.skip(i + 1));
                }
                let d = typecheck_sel(schema, &f.selections[i]);
                let ghost old_acc = acc@;
                let mut dm = d;
                acc.append(&mut dm);
                proof {
                    let rest = cms.skip(i as int);
                    assert(old_acc + (typecheck_m(*schema, cms[i as int]) + typecheck_ms(
                        *schema,
                        cms.skip(i + 1),
                    )) =~= acc@ + typecheck_ms(*schema, cms.skip(i + 1)));
                }
                i = i + 1;
            }
            proof {
                assert(cms.skip(cms.len() as int) =~= Seq::<SelectionModel>::empty());
                assert(acc@ + Seq::<Diagnostic>::empty() =~= acc@);
            }
            acc
        },
        Selection::InlineFragment(inl) => {
            let mut acc: Vec<Diagnostic> = Vec::new();
            let ghost cms = sel_models(inl.selections@);
            proof {
                lemma_sel_models_index(inl.selections@);
                assert(cms.skip(0) =~= cms);
            }
            let mut i: usize = 0;
            while i < inl.selections.len()
                invariant
                    i <= inl.selections@.len(),
                    cms == sel_models(inl.selections@),
                    1 + sels_size(cms) <= sel_size(sel_model(*s)),
                    wf_sels(*schema, cms.skip(i as int)),
                    typecheck_ms(*schema, cms) == acc@ + typecheck_ms(
                        *schema,
                        cms.skip(i as int),
                    ),
                decreases inl.selections@.len() - i,
            {
                proof {
                    lemma_sel_models_index(inl.selections@);
                    lemma_sels_size_index(cms);
                    let rest = cms.skip(i as int);
                    assert(rest[0] == cms[i as int]);
                    assert(rest.drop_first() =~= cms.skip(i + 1));
                }
                let d = typecheck_sel(schema, &inl.selections[i]);
                let ghost old_acc = acc@;
                let mut dm = d;
                acc.append(&mut dm);
                proof {
                    assert(old_acc + (typecheck_m(*schema, cms[i as int]) + typecheck_ms(
                        *schema,
                        cms.skip(i + 1),
                    )) =~= acc@ + typecheck_ms(*schema, cms.skip(i + 1)));
                }
                i = i + 1;
            }
            proof {
                assert(cms.skip(cms.len() as int) =~= Seq::<SelectionModel>::empty());
                assert(acc@ + Seq::<Diagnostic>::empty() =~= acc@);
            }
            acc
        },
        Selection::FragmentSpread(_) => Vec::new(),
    }
}

/// Validates type compatibility over a whole selection list.
pub fn typecheck_sels(schema: &Schema, ss: &Vec<Selection>) -> (r: Vec<Diagnostic>)
    requires
        wf_sels(*schema, sel_models(ss@)),
    ensures
        r@ == typecheck_ms(*schema, sel_models(ss@)),
{
    let ghost cms = sel_models(ss@);
    let mut acc: Vec<Diagnostic> = Vec::new();
    proof {
        lemma_sel_models_index(ss@);
        assert(cms.skip(0) =~= cms);
    }
    let mut i: usize = 0;
    while i < ss.len()
        invariant
            i <= ss@.len(),
            cms == sel_models(ss@),
            wf_sels(*schema, cms.skip(i as int)),
            typecheck_ms(*schema, cms) == acc@ + typecheck_ms(*schema, cms.skip(i as int)),
        decreases ss@.len() - i,
    {
        proof {
            lemma_sel_models_index(ss@);
            let rest = cms.skip(i as int);
            assert(rest[0] == cms[i as int]);
            assert(rest.drop_first() =~= cms.skip(i + 1));
        }
        let d = typecheck_sel(schema, &ss[i]);
        let ghost old_acc = acc@;
        let mut dm = d;
        acc.append(&mut dm);
        proof {
            assert(old_acc + (typecheck_m(*schema, cms[i as int]) + typecheck_ms(
                *schema,
                cms.skip(i + 1),
            )) =~= acc@ + typecheck_ms(*schema, cms.skip(i + 1)));
        }
        i = i + 1;
    }
    proof {
        assert(cms.skip(cms.len() as int) =~= Seq::<SelectionModel>::empty());
        assert(acc@ + Seq::<Diagnostic>::empty() =~= acc@);
    }
    acc
}

/// Classification hands back an edge counter that grew by at most the
/// number of nodes it visited.
pub proof fn lemma_classify_next_le(
    schema: Schema,
    cfg: TransformConfig,
    m: SelectionModel,
    depth: usize,
    next: usize,
)
    requires
        next + sel_size(m) <= usize::MAX,
        depth + sel_size(m) <= usize::MAX,
    ensures
        next <= classify_m(schema, cfg, m, depth, next).1 <= next + sel_size(m),
    decreases m,
{
    match m {
        SelectionModel::FieldV { field_id, arguments, selections, .. } => {
            let meta = classify_field(schema, cfg, field_id, arguments, depth, next);
            let next1: usize = if meta is Some {
                (next + 1) as usize
            } else {
                next
            };
            let child_depth: usize = if meta matches Some(mm) && mm.kind
                == ClientEdgeKind::ToServer {
                (depth + 1) as usize
            } else {
                depth
            };
            lemma_classify_next_le_ms(schema, cfg, selections, child_depth, next1);
        },
        SelectionModel::InlineV { selections, .. } => {
            lemma_classify_next_le_ms(schema, cfg, selections, depth, next);
        },
        SelectionModel::SpreadV { .. } => {},
    }
}

pub proof fn lemma_classify_next_le_ms(
    schema: Schema,
    cfg: TransformConfig,
    ms: Seq<SelectionModel>,
    depth: usize,
    next: usize,
)
    requires
        next + sels_size(ms) <= usize::MAX,
        depth + sels_size(ms) <= usize::MAX,
    ensures
        next <= classify_ms(schema, cfg, ms, depth, next).1 <= next + sels_size(ms),
    decreases ms,
{
    if ms.len() > 0 {
        lemma_classify_next_le(schema, cfg, ms[0], depth, next);
        let next1 = classify_m(schema, cfg, ms[0], depth, next).1;
        lemma_classify_next_le_ms(schema, cfg, ms.drop_first(), depth, next1);
    }
}

/// Classifies one node and everything below it, attaching client-edge
/// metadata; `next` is the next free edge identifier.
pub fn classify_sel(
    schema: &Schema,
    cfg: TransformConfig,
    s: Selection,
    depth: usize,
    next: usize,
) -> (r: (Selection, usize))
    requires
        wf_sel(*schema, sel_model(s)),
        depth + sel_size(sel_model(s)) <= usize::MAX,
        next + sel_size(sel_model(s)) <= usize::MAX,
    ensures
        sel_model(r.0) == classify_m(*schema, cfg, sel_model(s), depth, next).0,
        r.1 == classify_m(*schema, cfg, sel_model(s), depth, next).1,
    decreases sel_size(sel_model(s)), 0nat,
{
    match s {
        Selection::Field(f) => {
            let crate::ir::FieldNode {
                field_id,
                arguments,
                directives,
                selections,
                module,
                client_edge: _,
            } = f;
            let fd = schema.fields[field_id];
            let meta: Option<ClientEdgeMetadata> = if fd.client_resolved {
                let td = schema.types[fd.target_type];
                Some(
                    ClientEdgeMetadata {
                        edge_id: next,
                        target_type: fd.target_type,
                        kind: if td.on_server {
                            ClientEdgeKind::ToServer
                        } else {
                            ClientEdgeKind::ToClientObject
                        },
                        depth,
                        acknowledged: scan_ack(cfg, &arguments),
                    },
                )
            } else {
                None
            };
            let next1: usize = if meta.is_some() {
                next + 1
            } else {
                next
            };
            let child_depth: usize = match &meta {
                Some(mm) => {
                    if matches!(mm.kind, ClientEdgeKind::ToServer) {
                        depth + 1
                    } else {
                        depth
                    }
                },
                None => depth,
            };
            let (cs, next2) = classify_sels(schema, cfg, selections, child_depth, next1);
            (
                Selection::Field(
                    crate::ir::FieldNode {
                        field_id,
                        arguments,
                        directives,
                        selections: cs,
                        module,
                        client_edge: meta,
                    },
                ),
                next2,
            )
        },
        Selection::InlineFragment(inl) => {
            let crate::ir::InlineFragmentNode { type_condition, directives, selections } = inl;
            let (cs, next2) = classify_sels(schema, cfg, selections, depth, next);
            (
                Selection::InlineFragment(
                    crate::ir::InlineFragmentNode { type_condition, directives, selections: cs },
                ),
                next2,
            )
        },
        Selection::FragmentSpread(sp) => (Selection::FragmentSpread(sp), next),
    }
}

/// Classifies a whole selection list, threading the edge counter through.
pub fn classify_sels(
    schema: &Schema,
    cfg: TransformConfig,
    ss: Vec<Selection>,
    depth: usize,
    next: usize,
) -> (r: (Vec<Selection>, usize))
    requires
        wf_sels(*schema, sel_models(ss@)),
        depth + sels_size(sel_models(ss@)) <= usize::MAX,
        next + sels_size(sel_models(ss@)) <= usize::MAX,
    ensures
        sel_models(r.0@) == classify_ms(*schema, cfg, sel_models(ss@), depth, next).0,
        r.1 == classify_ms(*schema, cfg, sel_models(ss@), depth, next).1,
    decreases sels_size(sel_models(ss@)), 1nat,
{
    let ghost cms = sel_models(ss@);
    let mut rest = ss;
    let mut out: Vec<Selection> = Vec::new();
    let mut cur: usize = next;
    proof {
        assert(sel_models(out@) =~= Seq::<SelectionModel>::empty());
        assert(sel_models(out@) + classify_ms(*schema, cfg, cms, depth, next).0 =~= classify_ms(
            *schema,
            cfg,
            cms,
            depth,
            next,
        ).0);
    }
    loop
        invariant
            cms == sel_models(ss@),
            wf_sels(*schema, sel_models(rest@)),
            cur + sels_size(sel_models(rest@)) <= usize::MAX,
            depth + sels_size(sel_models(rest@)) <= usize::MAX,
            classify_ms(*schema, cfg, cms, depth, next).0 == sel_models(out@) + classify_ms(
                *schema,
                cfg,
                sel_models(rest@),
                depth,
                cur,
            ).0,
            classify_ms(*schema, cfg, cms, depth, next).1 == classify_ms(
                *schema,
                cfg,
                sel_models(rest@),
                depth,
                cur,
            ).1,
            sels_size(sel_models(rest@)) <= sels_size(cms),
        ensures
            rest@.len() == 0,
            classify_ms(*schema, cfg, cms, depth, next).0 == sel_models(out@) + classify_ms(
                *schema,
                cfg,
                sel_models(rest@),
                depth,
                cur,
            ).0,
            classify_ms(*schema, cfg, cms, depth, next).1 == classify_ms(
                *schema,
                cfg,
                sel_models(rest@),
                depth,
                cur,
            ).1,
        decreases rest@.len(),
    {
        if rest.len() == 0 {
            break ;
        }
        let ghost old_rest = sel_models(rest@);
        let ghost prev = rest@;
        let c = rest.remove(0);
        proof {
            assert(prev.remove(0) =~= prev.drop_first());
            assert(old_rest[0] == sel_model(c));
            assert(old_rest.drop_first() =~= sel_models(rest@));
        }
        let ghost rms = sel_models(rest@);
        let ghost prev_out = sel_models(out@);
        let (c2, cur2) = classify_sel(schema, cfg, c, depth, cur);
        proof {
            lemma_classify_next_le(*schema, cfg, sel_model(c), depth, cur);
            lemma_sel_models_push(out@, c2);
        }
        out.push(c2);
        let ghost old_cur = cur;
        cur = cur2;
        proof {
            let cls0 = classify_m(*schema, cfg, old_rest[0], depth, old_cur).0;
            assert(classify_ms(*schema, cfg, old_rest, depth, old_cur).0 == seq![cls0]
                + classify_ms(*schema, cfg, rms, depth, cur).0);
            assert(sel_models(out@) == prev_out.push(cls0));
            assert(prev_out + (seq![cls0] + classify_ms(*schema, cfg, rms, depth, cur).0)
                =~= prev_out.push(cls0) + classify_ms(*schema, cfg, rms, depth, cur).0);
        }
    }
    proof {
        assert(sel_models(rest@) =~= Seq::<SelectionModel>::empty());
        assert(classify_ms(*schema, cfg, sel_models(rest@), depth, cur).0 =~= Seq::<
            SelectionModel,
        >::empty());
        assert(sel_models(out@) + Seq::<SelectionModel>::empty() =~= sel_models(out@));
    }
    (out, cur)
}

/// Number of nodes in an argument value; the measure for walking it.
pub open spec fn val_size(v: ValueModel) -> nat
    decreases v,
{
    match v {
        ValueModel::ConstantV { .. } => 1,
        ValueModel::VariableV { .. } => 1,
        ValueModel::ListV { items } => 1 + vals_size(items),
    }
}

pub open spec fn vals_size(vs: Seq<ValueModel>) -> nat
    decreases vs,
{
    if vs.len() == 0 {
        0
    } else {
        val_size(vs[0]) + vals_size(vs.drop_first())
    }
}

pub proof fn lemma_vals_size_index(vs: Seq<ValueModel>)
    ensures
        forall|i: int| 0 <= i < vs.len() ==> val_size(#[trigger] vs[i]) <= vals_size(vs),
    decreases vs.len(),
{
    if vs.len() > 0 {
        lemma_vals_size_index(vs.drop_first());
        assert forall|i: int| 0 <= i < vs.len() implies val_size(#[trigger] vs[i]) <= vals_size(
            vs,
        ) by {
            if i > 0 {
                assert(vs.drop_first()[i - 1] == vs[i]);
                assert(val_size(vs.drop_first()[i - 1]) <= vals_size(vs.drop_first()));
            }
        }
    }
}

pub proof fn lemma_val_models_index(vs: Seq<crate::ir::ArgumentValue>)
    ensures
        crate::ir::val_models(vs).len() == vs.len(),
        forall|i: int|
            0 <= i < vs.len() ==> crate::ir::val_models(vs)[i] == crate::ir::val_model(vs[i]),
    decreases vs.len(),
{
    if vs.len() > 0 {
        lemma_val_models_index(vs.drop_first());
        assert forall|i: int|
            0 <= i < vs.len() implies crate::ir::val_models(vs)[i] == crate::ir::val_model(
            vs[i],
        ) by {
            if i > 0 {
                assert(crate::ir::val_models(vs)[i] == crate::ir::val_models(vs.drop_first())[i
                    - 1]);
                assert(vs.drop_first()[i - 1] == vs[i]);
            }
        }
    }
}

/// Collects the variables an argument value refers to, in reading order.
fn vars_of_value(v: &crate::ir::ArgumentValue, acc: &mut Vec<usize>)
    ensures
        final(acc)@ == old(acc)@ + used_vars_val(crate::ir::val_model(*v)),
    decreases val_size(crate::ir::val_model(*v)),
{
    match v {
        crate::ir::ArgumentValue::Constant(_) => {
            proof {
                assert(acc@ + Seq::<usize>::empty() =~= acc@);
            }
        },
        crate::ir::ArgumentValue::Variable(x) => {
            acc.push(*x);
            proof {
                assert(old(acc)@.push(*x) =~= old(acc)@ + seq![*x]);
            }
        },
        crate::ir::ArgumentValue::List(items) => {
            let ghost ims = crate::ir::val_models(items@);
            proof {
                lemma_val_models_index(items@);
                assert(ims.skip(0) =~= ims);
                assert(old(acc)@ + Seq::<usize>::empty() =~= old(acc)@);
            }
            let mut i: usize = 0;
            while i < items.len()
                invariant
                    i <= items@.len(),
                    ims == crate::ir::val_models(items@),
                    1 + vals_size(ims) <= val_size(crate::ir::val_model(*v)),
                    acc@ == old(acc)@ + used_vars_vals(ims.take(i as int)),
                decreases items@.len() - i,
            {
                proof {
                    lemma_val_models_index(items@);
                    lemma_vals_size_index(ims);
                    assert(ims[i as int] == crate::ir::val_model(items@[i as int]));
                    assert(val_size(crate::ir::val_model(items@[i as int])) <= vals_size(ims));
                }
                vars_of_value(&items[i], acc);
                proof {
                    lemma_used_vars_vals_take(ims, i as int);
                    assert(acc@ == old(acc)@ + (used_vars_vals(ims.take(i as int))
                        + used_vars_val(ims[i as int])));
                    assert(old(acc)@ + (used_vars_vals(ims.take(i as int)) + used_vars_val(
                        ims[i as int],
                    )) =~= old(acc)@ + used_vars_vals(ims.take(i + 1)));
                }
                i = i + 1;
            }
            proof {
                assert(ims.take(ims.len() as int) =~= ims);
            }
        },
    }
}

/// One more element of a value list adds its variables at the end.
pub proof fn lemma_used_vars_vals_take(vs: Seq<ValueModel>, i: int)
    requires
        0 <= i < vs.len(),
    ensures
        used_vars_vals(vs.take(i + 1)) == used_vars_vals(vs.take(i)) + used_vars_val(vs[i]),
    decreases i,
{
    if i == 0 {
        assert(vs.take(1)[0] == vs[0]);
        assert(vs.take(1).drop_first() =~= Seq::<ValueModel>::empty());
        assert(used_vars_vals(Seq::<ValueModel>::empty()) =~= Seq::<usize>::empty());
        assert(used_vars_vals(vs.take(1)) == used_vars_val(vs[0]) + used_vars_vals(
            vs.take(1).drop_first(),
        ));
        assert(used_vars_val(vs[0]) + Seq::<usize>::empty() =~= used_vars_val(vs[0]));
        assert(vs.take(0) =~= Seq::<ValueModel>::empty());
        assert(Seq::<usize>::empty() + used_vars_val(vs[0]) =~= used_vars_val(vs[0]));
    } else {
        lemma_used_vars_vals_take(vs.drop_first(), i - 1);
        assert(vs.take(i + 1)[0] == vs[0]);
        assert(vs.take(i + 1).drop_first() =~= vs.drop_first().take(i));
        assert(vs.take(i).drop_first() =~= vs.drop_first().take(i - 1));
        assert(vs.take(i)[0] == vs[0]);
        assert(vs.drop_first()[i - 1] == vs[i]);
        assert(used_vars_vals(vs.take(i + 1)) == used_vars_val(vs[0]) + (used_vars_vals(
            vs.drop_first().take(i - 1),
        ) + used_vars_val(vs[i])));
        assert(used_vars_val(vs[0]) + (used_vars_vals(vs.drop_first().take(i - 1))
            + used_vars_val(vs[i])) =~= (used_vars_val(vs[0]) + used_vars_vals(
            vs.drop_first().take(i - 1),
        )) + used_vars_val(vs[i]));
    }
}

/// Collects the variables a field's arguments refer to.
fn vars_of_args(args: &Vec<Argument>, acc: &mut Vec<usize>)
    ensures
        final(acc)@ == old(acc)@ + used_vars_args(arg_models(args@)),
{
    let ghost ams = arg_models(args@);
    proof {
        lemma_arg_models_index(args@);
        assert(ams.skip(0) =~= ams);
        assert(old(acc)@ + Seq::<usize>::empty() =~= old(acc)@);
    }
    let mut i: usize = 0;
    while i < args.len()
        invariant
            i <= args@.len(),
            ams == arg_models(args@),
            used_vars_args(ams) == used_vars_args(ams.take(i as int)) + used_vars_args(
                ams.skip(i as int),
            ),
            acc@ == old(acc)@ + used_vars_args(ams.take(i as int)),
        decreases args@.len() - i,
    {
        proof {
            lemma_arg_models_index(args@);
            let rest = ams.skip(i as int);
            assert(rest[0] == ams[i as int]);
            assert(rest.drop_first() =~= ams.skip(i + 1));
        }
        vars_of_value(&args[i].value, acc);
        proof {
            assert(crate::ir::val_model(args@[i as int].value) == ams[i as int].value);
            lemma_used_vars_args_take(ams, i as int);
        }
        i = i + 1;
    }
    proof {
        assert(ams.take(ams.len() as int) =~= ams);
    }
}

pub proof fn lemma_used_vars_args_take(args: Seq<ArgumentModel>, i: int)
    requires
        0 <= i < args.len(),
    ensures
        used_vars_args(args.take(i + 1)) == used_vars_args(args.take(i)) + used_vars_val(
            args[i].value,
        ),
        used_vars_args(args) == used_vars_args(args.take(i)) + used_vars_args(args.skip(i)),
        used_vars_args(args) == used_vars_args(args.take(i + 1)) + used_vars_args(
            args.skip(i + 1),
        ),
{
    lemma_used_vars_args_split(args, i);
    lemma_used_vars_args_split(args, i + 1);
    let a = args.take(i + 1);
    assert(a.take(i) =~= args.take(i));
    if a.len() > 0 {
        lemma_used_vars_args_split(a, i);
        assert(a.skip(i)[0] == args[i]);
        assert(a.skip(i).drop_first() =~= Seq::<ArgumentModel>::empty());
        assert(used_vars_args(Seq::<ArgumentModel>::empty()) =~= Seq::<usize>::empty());
        assert(used_vars_args(a.skip(i)) == used_vars_val(args[i].value) + used_vars_args(
            a.skip(i).drop_first(),
        ));
        assert(used_vars_val(args[i].value) + Seq::<usize>::empty() =~= used_vars_val(
            args[i].value,
        ));
    }
}

/// The variables of an argument list split at any point.
pub proof fn lemma_used_vars_args_split(args: Seq<ArgumentModel>, i: int)
    requires
        0 <= i <= args.len(),
    ensures
        used_vars_args(args) == used_vars_args(args.take(i)) + used_vars_args(args.skip(i)),
    decreases i,
{
    if i == 0 {
        assert(args.take(0) =~= Seq::<ArgumentModel>::empty());
        assert(args.skip(0) =~= args);
        assert(Seq::<usize>::empty() + used_vars_args(args) =~= used_vars_args(args));
    } else {
        lemma_used_vars_args_split(args.drop_first(), i - 1);
        assert(args.take(i)[0] == args[0]);
        assert(args.take(i).drop_first() =~= args.drop_first().take(i - 1));
        assert(args.skip(i) =~= args.drop_first().skip(i - 1));
        assert(used_vars_args(args) == used_vars_val(args[0].value) + (used_vars_args(
            args.drop_first().take(i - 1),
        ) + used_vars_args(args.drop_first().skip(i - 1))));
        assert(used_vars_val(args[0].value) + (used_vars_args(args.drop_first().take(i - 1))
            + used_vars_args(args.drop_first().skip(i - 1))) =~= (used_vars_val(args[0].value)
            + used_vars_args(args.drop_first().take(i - 1))) + used_vars_args(
            args.drop_first().skip(i - 1),
        ));
    }
}

/// The variables of a selection list split at any point.
pub proof fn lemma_used_vars_sels_split(ms: Seq<SelectionModel>, i: int)
    requires
        0 <= i <= ms.len(),
    ensures
        used_vars_sels(ms) == used_vars_sels(ms.take(i)) + used_vars_sels(ms.skip(i)),
    decreases i,
{
    if i == 0 {
        assert(ms.take(0) =~= Seq::<SelectionModel>::empty());
        assert(ms.skip(0) =~= ms);
        assert(Seq::<usize>::empty() + used_vars_sels(ms) =~= used_vars_sels(ms));
    } else {
        lemma_used_vars_sels_split(ms.drop_first(), i - 1);
        assert(ms.take(i)[0] == ms[0]);
        assert(ms.take(i).drop_first() =~= ms.drop_first().take(i - 1));
        assert(ms.skip(i) =~= ms.drop_first().skip(i - 1));
        assert(used_vars_sels(ms) == used_vars_sel(ms[0]) + (used_vars_sels(
            ms.drop_first().take(i - 1),
        ) + used_vars_sels(ms.drop_first().skip(i - 1))));
        assert(used_vars_sel(ms[0]) + (used_vars_sels(ms.drop_first().take(i - 1))
            + used_vars_sels(ms.drop_first().skip(i - 1))) =~= (used_vars_sel(ms[0])
            + used_vars_sels(ms.drop_first().take(i - 1))) + used_vars_sels(
            ms.drop_first().skip(i - 1),
        ));
    }
}

pub proof fn lemma_used_vars_sels_take(ms: Seq<SelectionModel>, i: int)
    requires
        0 <= i < ms.len(),
    ensures
        used_vars_sels(ms.take(i + 1)) == used_vars_sels(ms.take(i)) + used_vars_sel(ms[i]),
{
    let a = ms.take(i + 1);
    assert(a.take(i) =~= ms.take(i));
    lemma_used_vars_sels_split(a, i);
    assert(a.skip(i)[0] == ms[i]);
    assert(a.skip(i).drop_first() =~= Seq::<SelectionModel>::empty());
    assert(used_vars_sels(Seq::<SelectionModel>::empty()) =~= Seq::<usize>::empty());
    assert(used_vars_sels(a.skip(i)) == used_vars_sel(ms[i]) + used_vars_sels(
        a.skip(i).drop_first(),
    ));
    assert(used_vars_sel(ms[i]) + Seq::<usize>::empty() =~= used_vars_sel(ms[i]));
}

/// Collects the variables a subtree refers to.
fn vars_of_sel(s: &Selection, acc: &mut Vec<usize>)
    ensures
        final(acc)@ == old(acc)@ + used_vars_sel(sel_model(*s)),
    decreases sel_size(sel_model(*s)), 0nat,
{
    match s {
        Selection::Field(f) => {
            vars_of_args(&f.arguments, acc);
            vars_of_sels_in(&f.selections, acc);
            proof {
                assert(1 + sels_size(sel_models(f.selections@)) <= sel_size(sel_model(*s)));
                assert(old(acc)@ + (used_vars_args(arg_models(f.arguments@)) + used_vars_sels(
                    sel_models(f.selections@),
                )) =~= acc@);
            }
        },
        Selection::InlineFragment(inl) => {
            vars_of_sels_in(&inl.selections, acc);
        },
        Selection::FragmentSpread(_) => {
            proof {
                assert(acc@ + Seq::<usize>::empty() =~= acc@);
            }
        },
    }
}

/// Collects the variables a selection list refers to.
fn vars_of_sels_in(ss: &Vec<Selection>, acc: &mut Vec<usize>)
    ensures
        final(acc)@ == old(acc)@ + used_vars_sels(sel_models(ss@)),
    decreases sels_size(sel_models(ss@)), 1nat,
{
    let ghost cms = sel_models(ss@);
    proof {
        lemma_sel_models_index(ss@);
        assert(cms.take(0) =~= Seq::<SelectionModel>::empty());
        assert(old(acc)@ + Seq::<usize>::empty() =~= old(acc)@);
        assert(used_vars_sels(Seq::<SelectionModel>::empty()) =~= Seq::<usize>::empty());
    }
    let mut i: usize = 0;
    while i < ss.len()
        invariant
            i <= ss@.len(),
            cms == sel_models(ss@),
            sels_size(cms) == sels_size(sel_models(ss@)),
            acc@ == old(acc)@ + used_vars_sels(cms.take(i as int)),
        decreases ss@.len() - i,
    {
        proof {
            lemma_sel_models_index(ss@);
            lemma_sels_size_index(cms);
            assert(cms[i as int] == sel_model(ss@[i as int]));
            assert(sel_size(sel_model(ss@[i as int])) <= sels_size(cms));
        }
        vars_of_sel(&ss[i], acc);
        proof {
            lemma_used_vars_sels_take(cms, i as int);
            assert(old(acc)@ + (used_vars_sels(cms.take(i as int)) + used_vars_sel(
                cms[i as int],
            )) =~= old(acc)@ + used_vars_sels(cms.take(i + 1)));
        }
        i = i + 1;
    }
    proof {
        assert(cms.take(cms.len() as int) =~= cms);
    }
}

/// Whether the list holds the value.
fn list_contains(xs: &Vec<usize>, x: usize) -> (r: bool)
    ensures
        r == xs@.contains(x),
{
    let mut i: usize = 0;
    while i < xs.len()
        invariant
            i <= xs@.len(),
            forall|t: int| 0 <= t < i ==> xs@[t] != x,
        decreases xs@.len() - i,
    {
        if xs[i] == x {
            return true;
        }
        i = i + 1;
    }
    false
}

/// Whether every variable the subtree refers to is declared.
fn check_covered(used: &Vec<usize>, decls: &Vec<usize>) -> (r: bool)
    ensures
        r == vars_covered(used@, decls@),
{
    let mut i: usize = 0;
    while i < used.len()
        invariant
            i <= used@.len(),
            forall|t: int| 0 <= t < i ==> decls@.contains(#[trigger] used@[t]),
        decreases used@.len() - i,
    {
        if !list_contains(decls, used[i]) {
            return false;
        }
        i = i + 1;
    }
    true
}

/// The declared variables the subtree refers to, in declaration order.
fn select_vars(decls: &Vec<usize>, used: &Vec<usize>) -> (r: Vec<usize>)
    ensures
        r@ == selected_vars(decls@, used@),
{
    let mut out: Vec<usize> = Vec::new();
    proof {
        assert(decls@.skip(0) =~= decls@);
        assert(Seq::<usize>::empty() + selected_vars(decls@, used@) =~= selected_vars(
            decls@,
            used@,
        ));
    }
    let mut i: usize = 0;
    while i < decls.len()
        invariant
            i <= decls@.len(),
            selected_vars(decls@, used@) == out@ + selected_vars(decls@.skip(i as int), used@),
        decreases decls@.len() - i,
    {
        proof {
            let rest = decls@.skip(i as int);
            assert(rest[0] == decls@[i as int]);
            assert(rest.drop_first() =~= decls@.skip(i + 1));
        }
        let ghost old_out = out@;
        if list_contains(used, decls[i]) {
            out.push(decls[i]);
            proof {
                assert(old_out + (seq![decls@[i as int]] + selected_vars(
                    decls@.skip(i + 1),
                    used@,
                )) =~= out@ + selected_vars(decls@.skip(i + 1), used@));
            }
        }
        i = i + 1;
    }
    proof {
        assert(decls@.skip(decls@.len() as int) =~= Seq::<usize>::empty());
        assert(out@ + Seq::<usize>::empty() =~= out@);
    }
    out
}

/// Classification leaves every schema reference resolvable: the attached
/// metadata's target comes straight from the field's definition.
pub proof fn lemma_classify_wf(
    schema: Schema,
    cfg: TransformConfig,
    m: SelectionModel,
    depth: usize,
    next: usize,
)
    requires
        wf_sel(schema, m),
    ensures
        wf_sel(schema, classify_m(schema, cfg, m, depth, next).0),
    decreases m,
{
    match m {
        SelectionModel::FieldV { field_id, arguments, selections, .. } => {
            let meta = classify_field(schema, cfg, field_id, arguments, depth, next);
            let next1: usize = if meta is Some {
                (next + 1) as usize
            } else {
                next
            };
            let child_depth: usize = if meta matches Some(mm) && mm.kind
                == ClientEdgeKind::ToServer {
                (depth + 1) as usize
            } else {
                depth
            };
            lemma_classify_wf_ms(schema, cfg, selections, child_depth, next1);
        },
        SelectionModel::InlineV { selections, .. } => {
            lemma_classify_wf_ms(schema, cfg, selections, depth, next);
        },
        SelectionModel::SpreadV { .. } => {},
    }
}

pub proof fn lemma_classify_wf_ms(
    schema: Schema,
    cfg: TransformConfig,
    ms: Seq<SelectionModel>,
    depth: usize,
    next: usize,
)
    requires
        wf_sels(schema, ms),
    ensures
        wf_sels(schema, classify_ms(schema, cfg, ms, depth, next).0),
    decreases ms,
{
    if ms.len() > 0 {
        lemma_classify_wf(schema, cfg, ms[0], depth, next);
        let c = classify_m(schema, cfg, ms[0], depth, next).0;
        let next1 = classify_m(schema, cfg, ms[0], depth, next).1;
        lemma_classify_wf_ms(schema, cfg, ms.drop_first(), depth, next1);
        let cs = classify_ms(schema, cfg, ms.drop_first(), depth, next1).0;
        assert((seq![c] + cs)[0] == c);
        assert((seq![c] + cs).drop_first() =~= cs);
    }
}

/// Rewrites one classified node: descendants first, then its own
/// placeholder decision.
pub fn rewrite_sel(
    schema: &Schema,
    s: Selection,
    decls: &Vec<usize>,
    nearest: Option<usize>,
) -> (r: (Selection, Vec<SyntheticQuery>, Vec<Diagnostic>))
    requires
        wf_sel(*schema, sel_model(s)),
    ensures
        sel_model(r.0) == rewrite_m(*schema, sel_model(s), decls@, nearest).0,
        crate::ir::query_models(r.1@) == rewrite_m(*schema, sel_model(s), decls@, nearest).1,
        r.2@ == rewrite_m(*schema, sel_model(s), decls@, nearest).2,
    decreases sel_size(sel_model(s)), 0nat,
{
    match s {
        Selection::Field(f) => {
            let crate::ir::FieldNode {
                field_id,
                arguments,
                directives,
                selections,
                module,
                client_edge,
            } = f;
            match client_edge {
                Some(meta) => {
                    let is_to_server = matches!(meta.kind, ClientEdgeKind::ToServer);
                    let td = schema.types[meta.target_type];
                    let ok = !(!td.on_server && td.is_abstract && !td.has_server_branch)
                        && !scan_nullability(&directives) && (nearest.is_none()
                        || meta.acknowledged);
                    let child_nearest: Option<usize> = if is_to_server {
                        Some(meta.edge_id)
                    } else {
                        nearest
                    };
                    let (cs, mut qs, mut ds) = rewrite_sels(
                        schema,
                        selections,
                        decls,
                        child_nearest,
                    );
                    if is_to_server && ok {
                        let mut used: Vec<usize> = Vec::new();
                        vars_of_sels_in(&cs, &mut used);
                        proof {
                            assert(Seq::<usize>::empty() + used_vars_sels(sel_models(cs@))
                                =~= used_vars_sels(sel_models(cs@)));
                        }
                        if check_covered(&used, decls) {
                            let variables = select_vars(decls, &used);
                            let q = SyntheticQuery { edge_id: meta.edge_id, variables, selections: cs };
                            proof {
                                crate::ir::lemma_query_models_push(qs@, q);
                            }
                            qs.push(q);
                            let node = Selection::Field(
                                crate::ir::FieldNode {
                                    field_id,
                                    arguments: Vec::new(),
                                    directives: Vec::new(),
                                    selections: Vec::new(),
                                    module,
                                    client_edge: Some(meta),
                                },
                            );
                            proof {
                                assert(arg_models(Seq::<Argument>::empty())
                                    =~= Seq::<ArgumentModel>::empty());
                                assert(sel_models(Seq::<Selection>::empty())
                                    =~= Seq::<SelectionModel>::empty());
                                assert(sel_model(node) == placeholder(field_id, module, meta));
                            }
                            (node, qs, ds)
                        } else {
                            ds.push(
                                Diagnostic {
                                    kind: DiagnosticKind::MalformedSyntheticQuery,
                                    edge_id: meta.edge_id,
                                    ancestor: None,
                                },
                            );
                            proof {
                                assert(rewrite_m(*schema, sel_model(s), decls@, nearest).2
                                    =~= ds@);
                            }
                            (
                                Selection::Field(
                                    crate::ir::FieldNode {
                                        field_id,
                                        arguments,
                                        directives,
                                        selections: cs,
                                        module,
                                        client_edge: Some(meta),
                                    },
                                ),
                                qs,
                                ds,
                            )
                        }
                    } else {
                        (
                            Selection::Field(
                                crate::ir::FieldNode {
                                    field_id,
                                    arguments,
                                    directives,
                                    selections: cs,
                                    module,
                                    client_edge: Some(meta),
                                },
                            ),
                            qs,
                            ds,
                        )
                    }
                },
                None => {
                    let (cs, qs, ds) = rewrite_sels(schema, selections, decls, nearest);
                    (
                        Selection::Field(
                            crate::ir::FieldNode {
                                field_id,
                                arguments,
                                directives,
                                selections: cs,
                                module,
                                client_edge: None,
                            },
                        ),
                        qs,
                        ds,
                    )
                },
            }
        },
        Selection::InlineFragment(inl) => {
            let crate::ir::InlineFragmentNode { type_condition, directives, selections } = inl;
            let (cs, qs, ds) = rewrite_sels(schema, selections, decls, nearest);
            (
                Selection::InlineFragment(
                    crate::ir::InlineFragmentNode { type_condition, directives, selections: cs },
                ),
                qs,
                ds,
            )
        },
        Selection::FragmentSpread(sp) => (Selection::FragmentSpread(sp), Vec::new(), Vec::new()),
    }
}

/// Rewrites a whole classified selection list, collecting the synthetic
/// queries and defect diagnostics of every node.
pub fn rewrite_sels(
    schema: &Schema,
    ss: Vec<Selection>,
    decls: &Vec<usize>,
    nearest: Option<usize>,
) -> (r: (Vec<Selection>, Vec<SyntheticQuery>, Vec<Diagnostic>))
    requires
        wf_sels(*schema, sel_models(ss@)),
    ensures
        sel_models(r.0@) == rewrite_ms(*schema, sel_models(ss@), decls@, nearest).0,
        crate::ir::query_models(r.1@) == rewrite_ms(*schema, sel_models(ss@), decls@, nearest).1,
        r.2@ == rewrite_ms(*schema, sel_models(ss@), decls@, nearest).2,
    decreases sels_size(sel_models(ss@)), 1nat,
{
    let ghost cms = sel_models(ss@);
    let mut rest = ss;
    let mut out: Vec<Selection> = Vec::new();
    let mut qacc: Vec<SyntheticQuery> = Vec::new();
    let mut dacc: Vec<Diagnostic> = Vec::new();
    proof {
        assert(sel_models(out@) =~= Seq::<SelectionModel>::empty());
        assert(crate::ir::query_models(qacc@) =~= Seq::<QueryModel>::empty());
        assert(Seq::<SelectionModel>::empty() + rewrite_ms(*schema, cms, decls@, nearest).0
            =~= rewrite_ms(*schema, cms, decls@, nearest).0);
        assert(Seq::<QueryModel>::empty() + rewrite_ms(*schema, cms, decls@, nearest).1
            =~= rewrite_ms(*schema, cms, decls@, nearest).1);
        assert(Seq::<Diagnostic>::empty() + rewrite_ms(*schema, cms, decls@, nearest).2
            =~= rewrite_ms(*schema, cms, decls@, nearest).2);
    }
    loop
        invariant
            cms == sel_models(ss@),
            wf_sels(*schema, sel_models(rest@)),
            rewrite_ms(*schema, cms, decls@, nearest).0 == sel_models(out@) + rewrite_ms(
                *schema,
                sel_models(rest@),
                decls@,
                nearest,
            ).0,
            rewrite_ms(*schema, cms, decls@, nearest).1 == crate::ir::query_models(qacc@)
                + rewrite_ms(*schema, sel_models(rest@), decls@, nearest).1,
            rewrite_ms(*schema, cms, decls@, nearest).2 == dacc@ + rewrite_ms(
                *schema,
                sel_models(rest@),
                decls@,
                nearest,
            ).2,
            sels_size(sel_models(rest@)) <= sels_size(cms),
        ensures
            rest@.len() == 0,
            rewrite_ms(*schema, cms, decls@, nearest).0 == sel_models(out@) + rewrite_ms(
                *schema,
                sel_models(rest@),
                decls@,
                nearest,
            ).0,
            rewrite_ms(*schema, cms, decls@, nearest).1 == crate::ir::query_models(qacc@)
                + rewrite_ms(*schema, sel_models(rest@), decls@, nearest).1,
            rewrite_ms(*schema, cms, decls@, nearest).2 == dacc@ + rewrite_ms(
                *schema,
                sel_models(rest@),
                decls@,
                nearest,
            ).2,
        decreases rest@.len(),
    {
        if rest.len() == 0 {
            break ;
        }
        let ghost old_rest = sel_models(rest@);
        let ghost prev = rest@;
        let c = rest.remove(0);
        proof {
            assert(prev.remove(0) =~= prev.drop_first());
            assert(old_rest[0] == sel_model(c));
            assert(old_rest.drop_first() =~= sel_models(rest@));
            lemma_sels_size_index(old_rest);
        }
        let ghost rms = sel_models(rest@);
        let ghost prev_out = sel_models(out@);
        let ghost prev_q = crate::ir::query_models(qacc@);
        let ghost prev_d = dacc@;
        let (c2, q2, d2) = rewrite_sel(schema, c, decls, nearest);
        proof {
            lemma_sel_models_push(out@, c2);
            crate::ir::lemma_query_models_concat(qacc@, q2@);
        }
        out.push(c2);
        let mut q2m = q2;
        qacc.append(&mut q2m);
        let mut d2m = d2;
        dacc.append(&mut d2m);
        proof {
            let step = rewrite_m(*schema, old_rest[0], decls@, nearest);
            let tail = rewrite_ms(*schema, rms, decls@, nearest);
            assert(rewrite_ms(*schema, old_rest, decls@, nearest).0 == seq![step.0] + tail.0);
            assert(rewrite_ms(*schema, old_rest, decls@, nearest).1 == step.1 + tail.1);
            assert(rewrite_ms(*schema, old_rest, decls@, nearest).2 == step.2 + tail.2);
            assert(prev_out + (seq![step.0] + tail.0) =~= prev_out.push(step.0) + tail.0);
            assert(prev_q + (step.1 + tail.1) =~= (prev_q + step.1) + tail.1);
            assert(prev_d + (step.2 + tail.2) =~= (prev_d + step.2) + tail.2);
        }
    }
    proof {
        assert(sel_models(rest@) =~= Seq::<SelectionModel>::empty());
        assert(sel_models(out@) + Seq::<SelectionModel>::empty() =~= sel_models(out@));
        assert(crate::ir::query_models(qacc@) + Seq::<QueryModel>::empty()
            =~= crate::ir::query_models(qacc@));
        assert(dacc@ + Seq::<Diagnostic>::empty() =~= dacc@);
    }
    (out, qacc, dacc)
}

/// What one document's transform hands back: the residual document, the
/// synthetic resolution queries split out of it, and every violation found.
/// A document with any diagnostic is non-compilable.
pub struct TransformResult {
    pub residual: crate::ir::Operation,
    pub queries: Vec<SyntheticQuery>,
    pub diagnostics: Vec<Diagnostic>,
    pub compilable: bool,
}

/// Transforms one document: classifies client edges, validates waterfalls
/// and type compatibility, then splits every validated to-server edge into
/// a placeholder plus a synthetic resolution query.
pub fn transform_document(
    schema: &Schema,
    cfg: TransformConfig,
    op: crate::ir::Operation,
) -> (r: TransformResult)
    requires
        wf_sels(*schema, sel_models(op.selections@)),
        sels_size(sel_models(op.selections@)) <= usize::MAX,
    ensures
        sel_models(r.residual.selections@) == transform_doc(
            *schema,
            cfg,
            op.variables@,
            sel_models(op.selections@),
        ).0,
        r.residual.variables@ == op.variables@,
        crate::ir::query_models(r.queries@) == transform_doc(
            *schema,
            cfg,
            op.variables@,
            sel_models(op.selections@),
        ).1,
        r.diagnostics@ == transform_doc(*schema, cfg, op.variables@, sel_models(op.selections@)).2,
        r.compilable == (r.diagnostics@.len() == 0),
{
    let crate::ir::Operation { variables, selections } = op;
    let ghost ms = sel_models(selections@);
    let (cs, _next) = classify_sels(schema, cfg, selections, 0, 0);
    proof {
        lemma_classify_wf_ms(*schema, cfg, ms, 0, 0);
    }
    let wd = waterfall_sels(&cs, None);
    let td = typecheck_sels(schema, &cs);
    let (rs, qs, md) = rewrite_sels(schema, cs, &variables, None);
    let mut diagnostics = wd;
    let mut tdm = td;
    diagnostics.append(&mut tdm);
    let mut mdm = md;
    diagnostics.append(&mut mdm);
    let compilable = diagnostics.len() == 0;
    proof {
        assert(diagnostics@ =~= transform_doc(*schema, cfg, variables@, ms).2);
    }
    TransformResult {
        residual: crate::ir::Operation { variables, selections: rs },
        queries: qs,
        diagnostics,
        compilable,
    }
}

} // verus!
