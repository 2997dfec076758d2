use vstd::prelude::*;

verus! {

/// The two kinds of client edge: one resolved wholly from client-side data,
/// one that needs a further server query.
#[derive(Clone, Copy, PartialEq, Eq, Structural, Debug)]
pub enum ClientEdgeKind {
    ToClientObject,
    ToServer,
}

/// What classification attaches to a field once it is recognised as a
/// client edge.
#[derive(Clone, Copy, PartialEq, Eq, Structural, Debug)]
pub struct ClientEdgeMetadata {
    /// Unique within the document; synthetic query names derive from it.
    pub edge_id: usize,
    /// The type the edge resolves to.
    pub target_type: usize,
    pub kind: ClientEdgeKind,
    /// How many to-server edges stand strictly above this one.
    pub depth: usize,
    /// Whether the field carries the explicit waterfall acknowledgment.
    pub acknowledged: bool,
}

/// An argument value: a literal, a variable reference, or a list of values.
#[derive(PartialEq, Eq, Debug)]
pub enum ArgumentValue {
    Constant(usize),
    Variable(usize),
    List(Vec<ArgumentValue>),
}

/// A named argument on a field.
#[derive(PartialEq, Eq, Debug)]
pub struct Argument {
    pub name: usize,
    pub value: ArgumentValue,
}

/// A directive on a selection. Whether it enforces nullability is what the
/// client-edge validation reads.
#[derive(Clone, Copy, PartialEq, Eq, Structural, Debug)]
pub struct Directive {
    pub name: usize,
    pub enforces_nullability: bool,
}

/// A node of the selection tree.
#[derive(PartialEq, Eq, Debug)]
pub enum Selection {
    Field(FieldNode),
    InlineFragment(InlineFragmentNode),
    FragmentSpread(FragmentSpreadNode),
}

#[derive(PartialEq, Eq, Debug)]
pub struct FieldNode {
    /// Index of the field's schema definition.
    pub field_id: usize,
    pub arguments: Vec<Argument>,
    pub directives: Vec<Directive>,
    pub selections: Vec<Selection>,
    /// The lazily-loaded module declared on the field, if any.
    pub module: Option<usize>,
    /// Set once, by classification; no other node carries metadata.
    pub client_edge: Option<ClientEdgeMetadata>,
}

#[derive(PartialEq, Eq, Debug)]
pub struct InlineFragmentNode {
    pub type_condition: Option<usize>,
    pub directives: Vec<Directive>,
    pub selections: Vec<Selection>,
}

#[derive(PartialEq, Eq, Debug)]
pub struct FragmentSpreadNode {
    /// Index of the fragment definition spread here.
    pub fragment: usize,
    pub directives: Vec<Directive>,
}

/// What the schema declares of a field: whether a client-side resolver
/// answers it, and the type it resolves to.
#[derive(Clone, Copy, PartialEq, Eq, Structural, Debug)]
pub struct FieldDef {
    pub client_resolved: bool,
    pub target_type: usize,
}

/// What the schema declares of a type.
#[derive(Clone, Copy, PartialEq, Eq, Structural, Debug)]
pub struct TypeDef {
    /// Whether the type exists on the server schema at all.
    pub on_server: bool,
    /// Whether the type is an interface or union.
    pub is_abstract: bool,
    /// Whether any of its possible concrete types is server-resolvable.
    pub has_server_branch: bool,
}

/// The read-only schema lookup the transform runs against.
#[derive(PartialEq, Eq, Debug)]
pub struct Schema {
    pub fields: Vec<FieldDef>,
    pub types: Vec<TypeDef>,
}

/// An operation: its declared variables and its selection tree.
#[derive(PartialEq, Eq, Debug)]
pub struct Operation {
    pub variables: Vec<usize>,
    pub selections: Vec<Selection>,
}

/// A query split out of a to-server edge, compilable on its own.
#[derive(PartialEq, Eq, Debug)]
pub struct SyntheticQuery {
    /// The edge the query was split from; its name derives from this.
    pub edge_id: usize,
    /// The enclosing operation's variables the copied subtree refers to.
    pub variables: Vec<usize>,
    pub selections: Vec<Selection>,
}

#[derive(Clone, Copy, PartialEq, Eq, Structural, Debug)]
pub enum DiagnosticKind {
    UnexpectedWaterfall,
    TargetTypeUnresolvable,
    IncompatibleDirective,
    MalformedSyntheticQuery,
}

/// One reported violation: its kind, the edge it is about, and, for a
/// waterfall, the nearest enclosing to-server edge.
#[derive(Clone, Copy, PartialEq, Eq, Structural, Debug)]
pub struct Diagnostic {
    pub kind: DiagnosticKind,
    pub edge_id: usize,
    pub ancestor: Option<usize>,
}

/// Mathematical shape of an argument value.
pub enum ValueModel {
    ConstantV { tag: usize },
    VariableV { var: usize },
    ListV { items: Seq<ValueModel> },
}

/// Mathematical shape of an argument.
pub struct ArgumentModel {
    pub name: usize,
    pub value: ValueModel,
}

/// Mathematical shape of a selection tree node.
pub enum SelectionModel {
    FieldV {
        field_id: usize,
        arguments: Seq<ArgumentModel>,
        directives: Seq<Directive>,
        selections: Seq<SelectionModel>,
        module: Option<usize>,
        client_edge: Option<ClientEdgeMetadata>,
    },
    InlineV { type_condition: Option<usize>, directives: Seq<Directive>, selections: Seq<SelectionModel> },
    SpreadV { fragment: usize, directives: Seq<Directive> },
}

/// Mathematical shape of a synthetic query.
pub struct QueryModel {
    pub edge_id: usize,
    pub variables: Seq<usize>,
    pub selections: Seq<SelectionModel>,
}

pub open spec fn val_model(v: ArgumentValue) -> ValueModel
    decreases v,
{
    match v {
        ArgumentValue::Constant(t) => ValueModel::ConstantV { tag: t },
        ArgumentValue::Variable(x) => ValueModel::VariableV { var: x },
        ArgumentValue::List(items) => ValueModel::ListV { items: val_models(items@) },
    }
}

pub open spec fn val_models(vs: Seq<ArgumentValue>) -> Seq<ValueModel>
    decreases vs,
{
    if vs.len() == 0 {
        Seq::<ValueModel>::empty()
    } else {
        seq![val_model(vs[0])] + val_models(vs.drop_first())
    }
}

pub open spec fn arg_model(a: Argument) -> ArgumentModel {
    ArgumentModel { name: a.name, value: val_model(a.value) }
}

pub open spec fn arg_models(args: Seq<Argument>) -> Seq<ArgumentModel>
    decreases args,
{
    if args.len() == 0 {
        Seq::<ArgumentModel>::empty()
    } else {
        seq![arg_model(args[0])] + arg_models(args.drop_first())
    }
}

pub open spec fn sel_model(s: Selection) -> SelectionModel
    decreases s,
{
    match s {
        Selection::Field(f) => SelectionModel::FieldV {
            field_id: f.field_id,
            arguments: arg_models(f.arguments@),
            directives: f.directives@,
            selections: sel_models(f.selections@),
            module: f.module,
            client_edge: f.client_edge,
        },
        Selection::InlineFragment(i) => SelectionModel::InlineV {
            type_condition: i.type_condition,
            directives: i.directives@,
            selections: sel_models(i.selections@),
        },
        Selection::FragmentSpread(sp) => SelectionModel::SpreadV {
            fragment: sp.fragment,
            directives: sp.directives@,
        },
    }
}

pub open spec fn sel_models(ss: Seq<Selection>) -> Seq<SelectionModel>
    decreases ss,
{
    if ss.len() == 0 {
        Seq::<SelectionModel>::empty()
    } else {
        seq![sel_model(ss[0])] + sel_models(ss.drop_first())
    }
}

impl View for ArgumentValue {
    type V = ValueModel;

    open spec fn view(&self) -> ValueModel {
        val_model(*self)
    }
}

impl View for Argument {
    type V = ArgumentModel;

    open spec fn view(&self) -> ArgumentModel {
        arg_model(*self)
    }
}

impl View for Selection {
    type V = SelectionModel;

    open spec fn view(&self) -> SelectionModel {
        sel_model(*self)
    }
}

impl View for SyntheticQuery {
    type V = QueryModel;

    open spec fn view(&self) -> QueryModel {
        QueryModel {
            edge_id: self.edge_id,
            variables: self.variables@,
            selections: sel_models(self.selections@),
        }
    }
}

pub open spec fn query_models(qs: Seq<SyntheticQuery>) -> Seq<QueryModel>
    decreases qs,
{
    if qs.len() == 0 {
        Seq::<QueryModel>::empty()
    } else {
        seq![qs[0]@] + query_models(qs.drop_first())
    }
}

/// Query models distribute over concatenation.
pub proof fn lemma_query_models_concat(a: Seq<SyntheticQuery>, b: Seq<SyntheticQuery>)
    ensures
        query_models(a + b) == query_models(a) + query_models(b),
    decreases a.len(),
{
    if a.len() == 0 {
        assert(a + b =~= b);
        assert(query_models(a) =~= Seq::<QueryModel>::empty());
        assert(query_models(a) + query_models(b) =~= query_models(b));
    } else {
        assert((a + b).drop_first() =~= a.drop_first() + b);
        assert((a + b)[0] == a[0]);
        lemma_query_models_concat(a.drop_first(), b);
        assert(query_models(a + b) =~= query_models(a) + query_models(b));
    }
}

/// Appending a query appends its model.
pub proof fn lemma_query_models_push(qs: Seq<SyntheticQuery>, x: SyntheticQuery)
    ensures
        query_models(qs.push(x)) == query_models(qs).push(x@),
{
    assert(qs.push(x) =~= qs + seq![x]);
    lemma_query_models_concat(qs, seq![x]);
    assert(seq![x].drop_first() =~= Seq::<SyntheticQuery>::empty());
    assert(query_models(Seq::<SyntheticQuery>::empty()) =~= Seq::<QueryModel>::empty());
    assert(seq![x@] + Seq::<QueryModel>::empty() =~= seq![x@]);
    assert(query_models(seq![x]) =~= seq![x@]);
    assert(query_models(qs) + seq![x@] =~= query_models(qs).push(x@));
}

/// Appending a selection appends its model.
pub proof fn lemma_sel_models_push(ss: Seq<Selection>, x: Selection)
    ensures
        sel_models(ss.push(x)) == sel_models(ss).push(sel_model(x)),
    decreases ss.len(),
{
    if ss.len() == 0 {
        assert(ss.push(x)[0] == x);
        assert(ss.push(x).drop_first() =~= Seq::<Selection>::empty());
        assert(sel_models(Seq::<Selection>::empty()) =~= Seq::<SelectionModel>::empty());
        assert(sel_models(ss.push(x)) == seq![sel_model(x)] + sel_models(ss.push(x).drop_first()));
        assert(seq![sel_model(x)] + Seq::<SelectionModel>::empty() =~= sel_models(ss).push(sel_model(x)));
        assert(sel_models(ss.push(x)) =~= sel_models(ss).push(sel_model(x)));
    } else {
        assert(ss.push(x).drop_first() =~= ss.drop_first().push(x));
        lemma_sel_models_push(ss.drop_first(), x);
        assert(ss.push(x)[0] == ss[0]);
        assert(sel_models(ss.push(x)) =~= sel_models(ss).push(sel_model(x)));
    }
}

} // verus!
