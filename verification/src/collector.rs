use vstd::prelude::*;
use vstd::string::StringExecFns;
use indexmap::IndexMap;
use fnv::FnvBuildHasher;
use crate::statements::TopLevelStatement;
use crate::statements::StatementModel;
use crate::statements::stmt_leq;
use crate::statements::texts_concat;
use crate::statements::views_of;
use crate::statements::sort_statements;
use crate::statements::stmt_render;
use crate::statements::lemma_stmt_le_total_ordering;
use crate::statements::lemma_texts_concat_push;

verus! {

#[verifier::external_type_specification]
#[verifier::external_body]
pub struct ExFnvHasher(fnv::FnvHasher);

#[verifier::external_type_specification]
#[verifier::external_body]
#[verifier::reject_recursive_types(H)]
pub struct ExBuildHasherDefault<H>(core::hash::BuildHasherDefault<H>);

#[verifier::external_type_specification]
#[verifier::external_body]
#[verifier::reject_recursive_types(K)]
#[verifier::reject_recursive_types(V)]
#[verifier::reject_recursive_types(S)]
pub struct ExIndexMap<K, V, S>(IndexMap<K, V, S>);

/// What a statement map holds: its entries as (symbol, statement model)
/// pairs, in the map's own order.
pub uninterp spec fn stmt_entries(
    m: IndexMap<String, TopLevelStatement, FnvBuildHasher>,
) -> Seq<(Seq<char>, StatementModel)>;

/// The statements of an entry sequence, keeping order and multiplicity.
pub open spec fn entry_vals(es: Seq<(Seq<char>, StatementModel)>) -> Seq<StatementModel> {
    es.map_values(|e: (Seq<char>, StatementModel)| e.1)
}

/// Whether an entry sequence binds a symbol.
pub open spec fn has_key(es: Seq<(Seq<char>, StatementModel)>, k: Seq<char>) -> bool {
    exists|i: int| 0 <= i < es.len() && es[i].0 == k
}

/// The effect of inserting under a symbol: an already bound symbol keeps its
/// place and has its statement replaced; a fresh symbol is appended last.
pub open spec fn entry_insert(
    es: Seq<(Seq<char>, StatementModel)>,
    k: Seq<char>,
    v: StatementModel,
) -> Seq<(Seq<char>, StatementModel)>
    decreases es.len(),
{
    if es.len() == 0 {
        seq![(k, v)]
    } else if es[0].0 == k {
        seq![(k, v)] + es.drop_first()
    } else {
        seq![es[0]] + entry_insert(es.drop_first(), k, v)
    }
}

/// Relies on `IndexMap::default`: a newly created map is empty.
#[verifier::external_body]
pub(crate) fn stmt_map_new() -> (m: IndexMap<String, TopLevelStatement, FnvBuildHasher>)
    ensures
        stmt_entries(m) == Seq::<(Seq<char>, StatementModel)>::empty(),
{
    IndexMap::default()
}

/// Relies on `IndexMap::insert`: an existing key remains in its place with
/// its value updated; a new key-value pair is inserted last in order.
#[verifier::external_body]
pub(crate) fn stmt_map_insert(
    m: &mut IndexMap<String, TopLevelStatement, FnvBuildHasher>,
    k: String,
    v: TopLevelStatement,
)
    ensures
        stmt_entries(*final(m)) == entry_insert(stmt_entries(*old(m)), k@, v@),
{
    m.insert(k, v);
}

/// Relies on `IndexMap::contains_key`: whether an equivalent key is held.
#[verifier::external_body]
pub(crate) fn stmt_map_contains(
    m: &IndexMap<String, TopLevelStatement, FnvBuildHasher>,
    k: &str,
) -> (r: bool)
    ensures
        r == has_key(stmt_entries(*m), k@),
{
    m.contains_key(k)
}

/// Relies on `IndexMap::is_empty`: whether the map holds no entries.
#[verifier::external_body]
pub(crate) fn stmt_map_is_empty(m: &IndexMap<String, TopLevelStatement, FnvBuildHasher>) -> (r:
    bool)
    ensures
        r == (stmt_entries(*m).len() == 0),
{
    m.is_empty()
}

/// Relies on `IndexMap::values`: the values come out in the map's order; a
/// cloned statement keeps the texts it holds.
#[verifier::external_body]
pub(crate) fn stmt_map_values(m: &IndexMap<String, TopLevelStatement, FnvBuildHasher>) -> (r: Vec<
    TopLevelStatement,
>)
    ensures
        r@.map_values(|s: TopLevelStatement| s@) == entry_vals(stmt_entries(*m)),
{
    m.values().map(|v| v.clone()).collect()
}

/// Relies on `IndexMap::clone`: the copy holds the same entries, in the
/// same order.
#[verifier::external_body]
pub(crate) fn stmt_map_clone(m: &IndexMap<String, TopLevelStatement, FnvBuildHasher>) -> (r:
    IndexMap<String, TopLevelStatement, FnvBuildHasher>)
    ensures
        stmt_entries(r) == stmt_entries(*m),
{
    m.clone()
}

/// The statements of an entry sequence, arranged in the render order.
pub open spec fn sorted_stmts(es: Seq<(Seq<char>, StatementModel)>) -> Seq<StatementModel> {
    entry_vals(es).sort_by(stmt_leq())
}

/// The full rendered text of an entry sequence: each statement's text, in
/// the render order.
pub open spec fn render_text(es: Seq<(Seq<char>, StatementModel)>) -> Seq<char> {
    texts_concat(sorted_stmts(es))
}

/// The registry of top-level statements an artifact emits: at most one
/// statement per bound symbol, rendered in an order of its own, independent
/// of how the statements were registered.
pub struct TopLevelStatements(IndexMap<String, TopLevelStatement, FnvBuildHasher>);

impl View for TopLevelStatements {
    type V = Seq<(Seq<char>, StatementModel)>;

    closed spec fn view(&self) -> Seq<(Seq<char>, StatementModel)> {
        stmt_entries(self.0)
    }
}

impl Clone for TopLevelStatements {
    fn clone(&self) -> (r: Self)
        ensures
            r@ == self@,
    {
        TopLevelStatements(stmt_map_clone(&self.0))
    }
}

impl Default for TopLevelStatements {
    fn default() -> (r: Self)
        ensures
            r@ == Seq::<(Seq<char>, StatementModel)>::empty(),
    {
        TopLevelStatements(stmt_map_new())
    }
}

impl TopLevelStatements {
    /// An empty registry.
    pub fn new() -> (r: Self)
        ensures
            r@ == Seq::<(Seq<char>, StatementModel)>::empty(),
    {
        TopLevelStatements(stmt_map_new())
    }

    /// Registers a statement under a symbol. A symbol already bound keeps
    /// its place and has its statement replaced; a fresh symbol comes last.
    pub fn insert(&mut self, symbol: String, import_statement: TopLevelStatement)
        ensures
            final(self)@ == entry_insert(old(self)@, symbol@, import_statement@),
    {
        stmt_map_insert(&mut self.0, symbol, import_statement);
    }

    /// Whether a statement is registered under the symbol.
    pub fn contains(&self, symbol: &str) -> (r: bool)
        ensures
            r == has_key(self@, symbol@),
    {
        stmt_map_contains(&self.0, symbol)
    }

    /// Whether nothing has been registered.
    pub fn is_empty(&self) -> (r: bool)
        ensures
            r == (self@.len() == 0),
    {
        stmt_map_is_empty(&self.0)
    }

    /// Renders every registered statement, one line each, sorted by the
    /// statement order -- never by registration order.
    pub fn render(&self) -> (r: String)
        ensures
            r@ == render_text(self@),
    {
        let vals = stmt_map_values(&self.0);
        proof {
            lemma_stmt_le_total_ordering();
        }
        let sorted = sort_statements(vals);
        proof {
            entry_vals(self@).lemma_sort_by_ensures(stmt_leq());
            vstd::seq_lib::lemma_sorted_unique(
                views_of(sorted@),
                entry_vals(self@).sort_by(stmt_leq()),
                stmt_leq(),
            );
            assert(views_of(sorted@) == sorted_stmts(self@));
        }
        let mut out = String::new();
        let mut i: usize = 0;
        while i < sorted.len()
            invariant
                i <= sorted@.len(),
                views_of(sorted@) == sorted_stmts(self@),
                out@ == texts_concat(views_of(sorted@).take(i as int)),
            decreases sorted@.len() - i,
        {
            let line = stmt_render(&sorted[i]);
            out.append(line.as_str());
            proof {
                assert(views_of(sorted@)[i as int] == sorted@[i as int]@);
                assert(views_of(sorted@).take(i as int).push(views_of(sorted@)[i as int]) =~=
                    views_of(sorted@).take(i + 1));
                lemma_texts_concat_push(
                    views_of(sorted@).take(i as int),
                    views_of(sorted@)[i as int],
                );
            }
            i = i + 1;
        }
        proof {
            assert(views_of(sorted@).take(sorted@.len() as int) =~= views_of(sorted@));
        }
        out
    }
}

/// Entry sequences holding the same entries hold the same statements.
proof fn lemma_entry_vals_multiset(
    a: Seq<(Seq<char>, StatementModel)>,
    b: Seq<(Seq<char>, StatementModel)>,
)
    requires
        a.to_multiset() == b.to_multiset(),
    ensures
        entry_vals(a).to_multiset() == entry_vals(b).to_multiset(),
    decreases a.len(),
{
    broadcast use vstd::seq_lib::group_to_multiset_ensures;
    broadcast use vstd::multiset::group_multiset_axioms;

    if a.len() == 0 {
        assert(a.to_multiset().len() == a.len());
        assert(b.to_multiset().len() == b.len());
        assert(b.len() == 0);
        assert(entry_vals(a) =~= entry_vals(b));
    } else {
        let x = a[0];
        assert(a.contains(x));
        assert(b.to_multiset().count(x) > 0);
        assert(b.contains(x));
        let j = choose|j: int| 0 <= j < b.len() && b[j] == x;
        assert(a.remove(0).to_multiset() == a.to_multiset().remove(x));
        assert(b.remove(j).to_multiset() == b.to_multiset().remove(x));
        assert(a.remove(0) =~= a.drop_first());
        lemma_entry_vals_multiset(a.remove(0), b.remove(j));
        assert(entry_vals(a.remove(0)) =~= entry_vals(a).remove(0));
        assert(entry_vals(b.remove(j)) =~= entry_vals(b).remove(j));
        assert(entry_vals(a).remove(0).to_multiset() == entry_vals(a).to_multiset().remove(
            entry_vals(a)[0],
        ));
        assert(entry_vals(b).remove(j).to_multiset() == entry_vals(b).to_multiset().remove(
            entry_vals(b)[j],
        ));
        assert(entry_vals(a)[0] == x.1);
        assert(entry_vals(b)[j] == x.1);
        assert(entry_vals(a).to_multiset().contains(x.1));
        assert(entry_vals(b).to_multiset().contains(x.1));
        assert(entry_vals(a).to_multiset() =~= entry_vals(a).to_multiset().remove(x.1).insert(
            x.1,
        ));
        assert(entry_vals(b).to_multiset() =~= entry_vals(b).to_multiset().remove(x.1).insert(
            x.1,
        ));
    }
}

/// The render order does not depend on the registration order: two
/// registries holding the same (symbol, statement) entries, in whatever
/// arrangement, render to the same text.
pub proof fn lemma_render_order_independent(
    a: Seq<(Seq<char>, StatementModel)>,
    b: Seq<(Seq<char>, StatementModel)>,
)
    requires
        a.to_multiset() == b.to_multiset(),
    ensures
        render_text(a) == render_text(b),
{
    lemma_entry_vals_multiset(a, b);
    lemma_stmt_le_total_ordering();
    entry_vals(a).lemma_sort_by_ensures(stmt_leq());
    entry_vals(b).lemma_sort_by_ensures(stmt_leq());
    vstd::seq_lib::lemma_sorted_unique(sorted_stmts(a), sorted_stmts(b), stmt_leq());
    assert(sorted_stmts(a) == sorted_stmts(b));
}

/// Registering the same statement under the same symbol twice leaves the
/// registry exactly as one registration left it.
pub proof fn lemma_insert_idempotent(
    es: Seq<(Seq<char>, StatementModel)>,
    k: Seq<char>,
    v: StatementModel,
)
    ensures
        entry_insert(entry_insert(es, k, v), k, v) == entry_insert(es, k, v),
    decreases es.len(),
{
    if es.len() == 0 {
        let once = entry_insert(es, k, v);
        assert(once[0].0 == k);
        assert(once.drop_first() =~= Seq::<(Seq<char>, StatementModel)>::empty());
        assert(entry_insert(once, k, v) =~= once);
    } else if es[0].0 == k {
        let once = entry_insert(es, k, v);
        assert(once[0].0 == k);
        assert(once.drop_first() =~= es.drop_first());
        assert(entry_insert(once, k, v) =~= once);
    } else {
        let once = entry_insert(es, k, v);
        assert(once[0] == es[0]);
        assert(once.drop_first() =~= entry_insert(es.drop_first(), k, v));
        lemma_insert_idempotent(es.drop_first(), k, v);
        assert(entry_insert(once, k, v) =~= once);
    }
}

/// A repeated identical registration does not change what is rendered.
pub proof fn lemma_render_insert_idempotent(
    es: Seq<(Seq<char>, StatementModel)>,
    k: Seq<char>,
    v: StatementModel,
)
    ensures
        render_text(entry_insert(entry_insert(es, k, v), k, v)) == render_text(
            entry_insert(es, k, v),
        ),
{
    lemma_insert_idempotent(es, k, v);
}

} // verus!
