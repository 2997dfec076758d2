use vstd::prelude::*;
use vstd::string::StringExecFns;
use crate::order::str_le;
use crate::order::str_le_exec;
use crate::order::str_eq_exec;
use crate::order::lemma_str_le_total;
use crate::order::lemma_str_le_antisymmetric;
use crate::order::lemma_str_le_transitive;

verus! {

/// One emitted top-level statement: an import line, or a variable
/// definition kept verbatim.
#[derive(Clone, PartialEq, Eq, PartialOrd, Ord)]
pub enum TopLevelStatement {
    ImportStatement { module_import_name: ModuleImportName, path: String },
    VariableDefinition(String),
}

/// How an import binds its module: as the module's default export, or as a
/// named export, optionally under an alias.
#[derive(Clone, PartialEq, Eq, PartialOrd, Ord)]
pub enum ModuleImportName {
    Default(String),
    Named { name: String, import_as: Option<String> },
}

/// Mathematical shape of a `ModuleImportName`: the bound names as character
/// sequences.
pub enum ImportNameModel {
    DefaultModel { name: Seq<char> },
    NamedModel { name: Seq<char>, import_as: Option<Seq<char>> },
}

/// Mathematical shape of a `TopLevelStatement`.
pub enum StatementModel {
    ImportModel { name: ImportNameModel, path: Seq<char> },
    VarDefModel { text: Seq<char> },
}

impl View for ModuleImportName {
    type V = ImportNameModel;

    open spec fn view(&self) -> ImportNameModel {
        match self {
            ModuleImportName::Default(n) => ImportNameModel::DefaultModel { name: n@ },
            ModuleImportName::Named { name, import_as } => ImportNameModel::NamedModel {
                name: name@,
                import_as: match import_as {
                    Some(a) => Some(a@),
                    None => None,
                },
            },
        }
    }
}

impl View for TopLevelStatement {
    type V = StatementModel;

    open spec fn view(&self) -> StatementModel {
        match self {
            TopLevelStatement::ImportStatement { module_import_name, path } => {
                StatementModel::ImportModel { name: module_import_name@, path: path@ }
            },
            TopLevelStatement::VariableDefinition(text) => {
                StatementModel::VarDefModel { text: text@ }
            },
        }
    }
}

/// Order on optional aliases: absence sorts before presence, two aliases by
/// their text.
pub open spec fn alias_le(a: Option<Seq<char>>, b: Option<Seq<char>>) -> bool {
    match a {
        None => true,
        Some(x) => match b {
            None => false,
            Some(y) => str_le(x, y),
        },
    }
}

/// Order on import names: a default import sorts before a named one; default
/// imports by the bound name; named imports by the imported name, then the
/// alias.
pub open spec fn name_le(a: ImportNameModel, b: ImportNameModel) -> bool {
    match a {
        ImportNameModel::DefaultModel { name: an } => match b {
            ImportNameModel::DefaultModel { name: bn } => str_le(an, bn),
            ImportNameModel::NamedModel { .. } => true,
        },
        ImportNameModel::NamedModel { name: an, import_as: aa } => match b {
            ImportNameModel::DefaultModel { .. } => false,
            ImportNameModel::NamedModel { name: bn, import_as: ba } => {
                if an == bn {
                    alias_le(aa, ba)
                } else {
                    str_le(an, bn)
                }
            },
        },
    }
}

/// The total order that `render` sorts by: imports before variable
/// definitions; imports by name, then path; variable definitions by text.
pub open spec fn stmt_le(a: StatementModel, b: StatementModel) -> bool {
    match a {
        StatementModel::ImportModel { name: an, path: ap } => match b {
            StatementModel::ImportModel { name: bn, path: bp } => {
                if an == bn {
                    str_le(ap, bp)
                } else {
                    name_le(an, bn)
                }
            },
            StatementModel::VarDefModel { .. } => true,
        },
        StatementModel::VarDefModel { text: at } => match b {
            StatementModel::ImportModel { .. } => false,
            StatementModel::VarDefModel { text: bt } => str_le(at, bt),
        },
    }
}

/// `stmt_le` as a closed-over relation, the shape `sort_by` takes.
pub open spec fn stmt_leq() -> spec_fn(StatementModel, StatementModel) -> bool {
    |a: StatementModel, b: StatementModel| stmt_le(a, b)
}

pub proof fn lemma_alias_le_total(a: Option<Seq<char>>, b: Option<Seq<char>>)
    ensures
        alias_le(a, b) || alias_le(b, a),
{
    if a is Some && b is Some {
        lemma_str_le_total(a->0, b->0);
    }
}

pub proof fn lemma_alias_le_antisymmetric(a: Option<Seq<char>>, b: Option<Seq<char>>)
    requires
        alias_le(a, b),
        alias_le(b, a),
    ensures
        a == b,
{
    if a is Some && b is Some {
        lemma_str_le_antisymmetric(a->0, b->0);
    }
}

pub proof fn lemma_alias_le_transitive(a: Option<Seq<char>>, b: Option<Seq<char>>, c: Option<
    Seq<char>,
>)
    requires
        alias_le(a, b),
        alias_le(b, c),
    ensures
        alias_le(a, c),
{
    if a is Some && b is Some && c is Some {
        lemma_str_le_transitive(a->0, b->0, c->0);
    }
}

pub proof fn lemma_name_le_total(a: ImportNameModel, b: ImportNameModel)
    ensures
        name_le(a, b) || name_le(b, a),
{
    match (a, b) {
        (
            ImportNameModel::DefaultModel { name: an },
            ImportNameModel::DefaultModel { name: bn },
        ) => {
            lemma_str_le_total(an, bn);
        },
        (
            ImportNameModel::NamedModel { name: an, import_as: aa },
            ImportNameModel::NamedModel { name: bn, import_as: ba },
        ) => {
            lemma_str_le_total(an, bn);
            lemma_alias_le_total(aa, ba);
        },
        _ => {},
    }
}

pub proof fn lemma_name_le_antisymmetric(a: ImportNameModel, b: ImportNameModel)
    requires
        name_le(a, b),
        name_le(b, a),
    ensures
        a == b,
{
    match (a, b) {
        (
            ImportNameModel::DefaultModel { name: an },
            ImportNameModel::DefaultModel { name: bn },
        ) => {
            lemma_str_le_antisymmetric(an, bn);
        },
        (
            ImportNameModel::NamedModel { name: an, import_as: aa },
            ImportNameModel::NamedModel { name: bn, import_as: ba },
        ) => {
            if an == bn {
                lemma_alias_le_antisymmetric(aa, ba);
            } else {
                lemma_str_le_antisymmetric(an, bn);
            }
        },
        _ => {},
    }
}

pub proof fn lemma_name_le_transitive(a: ImportNameModel, b: ImportNameModel, c: ImportNameModel)
    requires
        name_le(a, b),
        name_le(b, c),
    ensures
        name_le(a, c),
{
    match (a, b, c) {
        (
            ImportNameModel::DefaultModel { name: an },
            ImportNameModel::DefaultModel { name: bn },
            ImportNameModel::DefaultModel { name: cn },
        ) => {
            lemma_str_le_transitive(an, bn, cn);
        },
        (
            ImportNameModel::NamedModel { name: an, import_as: aa },
            ImportNameModel::NamedModel { name: bn, import_as: ba },
            ImportNameModel::NamedModel { name: cn, import_as: ca },
        ) => {
            if an == bn && bn == cn {
                lemma_alias_le_transitive(aa, ba, ca);
            } else if an == bn {
            } else if bn == cn {
            } else {
                lemma_str_le_transitive(an, bn, cn);
                if an == cn {
                    lemma_str_le_antisymmetric(an, bn);
                }
            }
        },
        _ => {},
    }
}

pub proof fn lemma_stmt_le_total(a: StatementModel, b: StatementModel)
    ensures
        stmt_le(a, b) || stmt_le(b, a),
{
    match (a, b) {
        (
            StatementModel::ImportModel { name: an, path: ap },
            StatementModel::ImportModel { name: bn, path: bp },
        ) => {
            lemma_name_le_total(an, bn);
            lemma_str_le_total(ap, bp);
        },
        (
            StatementModel::VarDefModel { text: at },
            StatementModel::VarDefModel { text: bt },
        ) => {
            lemma_str_le_total(at, bt);
        },
        _ => {},
    }
}

pub proof fn lemma_stmt_le_antisymmetric(a: StatementModel, b: StatementModel)
    requires
        stmt_le(a, b),
        stmt_le(b, a),
    ensures
        a == b,
{
    match (a, b) {
        (
            StatementModel::ImportModel { name: an, path: ap },
            StatementModel::ImportModel { name: bn, path: bp },
        ) => {
            if an == bn {
                lemma_str_le_antisymmetric(ap, bp);
            } else {
                lemma_name_le_antisymmetric(an, bn);
            }
        },
        (
            StatementModel::VarDefModel { text: at },
            StatementModel::VarDefModel { text: bt },
        ) => {
            lemma_str_le_antisymmetric(at, bt);
        },
        _ => {},
    }
}

pub proof fn lemma_stmt_le_transitive(a: StatementModel, b: StatementModel, c: StatementModel)
    requires
        stmt_le(a, b),
        stmt_le(b, c),
    ensures
        stmt_le(a, c),
{
    match (a, b, c) {
        (
            StatementModel::ImportModel { name: an, path: ap },
            StatementModel::ImportModel { name: bn, path: bp },
            StatementModel::ImportModel { name: cn, path: cp },
        ) => {
            if an == bn && bn == cn {
                lemma_str_le_transitive(ap, bp, cp);
            } else if an != bn && bn != cn {
                lemma_name_le_transitive(an, bn, cn);
                if an == cn {
                    lemma_name_le_antisymmetric(an, bn);
                }
            }
        },
        (
            StatementModel::VarDefModel { text: at },
            StatementModel::VarDefModel { text: bt },
            StatementModel::VarDefModel { text: ct },
        ) => {
            lemma_str_le_transitive(at, bt, ct);
        },
        _ => {},
    }
}

/// `stmt_le` is a total order on statement models: that is what makes the
/// rendered output unique.
pub proof fn lemma_stmt_le_total_ordering()
    ensures
        vstd::relations::total_ordering(stmt_leq()),
{
    let leq = stmt_leq();
    assert forall|a: StatementModel| #[trigger] leq(a, a) by {
        lemma_stmt_le_total(a, a);
    }
    assert forall|a: StatementModel, b: StatementModel|
        #[trigger] leq(a, b) && #[trigger] leq(b, a) implies a == b by {
        lemma_stmt_le_antisymmetric(a, b);
    }
    assert forall|a: StatementModel, b: StatementModel, c: StatementModel|
        #[trigger] leq(a, b) && #[trigger] leq(b, c) implies leq(a, c) by {
        lemma_stmt_le_transitive(a, b, c);
    }
    assert forall|a: StatementModel, b: StatementModel| #[trigger] leq(a, b) || #[trigger] leq(
        b,
        a,
    ) by {
        lemma_stmt_le_total(a, b);
    }
}

/// Decides whether two import names are the same.
pub fn name_eq_exec(a: &ModuleImportName, b: &ModuleImportName) -> (r: bool)
    ensures
        r == (a@ == b@),
{
    match (a, b) {
        (ModuleImportName::Default(an), ModuleImportName::Default(bn)) => {
            str_eq_exec(an.as_str(), bn.as_str())
        },
        (
            ModuleImportName::Named { name: an, import_as: aa },
            ModuleImportName::Named { name: bn, import_as: ba },
        ) => {
            let names_eq = str_eq_exec(an.as_str(), bn.as_str());
            if !names_eq {
                false
            } else {
                match (aa, ba) {
                    (None, None) => true,
                    (Some(ax), Some(bx)) => str_eq_exec(ax.as_str(), bx.as_str()),
                    _ => false,
                }
            }
        },
        _ => false,
    }
}

/// Decides the order of two import names, as `name_le` describes.
pub fn name_le_exec(a: &ModuleImportName, b: &ModuleImportName) -> (r: bool)
    ensures
        r == name_le(a@, b@),
{
    match (a, b) {
        (ModuleImportName::Default(an), ModuleImportName::Default(bn)) => {
            str_le_exec(an.as_str(), bn.as_str())
        },
        (ModuleImportName::Default(_), ModuleImportName::Named { .. }) => true,
        (ModuleImportName::Named { .. }, ModuleImportName::Default(_)) => false,
        (
            ModuleImportName::Named { name: an, import_as: aa },
            ModuleImportName::Named { name: bn, import_as: ba },
        ) => {
            if str_eq_exec(an.as_str(), bn.as_str()) {
                match (aa, ba) {
                    (None, _) => true,
                    (Some(_), None) => false,
                    (Some(ax), Some(bx)) => str_le_exec(ax.as_str(), bx.as_str()),
                }
            } else {
                str_le_exec(an.as_str(), bn.as_str())
            }
        },
    }
}

/// Decides the order of two statements, as `stmt_le` describes.
pub fn stmt_le_exec(a: &TopLevelStatement, b: &TopLevelStatement) -> (r: bool)
    ensures
        r == stmt_le(a@, b@),
{
    match (a, b) {
        (
            TopLevelStatement::ImportStatement { module_import_name: an, path: ap },
            TopLevelStatement::ImportStatement { module_import_name: bn, path: bp },
        ) => {
            if name_eq_exec(an, bn) {
                str_le_exec(ap.as_str(), bp.as_str())
            } else {
                name_le_exec(an, bn)
            }
        },
        (TopLevelStatement::ImportStatement { .. }, TopLevelStatement::VariableDefinition(_)) => {
            true
        },
        (TopLevelStatement::VariableDefinition(_), TopLevelStatement::ImportStatement { .. }) => {
            false
        },
        (TopLevelStatement::VariableDefinition(at), TopLevelStatement::VariableDefinition(bt)) => {
            str_le_exec(at.as_str(), bt.as_str())
        },
    }
}

/// The text a single statement renders to: one import line ended by a
/// newline, or the variable definition's text kept verbatim.
pub open spec fn stmt_text(s: StatementModel) -> Seq<char> {
    match s {
        StatementModel::ImportModel { name, path } => match name {
            ImportNameModel::DefaultModel { name: n } => {
                "import "@ + n + " from '"@ + path + "';\n"@
            },
            ImportNameModel::NamedModel { name: n, import_as } => match import_as {
                Some(a) => "import {"@ + n + " as "@ + a + "} from '"@ + path + "';\n"@,
                None => "import {"@ + n + "} from '"@ + path + "';\n"@,
            },
        },
        StatementModel::VarDefModel { text } => text,
    }
}

/// Renders one statement to its line of text.
pub fn stmt_render(s: &TopLevelStatement) -> (r: String)
    ensures
        r@ == stmt_text(s@),
{
    match s {
        TopLevelStatement::ImportStatement { module_import_name, path } => {
            match module_import_name {
                ModuleImportName::Default(n) => {
                    let mut out: String = "import ".to_owned();
                    out.append(n.as_str());
                    out.append(" from '");
                    out.append(path.as_str());
                    out.append("';\n");
                    proof {
                        assert(out@ =~= stmt_text(s@));
                    }
                    out
                },
                ModuleImportName::Named { name, import_as } => match import_as {
                    Some(a) => {
                        let mut out: String = "import {".to_owned();
                        out.append(name.as_str());
                        out.append(" as ");
                        out.append(a.as_str());
                        out.append("} from '");
                        out.append(path.as_str());
                        out.append("';\n");
                        proof {
                            assert(out@ =~= stmt_text(s@));
                        }
                        out
                    },
                    None => {
                        let mut out: String = "import {".to_owned();
                        out.append(name.as_str());
                        out.append("} from '");
                        out.append(path.as_str());
                        out.append("';\n");
                        proof {
                            assert(out@ =~= stmt_text(s@));
                        }
                        out
                    },
                },
            }
        },
        TopLevelStatement::VariableDefinition(text) => text.as_str().to_owned(),
    }
}

/// The models of a sequence of statements.
pub open spec fn views_of(v: Seq<TopLevelStatement>) -> Seq<StatementModel> {
    v.map_values(|s: TopLevelStatement| s@)
}

/// The concatenated text of a sequence of statements, in the order given.
pub open spec fn texts_concat(ss: Seq<StatementModel>) -> Seq<char>
    decreases ss.len(),
{
    if ss.len() == 0 {
        Seq::<char>::empty()
    } else {
        stmt_text(ss[0]) + texts_concat(ss.drop_first())
    }
}

/// Appending a statement appends its text.
pub proof fn lemma_texts_concat_push(ss: Seq<StatementModel>, x: StatementModel)
    ensures
        texts_concat(ss.push(x)) == texts_concat(ss) + stmt_text(x),
    decreases ss.len(),
{
    if ss.len() == 0 {
        assert(ss.push(x)[0] == x);
        assert(ss.push(x).drop_first() =~= Seq::<StatementModel>::empty());
        assert(texts_concat(Seq::<StatementModel>::empty()) =~= Seq::<char>::empty());
        assert(texts_concat(ss.push(x)) == stmt_text(x) + texts_concat(
            ss.push(x).drop_first(),
        ));
        assert(stmt_text(x) + Seq::<char>::empty() =~= stmt_text(x));
        assert(Seq::<char>::empty() + stmt_text(x) =~= stmt_text(x));
        assert(texts_concat(ss.push(x)) =~= texts_concat(ss) + stmt_text(x));
    } else {
        assert(ss.push(x).drop_first() =~= ss.drop_first().push(x));
        lemma_texts_concat_push(ss.drop_first(), x);
        assert(ss.push(x)[0] == ss[0]);
        assert(texts_concat(ss.push(x)) == stmt_text(ss[0]) + (texts_concat(ss.drop_first())
            + stmt_text(x)));
        assert(stmt_text(ss[0]) + (texts_concat(ss.drop_first()) + stmt_text(x)) =~= (stmt_text(
            ss[0],
        ) + texts_concat(ss.drop_first())) + stmt_text(x));
    }
}

/// Sorts statements into the order `stmt_le` describes. The result is the
/// one sorted arrangement of the same statements.
pub fn sort_statements(v: Vec<TopLevelStatement>) -> (r: Vec<TopLevelStatement>)
    ensures
        vstd::relations::sorted_by(views_of(r@), stmt_leq()),
        views_of(r@).to_multiset() == views_of(v@).to_multiset(),
{
    broadcast use vstd::seq_lib::group_to_multiset_ensures;
    broadcast use vstd::seq_lib::to_multiset_insert;
    broadcast use vstd::seq_lib::to_multiset_build;
    broadcast use vstd::multiset::group_multiset_axioms;

    let mut rest = v;
    let mut out: Vec<TopLevelStatement> = Vec::new();
    proof {
        assert(views_of(out@) =~= Seq::<StatementModel>::empty());
        assert(views_of(out@).to_multiset().add(views_of(rest@).to_multiset()) =~= views_of(
            v@,
        ).to_multiset());
    }
    loop
        invariant
            vstd::relations::sorted_by(views_of(out@), stmt_leq()),
            views_of(out@).to_multiset().add(views_of(rest@).to_multiset()) == views_of(
                v@,
            ).to_multiset(),
        ensures
            rest@.len() == 0,
            vstd::relations::sorted_by(views_of(out@), stmt_leq()),
            views_of(out@).to_multiset().add(views_of(rest@).to_multiset()) == views_of(
                v@,
            ).to_multiset(),
        decreases rest@.len(),
    {
        if rest.len() == 0 {
            break ;
        }
        let ghost old_rest = rest@;
        let x = rest.pop().unwrap();
        proof {
            broadcast use vstd::seq_lib::group_to_multiset_ensures;
            broadcast use vstd::multiset::group_multiset_axioms;

            assert(old_rest =~= old_rest.subrange(0, old_rest.len() - 1).push(x));
            assert(views_of(old_rest) =~= views_of(old_rest.subrange(0, old_rest.len() - 1)).push(
                x@,
            ));
            assert(views_of(rest@).push(x@).to_multiset() == views_of(rest@).to_multiset().insert(
                x@,
            ));
            assert(views_of(old_rest).to_multiset() =~= views_of(rest@).to_multiset().insert(x@));
        }
        let ghost old_out = views_of(out@);
        let mut j: usize = 0;
        loop
            invariant
                j <= out@.len(),
                forall|t: int| 0 <= t < j ==> stmt_le(#[trigger] views_of(out@)[t], x@),
                views_of(out@) == old_out,
            ensures
                j <= out@.len(),
                forall|t: int| 0 <= t < j ==> stmt_le(#[trigger] views_of(out@)[t], x@),
                j < out@.len() ==> !stmt_le(views_of(out@)[j as int], x@),
                views_of(out@) == old_out,
            decreases out@.len() - j,
        {
            if j >= out.len() {
                break ;
            }
            if !stmt_le_exec(&out[j], &x) {
                break ;
            }
            j = j + 1;
        }
        proof {
            if j < out@.len() {
                lemma_stmt_le_total(old_out[j as int], x@);
            }
            assert forall|t: int| j <= t < old_out.len() implies stmt_le(
                x@,
                #[trigger] old_out[t],
            ) by {
                if t > j {
                    assert(stmt_leq()(old_out[j as int], old_out[t]));
                    lemma_stmt_le_transitive(x@, old_out[j as int], old_out[t]);
                }
            }
        }
        out.insert(j, x);
        proof {
            broadcast use vstd::seq_lib::group_to_multiset_ensures;
            broadcast use vstd::multiset::group_multiset_axioms;

            assert(views_of(out@) =~= old_out.insert(j as int, x@));
            assert forall|i1: int, i2: int| 0 <= i1 < i2 < views_of(out@).len() implies #[trigger]
            stmt_leq()(views_of(out@)[i1], views_of(out@)[i2]) by {
                let nv = views_of(out@);
                if i2 < j {
                    assert(stmt_leq()(old_out[i1], old_out[i2]));
                } else if i1 > j {
                    assert(stmt_leq()(old_out[i1 - 1], old_out[i2 - 1]));
                } else if i1 == j {
                    assert(nv[i2] == old_out[i2 - 1]);
                } else if i2 == j {
                    assert(nv[i1] == old_out[i1]);
                } else if i1 < j && j < i2 {
                    assert(nv[i1] == old_out[i1]);
                    assert(nv[i2] == old_out[i2 - 1]);
                    if i2 - 1 == j {
                    } else {
                        assert(stmt_le(x@, old_out[i2 - 1]));
                        assert(stmt_leq()(old_out[i1], old_out[i2 - 1]));
                    }
                }
            }
        }
    }
    proof {
        assert(views_of(rest@) =~= Seq::<StatementModel>::empty());
        assert(views_of(out@).to_multiset().add(views_of(rest@).to_multiset()) =~= views_of(
            out@,
        ).to_multiset());
    }
    out
}

} // verus!
