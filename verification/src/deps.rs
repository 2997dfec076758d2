use vstd::prelude::*;
use crate::ir::Selection;
use crate::ir::SelectionModel;
use crate::ir::sel_model;
use crate::ir::sel_models;
use crate::transform::sel_size;
use crate::transform::sels_size;
use crate::transform::lemma_sel_models_index;
use crate::transform::lemma_sels_size_index;

verus! {

/// A fragment definition reachable from a spread.
#[derive(PartialEq, Eq, Debug)]
pub struct Fragment {
    pub selections: Vec<Selection>,
}

/// One module a document depends on for a lazily-loaded field, classified
/// direct (declared in the document itself) or transitive (reachable only
/// through a fragment spread).
#[derive(Clone, Copy, PartialEq, Eq, Structural, Debug)]
pub struct ModuleDependency {
    pub module: usize,
    pub direct: bool,
}

pub open spec fn frag_models(fs: Seq<Fragment>) -> Seq<Seq<SelectionModel>>
    decreases fs,
{
    if fs.len() == 0 {
        Seq::<Seq<SelectionModel>>::empty()
    } else {
        seq![sel_models(fs[0].selections@)] + frag_models(fs.drop_first())
    }
}

pub proof fn lemma_frag_models_index(fs: Seq<Fragment>)
    ensures
        frag_models(fs).len() == fs.len(),
        forall|i: int|
            0 <= i < fs.len() ==> frag_models(fs)[i] == sel_models(fs[i].selections@),
    decreases fs.len(),
{
    if fs.len() > 0 {
        lemma_frag_models_index(fs.drop_first());
        assert forall|i: int|
            0 <= i < fs.len() implies frag_models(fs)[i] == sel_models(
            fs[i].selections@,
        ) by {
            if i > 0 {
                assert(frag_models(fs)[i] == frag_models(fs.drop_first())[i - 1]);
                assert(fs.drop_first()[i - 1] == fs[i]);
            }
        }
    }
}

/// The modules declared on fields of this subtree, not crossing any spread.
pub open spec fn mods_sel(m: SelectionModel) -> Seq<usize>
    decreases m,
{
    match m {
        SelectionModel::FieldV { selections, module, .. } => {
            (match module {
                Some(x) => seq![x],
                None => Seq::<usize>::empty(),
            }) + mods_sels(selections)
        },
        SelectionModel::InlineV { selections, .. } => mods_sels(selections),
        SelectionModel::SpreadV { .. } => Seq::<usize>::empty(),
    }
}

pub open spec fn mods_sels(ms: Seq<SelectionModel>) -> Seq<usize>
    decreases ms,
{
    if ms.len() == 0 {
        Seq::<usize>::empty()
    } else {
        mods_sel(ms[0]) + mods_sels(ms.drop_first())
    }
}

/// The fragments this subtree spreads, not crossing any spread itself.
pub open spec fn spreads_sel(m: SelectionModel) -> Seq<usize>
    decreases m,
{
    match m {
        SelectionModel::FieldV { selections, .. } => spreads_sels(selections),
        SelectionModel::InlineV { selections, .. } => spreads_sels(selections),
        SelectionModel::SpreadV { fragment, .. } => seq![fragment],
    }
}

pub open spec fn spreads_sels(ms: Seq<SelectionModel>) -> Seq<usize>
    decreases ms,
{
    if ms.len() == 0 {
        Seq::<usize>::empty()
    } else {
        spreads_sel(ms[0]) + spreads_sels(ms.drop_first())
    }
}

pub proof fn lemma_mods_take(ms: Seq<SelectionModel>, i: int)
    requires
        0 <= i < ms.len(),
    ensures
        mods_sels(ms.take(i + 1)) == mods_sels(ms.take(i)) + mods_sel(ms[i]),
        spreads_sels(ms.take(i + 1)) == spreads_sels(ms.take(i)) + spreads_sel(ms[i]),
    decreases i,
{
    if i == 0 {
        assert(ms.take(1)[0] == ms[0]);
        assert(ms.take(1).drop_first() =~= Seq::<SelectionModel>::empty());
        assert(ms.take(0) =~= Seq::<SelectionModel>::empty());
        assert(mods_sels(Seq::<SelectionModel>::empty()) =~= Seq::<usize>::empty());
        assert(spreads_sels(Seq::<SelectionModel>::empty()) =~= Seq::<usize>::empty());
        assert(mods_sels(ms.take(1)) =~= mods_sels(ms.take(0)) + mods_sel(ms[0]));
        assert(spreads_sels(ms.take(1)) =~= spreads_sels(ms.take(0)) + spreads_sel(ms[0]));
    } else {
        lemma_mods_take(ms.drop_first(), i - 1);
        assert(ms.take(i + 1)[0] == ms[0]);
        assert(ms.take(i + 1).drop_first() =~= ms.drop_first().take(i));
        assert(ms.take(i)[0] == ms[0]);
        assert(ms.take(i).drop_first() =~= ms.drop_first().take(i - 1));
        assert(ms.drop_first()[i - 1] == ms[i]);
        assert(mods_sels(ms.take(i + 1)) =~= mods_sels(ms.take(i)) + mods_sel(ms[i]));
        assert(spreads_sels(ms.take(i + 1)) =~= spreads_sels(ms.take(i)) + spreads_sel(ms[i]));
    }
}

/// Collects the modules and spreads of one subtree.
fn scan_sel(s: &Selection, mods: &mut Vec<usize>, spreads: &mut Vec<usize>)
    ensures
        final(mods)@ == old(mods)@ + mods_sel(sel_model(*s)),
        final(spreads)@ == old(spreads)@ + spreads_sel(sel_model(*s)),
    decreases sel_size(sel_model(*s)), 0nat,
{
    match s {
        Selection::Field(f) => {
            match &f.module {
                Some(x) => {
                    mods.push(*x);
                    proof {
                        assert(old(mods)@.push(*x) =~= old(mods)@ + seq![*x]);
                    }
                },
                None => {
                    proof {
                        assert(mods@ + Seq::<usize>::empty() =~= mods@);
                    }
                },
            }
            scan_sels(&f.selections, mods, spreads);
            proof {
                assert(1 + sels_size(sel_models(f.selections@)) <= sel_size(sel_model(*s)));
                assert(old(mods)@ + ((match f.module {
                    Some(x) => seq![x],
                    None => Seq::<usize>::empty(),
                }) + mods_sels(sel_models(f.selections@))) =~= mods@);
            }
        },
        Selection::InlineFragment(inl) => {
            scan_sels(&inl.selections, mods, spreads);
        },
        Selection::FragmentSpread(sp) => {
            spreads.push(sp.fragment);
            proof {
                assert(old(spreads)@.push(sp.fragment) =~= old(spreads)@ + seq![sp.fragment]);
                assert(mods@ + Seq::<usize>::empty() =~= mods@);
            }
        },
    }
}

/// Collects the modules and spreads of a selection list.
fn scan_sels(ss: &Vec<Selection>, mods: &mut Vec<usize>, spreads: &mut Vec<usize>)
    ensures
        final(mods)@ == old(mods)@ + mods_sels(sel_models(ss@)),
        final(spreads)@ == old(spreads)@ + spreads_sels(sel_models(ss@)),
    decreases sels_size(sel_models(ss@)), 1nat,
{
    let ghost cms = sel_models(ss@);
    proof {
        lemma_sel_models_index(ss@);
        assert(cms.take(0) =~= Seq::<SelectionModel>::empty());
        assert(mods_sels(Seq::<SelectionModel>::empty()) =~= Seq::<usize>::empty());
        assert(spreads_sels(Seq::<SelectionModel>::empty()) =~= Seq::<usize>::empty());
        assert(old(mods)@ + Seq::<usize>::empty() =~= old(mods)@);
        assert(old(spreads)@ + Seq::<usize>::empty() =~= old(spreads)@);
    }
    let mut i: usize = 0;
    while i < ss.len()
        invariant
            i <= ss@.len(),
            cms == sel_models(ss@),
            sels_size(cms) == sels_size(sel_models(ss@)),
            mods@ == old(mods)@ + mods_sels(cms.take(i as int)),
            spreads@ == old(spreads)@ + spreads_sels(cms.take(i as int)),
        decreases ss@.len() - i,
    {
        proof {
            lemma_sel_models_index(ss@);
            lemma_sels_size_index(cms);
            assert(cms[i as int] == sel_model(ss@[i as int]));
            assert(sel_size(sel_model(ss@[i as int])) <= sels_size(cms));
        }
        scan_sel(&ss[i], mods, spreads);
        proof {
            lemma_mods_take(cms, i as int);
            assert(old(mods)@ + (mods_sels(cms.take(i as int)) + mods_sel(cms[i as int]))
                =~= old(mods)@ + mods_sels(cms.take(i + 1)));
            assert(old(spreads)@ + (spreads_sels(cms.take(i as int)) + spreads_sel(
                cms[i as int],
            )) =~= old(spreads)@ + spreads_sels(cms.take(i + 1)));
        }
        i = i + 1;
    }
    proof {
        assert(cms.take(cms.len() as int) =~= cms);
    }
}

/// How many fragments are still unvisited.
pub open spec fn count_unmarked(bs: Seq<bool>) -> nat
    decreases bs,
{
    if bs.len() == 0 {
        0
    } else {
        (if bs[0] {
            0nat
        } else {
            1nat
        }) + count_unmarked(bs.drop_first())
    }
}

pub proof fn lemma_count_unmarked_update(bs: Seq<bool>, i: int)
    requires
        0 <= i < bs.len(),
        !bs[i],
    ensures
        count_unmarked(bs.update(i, true)) < count_unmarked(bs),
    decreases i,
{
    if i == 0 {
        assert(bs.update(0, true)[0]);
        assert(bs.update(0, true).drop_first() =~= bs.drop_first());
    } else {
        lemma_count_unmarked_update(bs.drop_first(), i - 1);
        assert(bs.update(i, true)[0] == bs[0]);
        assert(bs.update(i, true).drop_first() =~= bs.drop_first().update(i - 1, true));
    }
}

/// The module identifiers reachable from a worklist of fragments, walking
/// each fragment once, following spreads into further fragments.
pub open spec fn frag_closure(
    frs: Seq<Seq<SelectionModel>>,
    work: Seq<usize>,
    visited: Seq<bool>,
    acc: Seq<usize>,
) -> Seq<usize>
    decreases count_unmarked(visited), work.len(),
    when visited.len() == frs.len()
    via frag_closure_decreases
{
    if work.len() == 0 {
        acc
    } else {
        let f = work[0];
        if f < frs.len() && !visited[f as int] {
            frag_closure(
                frs,
                work.drop_first() + spreads_sels(frs[f as int]),
                visited.update(f as int, true),
                acc + mods_sels(frs[f as int]),
            )
        } else {
            frag_closure(frs, work.drop_first(), visited, acc)
        }
    }
}

#[via_fn]
proof fn frag_closure_decreases(
    frs: Seq<Seq<SelectionModel>>,
    work: Seq<usize>,
    visited: Seq<bool>,
    acc: Seq<usize>,
) {
    if work.len() > 0 {
        let f = work[0];
        if f < frs.len() && !visited[f as int] {
            lemma_count_unmarked_update(visited, f as int);
        }
    }
}

/// First index holding the module, or the length when it is absent.
pub open spec fn find_dep(acc: Seq<ModuleDependency>, m: usize) -> int
    decreases acc,
{
    if acc.len() == 0 {
        0
    } else if acc[0].module == m {
        0
    } else {
        1 + find_dep(acc.drop_first(), m)
    }
}

/// Folds one module into the dependency list: a known module keeps its
/// place, and direct beats transitive; a new one comes last.
pub open spec fn merge_one(
    acc: Seq<ModuleDependency>,
    module: usize,
    direct: bool,
) -> Seq<ModuleDependency> {
    let j = find_dep(acc, module);
    if j < acc.len() {
        acc.update(j, ModuleDependency { module, direct: acc[j].direct || direct })
    } else {
        acc.push(ModuleDependency { module, direct })
    }
}

pub open spec fn merge_mods(
    acc: Seq<ModuleDependency>,
    mods: Seq<usize>,
    direct: bool,
) -> Seq<ModuleDependency>
    decreases mods,
{
    if mods.len() == 0 {
        acc
    } else {
        merge_mods(merge_one(acc, mods[0], direct), mods.drop_first(), direct)
    }
}

/// The module dependencies of a document: modules on its own fields are
/// direct; those reachable only through fragment spreads are transitive;
/// duplicates collapse, and direct wins over transitive.
pub open spec fn module_deps(
    frs: Seq<Seq<SelectionModel>>,
    ms: Seq<SelectionModel>,
) -> Seq<ModuleDependency> {
    let direct = mods_sels(ms);
    let transitive = frag_closure(
        frs,
        spreads_sels(ms),
        Seq::<bool>::new(frs.len(), |i: int| false),
        Seq::<usize>::empty(),
    );
    merge_mods(merge_mods(Seq::<ModuleDependency>::empty(), direct, true), transitive, false)
}

fn find_dep_exec(acc: &Vec<ModuleDependency>, m: usize) -> (r: usize)
    ensures
        r == find_dep(acc@, m),
        r <= acc@.len(),
{
    proof {
        assert(acc@.skip(0) =~= acc@);
    }
    let mut i: usize = 0;
    while i < acc.len()
        invariant
            i <= acc@.len(),
            find_dep(acc@, m) == find_dep(acc@.skip(i as int), m) + i,
            forall|t: int| 0 <= t < i ==> (#[trigger] acc@[t]).module != m,
        decreases acc@.len() - i,
    {
        proof {
            let rest = acc@.skip(i as int);
            assert(rest[0] == acc@[i as int]);
            assert(rest.drop_first() =~= acc@.skip(i + 1));
        }
        if acc[i].module == m {
            return i;
        }
        i = i + 1;
    }
    proof {
        assert(acc@.skip(acc@.len() as int) =~= Seq::<ModuleDependency>::empty());
    }
    i
}

fn merge_mods_exec(out: &mut Vec<ModuleDependency>, mods: &Vec<usize>, direct: bool)
    ensures
        final(out)@ == merge_mods(old(out)@, mods@, direct),
{
    proof {
        assert(mods@.skip(0) =~= mods@);
    }
    let mut i: usize = 0;
    while i < mods.len()
        invariant
            i <= mods@.len(),
            merge_mods(old(out)@, mods@, direct) == merge_mods(
                out@,
                mods@.skip(i as int),
                direct,
            ),
        decreases mods@.len() - i,
    {
        proof {
            let rest = mods@.skip(i as int);
            assert(rest[0] == mods@[i as int]);
            assert(rest.drop_first() =~= mods@.skip(i + 1));
        }
        let m = mods[i];
        let ghost prev = out@;
        let j = find_dep_exec(out, m);
        if j < out.len() {
            let prior = out[j];
            out[j] = ModuleDependency { module: m, direct: prior.direct || direct };
            proof {
                assert(out@ == merge_one(prev, m, direct));
            }
        } else {
            out.push(ModuleDependency { module: m, direct });
            proof {
                assert(out@ == merge_one(prev, m, direct));
            }
        }
        i = i + 1;
    }
    proof {
        assert(mods@.skip(mods@.len() as int) =~= Seq::<usize>::empty());
    }
}

/// Computes a document's module dependencies against a fragment table.
pub fn compute_module_dependencies(fragments: &Vec<Fragment>, ss: &Vec<Selection>) -> (r: Vec<
    ModuleDependency,
>)
    ensures
        r@ == module_deps(frag_models(fragments@), sel_models(ss@)),
{
    let ghost frs = frag_models(fragments@);
    let mut direct: Vec<usize> = Vec::new();
    let mut work: Vec<usize> = Vec::new();
    scan_sels(ss, &mut direct, &mut work);
    proof {
        assert(Seq::<usize>::empty() + mods_sels(sel_models(ss@)) =~= mods_sels(
            sel_models(ss@),
        ));
        assert(Seq::<usize>::empty() + spreads_sels(sel_models(ss@)) =~= spreads_sels(
            sel_models(ss@),
        ));
    }
    let mut visited: Vec<bool> = Vec::new();
    let mut k: usize = 0;
    while k < fragments.len()
        invariant
            k <= fragments@.len(),
            visited@.len() == k,
            forall|t: int| 0 <= t < k ==> !(#[trigger] visited@[t]),
        decreases fragments@.len() - k,
    {
        visited.push(false);
        k = k + 1;
    }
    proof {
        lemma_frag_models_index(fragments@);
        assert(visited@ =~= Seq::<bool>::new(frs.len(), |i: int| false));
    }
    let mut transitive: Vec<usize> = Vec::new();
    let ghost closure_spec = frag_closure(frs, work@, visited@, transitive@);
    loop
        invariant
            visited@.len() == frs.len(),
            frs.len() == fragments@.len(),
            frs == frag_models(fragments@),
            frag_closure(frs, work@, visited@, transitive@) == closure_spec,
        ensures
            work@.len() == 0,
            frag_closure(frs, work@, visited@, transitive@) == closure_spec,
        decreases count_unmarked(visited@), work@.len(),
    {
        if work.len() == 0 {
            break ;
        }
        let ghost prev_work = work@;
        let f = work.remove(0);
        proof {
            assert(prev_work.remove(0) =~= prev_work.drop_first());
        }
        if f < fragments.len() {
            if !visited[f] {
                let ghost prev_visited = visited@;
                visited[f] = true;
                proof {
                    lemma_count_unmarked_update(prev_visited, f as int);
                    assert(visited@ == prev_visited.update(f as int, true));
                }
                let ghost prev_mods = transitive@;
                let ghost prev_spreads = work@;
                scan_sels(&fragments[f].selections, &mut transitive, &mut work);
                proof {
                    lemma_frag_models_index(fragments@);
                    assert(transitive@ == prev_mods + mods_sels(frs[f as int]));
                    assert(work@ == prev_spreads + spreads_sels(frs[f as int]));
                }
            }
        }
    }
    let mut out: Vec<ModuleDependency> = Vec::new();
    merge_mods_exec(&mut out, &direct, true);
    merge_mods_exec(&mut out, &transitive, false);
    out
}

} // verus!
