//! What the incompatibility store rests on, and why a terminal incompatibility
//! is a proof that no solution exists. Every stored incompatibility is either a
//! fact read off the project or the provider (a dependency, or a range in which
//! no version is published) or the resolvent of two earlier ones; resolution is
//! sound, so a state of every package that meets all the facts meets every
//! stored incompatibility, and a terminal one rules out the root itself.
use vstd::prelude::*;
use crate::incompat::{CauseView, IncompatView, NamedTerm, is_terminal, term_of};
use crate::range::{Range, Seg, segs_contain, segs_wf, before, after, lower_of};
use crate::registry::Provider;
use crate::solver::{
    AssignView, ROOT, acc_spec, best_of, all_hold, distinct_packages, terms_wf, resolvent, merge_in, merge_all, eliminated,
    dependency_incompat, exact_term, root_version, root_point, derivations_acyclic, law_resolvent_sound,
};
use crate::term::{TermView, holds, term_intersect, term_union};
use crate::version::{VersionView, version_compare, version_order_laws};
use crate::order::Order;
use crate::pins::{Pin, pinned, pins_sorted, lemma_pinned_at};

verus! {

/// Every term about the root package is the root version alone.
pub open spec fn root_terms_point(ts: Seq<NamedTerm>) -> bool {
    forall|k: int| 0 <= k < ts.len() && (#[trigger] ts[k]).0 == ROOT@ ==> ts[k].1 == root_point()
}

/// A dependency fact: the project depends on `d` within `r`, or the provider
/// lists `d` within `r` among the dependencies of a published `package`@`v`.
pub open spec fn dependency_fact<P: Provider + ?Sized>(
    prov: &P,
    deps: Seq<(String, Range)>,
    inc: IncompatView,
) -> bool {
    exists|package: Seq<char>, v: VersionView, d: Seq<char>, r: Seq<Seg>|
        #[trigger] dependency_incompat(package, v, d, r) == inc && segs_wf(r) && (if package == ROOT@ {
            v == root_version() && exists|k: int|
                0 <= k < deps.len() && (#[trigger] deps[k]).0@ == d && deps[k].1@ == r
        } else {
            &&& prov.listed_versions(package).contains(v)
            &&& prov.listed_dependencies(package, v) matches Some(ds)
            &&& ds.contains((d, r))
        })
}

/// A no-versions fact: the provider publishes no version of `package` within
/// `allowed`, so the package cannot be there.
pub open spec fn no_versions_fact<P: Provider + ?Sized>(prov: &P, inc: IncompatView) -> bool {
    exists|package: Seq<char>, allowed: Seq<Seg>|
        #[trigger] inc.terms == seq![(package, TermView { positive: true, range: allowed })] && package != ROOT@
            && segs_wf(allowed) && forall|j: int|
            0 <= j < prov.listed_versions(package).len() ==> !segs_contain(
                allowed,
                #[trigger] prov.listed_versions(package)[j],
            )
}

/// Entry `i` is the resolvent of the two earlier entries its cause names, on a
/// package other than the root.
pub open spec fn derived_entry(store: Seq<IncompatView>, i: int) -> bool {
    match store[i].cause {
        CauseView::Derived(a, b) => exists|p: Seq<char>|
            p != ROOT@ && #[trigger] resolvent(store[a as int].terms, store[b as int].terms, p) == store[i].terms,
        _ => false,
    }
}

/// Every stored incompatibility is a fact of the project or the provider, or
/// derived from earlier ones by resolution.
pub open spec fn store_shaped<P: Provider + ?Sized>(
    prov: &P,
    deps: Seq<(String, Range)>,
    store: Seq<IncompatView>,
) -> bool {
    forall|i: int|
        0 <= i < store.len() ==> match (#[trigger] store[i]).cause {
            CauseView::Derived(_, _) => derived_entry(store, i),
            CauseView::NoVersions { .. } => no_versions_fact(prov, store[i]),
            CauseView::Dependency { .. } => dependency_fact(prov, deps, store[i]),
            CauseView::Root => false,
        }
}

/// A solution: the root at its version, every dependency of the project met,
/// and every selected package at a published version whose listed dependencies
/// the selection meets. `sel` gives each package its version, or `None` when it
/// is not selected.
pub open spec fn is_solution<P: Provider + ?Sized>(
    prov: &P,
    deps: Seq<(String, Range)>,
    sel: spec_fn(Seq<char>) -> Option<VersionView>,
) -> bool {
    &&& sel(ROOT@) == Some(root_version())
    &&& forall|k: int|
        0 <= k < deps.len() ==> match sel((#[trigger] deps[k]).0@) {
            Some(w) => segs_contain(deps[k].1@, w),
            None => false,
        }
    &&& forall|n: Seq<char>|
        n != ROOT@ && #[trigger] sel(n) is Some ==> {
            &&& prov.listed_versions(n).contains(sel(n)->0)
            &&& match prov.listed_dependencies(n, sel(n)->0) {
                Some(ds) => forall|j: int|
                    0 <= j < ds.len() ==> match sel((#[trigger] ds[j]).0) {
                        Some(w) => segs_contain(ds[j].1, w),
                        None => false,
                    },
                None => true,
            }
        }
}

/// The selection a list of pins makes: the root at its version, every pinned
/// package at its pin, every other package not selected.
pub open spec fn pin_selection(pins: Seq<Pin>) -> spec_fn(Seq<char>) -> Option<VersionView> {
    |n: Seq<char>| if n == ROOT@ {
        Some(root_version())
    } else {
        pinned(pins, n)
    }
}

/// `v` is what the selection policy picks from the versions the provider
/// lists for `n`, among those some range allows: the highest stable one there,
/// or the highest prerelease when none is stable.
pub open spec fn policy_pick<P: Provider + ?Sized>(prov: &P, n: Seq<char>, v: VersionView) -> bool {
    exists|allowed: Seq<Seg>| #[trigger] best_of(prov.listed_versions(n), allowed) == Some(v)
}

/// Every package version of `qs` is the selection policy's pick for its package.
#[verifier::opaque]
pub open spec fn picks_only<P: Provider + ?Sized>(prov: &P, qs: Seq<(Seq<char>, VersionView)>) -> bool {
    forall|k: int| 0 <= k < qs.len() ==> policy_pick(prov, (#[trigger] qs[k]).0, qs[k].1)
}

/// `d` is selected at a version within `r`.
pub open spec fn met_by(sel: spec_fn(Seq<char>) -> Option<VersionView>, d: Seq<char>, r: Seq<Seg>) -> bool {
    match sel(d) {
        Some(w) => segs_contain(r, w),
        None => false,
    }
}

/// The pins meet every dependency of the project and every dependency the
/// provider lists for a pinned version.
pub open spec fn pins_meet<P: Provider + ?Sized>(prov: &P, deps: Seq<(String, Range)>, pins: Seq<Pin>) -> bool {
    &&& forall|k: int| 0 <= k < deps.len() ==> met_by(pin_selection(pins), (#[trigger] deps[k]).0@, deps[k].1@)
    &&& forall|k: int| 0 <= k < pins.len() ==> pin_deps_met(prov, pins, (#[trigger] pins[k]).0, pins[k].1)
}

/// The pins meet every dependency the provider lists for `n` at `v`.
pub open spec fn pin_deps_met<P: Provider + ?Sized>(prov: &P, pins: Seq<Pin>, n: Seq<char>, v: VersionView) -> bool {
    match prov.listed_dependencies(n, v) {
        Some(ds) => forall|j: int| 0 <= j < ds.len() ==> met_by(pin_selection(pins), (#[trigger] ds[j]).0, ds[j].1),
        None => true,
    }
}

/// Pins sorted by name, none for the root, each at a listed version, that meet
/// every dependency of the project and of themselves make a solution.
pub proof fn lemma_pins_solution<P: Provider + ?Sized>(prov: &P, deps: Seq<(String, Range)>, pins: Seq<Pin>)
    requires
        pins_sorted(pins),
        pins_meet(prov, deps, pins),
        forall|k: int|
            0 <= k < pins.len() ==> (#[trigger] pins[k]).0 != ROOT@ && prov.listed_versions(pins[k].0).contains(
                pins[k].1,
            ),
    ensures
        is_solution(prov, deps, pin_selection(pins)),
{
    let sel = pin_selection(pins);
    assert forall|k: int| 0 <= k < deps.len() implies match sel((#[trigger] deps[k]).0@) {
        Some(w) => segs_contain(deps[k].1@, w),
        None => false,
    } by {
        assert(met_by(sel, deps[k].0@, deps[k].1@));
    }
    assert forall|n: Seq<char>| n != ROOT@ && #[trigger] sel(n) is Some implies {
        &&& prov.listed_versions(n).contains(sel(n)->0)
        &&& match prov.listed_dependencies(n, sel(n)->0) {
            Some(ds) => forall|j: int|
                0 <= j < ds.len() ==> match sel((#[trigger] ds[j]).0) {
                    Some(w) => segs_contain(ds[j].1, w),
                    None => false,
                },
            None => true,
        }
    } by {
        assert(pinned(pins, n) is Some);
        let k = choose|k: int| 0 <= k < pins.len() && pins[k].0 == n;
        lemma_pinned_at(pins, k);
        assert(sel(n) == Some(pins[k].1));
        assert(pin_deps_met(prov, pins, pins[k].0, pins[k].1));
        if let Some(ds) = prov.listed_dependencies(pins[k].0, pins[k].1) {
            assert forall|j: int| 0 <= j < ds.len() implies match sel((#[trigger] ds[j]).0) {
                Some(w) => segs_contain(ds[j].1, w),
                None => false,
            } by {
                assert(met_by(sel, ds[j].0, ds[j].1));
            }
        }
    }
}

/// A solution made of pins selects each dependency of the project, but one on
/// the root package itself, at a pinned version within its range.
pub proof fn lemma_solution_meets_deps<P: Provider + ?Sized>(prov: &P, deps: Seq<(String, Range)>, pins: Seq<Pin>)
    requires
        is_solution(prov, deps, pin_selection(pins)),
    ensures
        forall|k: int|
            0 <= k < deps.len() && (#[trigger] deps[k]).0@ != ROOT@ ==> (pinned(pins, deps[k].0@) matches Some(v)
                && deps[k].1.has(v)),
{
    assert forall|k: int| 0 <= k < deps.len() && (#[trigger] deps[k]).0@ != ROOT@ implies (pinned(
        pins,
        deps[k].0@,
    ) matches Some(v) && deps[k].1.has(v)) by {
        assert(match pin_selection(pins)(deps[k].0@) {
            Some(w) => segs_contain(deps[k].1@, w),
            None => false,
        });
        assert(pin_selection(pins)(deps[k].0@) == pinned(pins, deps[k].0@));
    }
}

/// The inputs on which a terminal incompatibility is proved to rule out every
/// solution: nothing depends on the root package or on itself, and no two
/// published versions of a package share a precedence.
///
/// Each exclusion is where the argument needs it. A dependency on itself gives
/// an incompatibility two terms about one package; resolution folds terms
/// package by package and is proved sound for incompatibilities with one term
/// per package. A dependency on the root package puts a term other than the
/// root version alone on the root, where the terminal incompatibility must
/// hold of the root version. A range cannot tell versions of equal precedence
/// apart, so the fact that `p` at `v` depends on `d` speaks of every version
/// of `v`'s precedence; a solution that selects another of them, with other
/// dependencies, is not refuted by it.
pub open spec fn well_posed<P: Provider + ?Sized>(prov: &P, deps: Seq<(String, Range)>) -> bool {
    &&& forall|k: int| 0 <= k < deps.len() ==> (#[trigger] deps[k]).0@ != ROOT@
    &&& forall|n: Seq<char>, v: VersionView, j: int|
        #![trigger prov.listed_dependencies(n, v), prov.listed_dependencies(n, v)->0[j]]
        prov.listed_dependencies(n, v) is Some && 0 <= j < prov.listed_dependencies(n, v)->0.len() ==> {
            &&& prov.listed_dependencies(n, v)->0[j].0 != n
            &&& prov.listed_dependencies(n, v)->0[j].0 != ROOT@
        }
    &&& forall|n: Seq<char>, i: int, j: int|
        0 <= i < prov.listed_versions(n).len() && 0 <= j < prov.listed_versions(n).len() && version_compare(
            #[trigger] prov.listed_versions(n)[i],
            #[trigger] prov.listed_versions(n)[j],
        ) == Order::Equal ==> prov.listed_versions(n)[i] == prov.listed_versions(n)[j]
}

/// Every decision after the root's chose a version the provider lists.
pub open spec fn decisions_listed<P: Provider + ?Sized>(prov: &P, log: Seq<AssignView>) -> bool {
    forall|i: int|
        0 < i < log.len() && (#[trigger] log[i]).decision ==> prov.listed_versions(log[i].package).contains(
            lower_of(log[i].term.range)->0,
        )
}

/// Cutting the log back keeps its decisions listed.
pub proof fn lemma_decisions_listed_prefix<P: Provider + ?Sized>(prov: &P, log: Seq<AssignView>, m: int)
    requires
        decisions_listed(prov, log),
        0 <= m <= log.len(),
    ensures
        decisions_listed(prov, log.take(m)),
{
    assert forall|i: int| 0 < i < log.take(m).len() && (#[trigger] log.take(m)[i]).decision implies prov.listed_versions(
        log.take(m)[i].package,
    ).contains(lower_of(log.take(m)[i].term.range)->0) by {
        assert(log.take(m)[i] == log[i]);
    }
}

/// Appending a fact, or a decision on a listed version, keeps the log's
/// decisions listed.
pub proof fn lemma_decisions_listed_push<P: Provider + ?Sized>(prov: &P, log: Seq<AssignView>, x: AssignView)
    requires
        decisions_listed(prov, log),
        x.decision ==> prov.listed_versions(x.package).contains(lower_of(x.term.range)->0),
    ensures
        decisions_listed(prov, log.push(x)),
{
    assert forall|i: int| 0 < i < log.push(x).len() && (#[trigger] log.push(x)[i]).decision implies prov.listed_versions(
        log.push(x)[i].package,
    ).contains(lower_of(log.push(x)[i].term.range)->0) by {
        if i < log.len() {
            assert(log.push(x)[i] == log[i]);
        }
    }
}

/// Every decision after the root's chose what the selection policy picks from
/// the versions the provider lists, among those the earlier assignments allow.
pub open spec fn decisions_best<P: Provider + ?Sized>(prov: &P, log: Seq<AssignView>) -> bool {
    forall|i: int|
        0 < i < log.len() && (#[trigger] log[i]).decision ==> best_of(
            prov.listed_versions(log[i].package),
            acc_spec(log, log[i].package, i),
        ) == Some(lower_of(log[i].term.range)->0)
}

/// What the first `i` assignments leave for a package depends on them alone.
pub proof fn lemma_acc_spec_agree(a: Seq<AssignView>, b: Seq<AssignView>, pkg: Seq<char>, i: int)
    requires
        0 <= i <= a.len(),
        i <= b.len(),
        forall|j: int| 0 <= j < i ==> a[j] == b[j],
    ensures
        acc_spec(a, pkg, i) == acc_spec(b, pkg, i),
    decreases i,
{
    if i > 0 {
        lemma_acc_spec_agree(a, b, pkg, i - 1);
        assert(a[i - 1] == b[i - 1]);
    }
}

/// Cutting the log back keeps its decisions the policy's picks.
pub proof fn lemma_decisions_best_prefix<P: Provider + ?Sized>(prov: &P, log: Seq<AssignView>, m: int)
    requires
        decisions_best(prov, log),
        0 <= m <= log.len(),
    ensures
        decisions_best(prov, log.take(m)),
{
    let t = log.take(m);
    assert forall|i: int| 0 < i < t.len() && (#[trigger] t[i]).decision implies best_of(
        prov.listed_versions(t[i].package),
        acc_spec(t, t[i].package, i),
    ) == Some(lower_of(t[i].term.range)->0) by {
        assert(t[i] == log[i]);
        lemma_acc_spec_agree(t, log, t[i].package, i);
    }
}

/// Appending a fact, or a decision on the policy's pick, keeps the log's
/// decisions the policy's picks.
pub proof fn lemma_decisions_best_push<P: Provider + ?Sized>(prov: &P, log: Seq<AssignView>, x: AssignView)
    requires
        decisions_best(prov, log),
        x.decision ==> best_of(prov.listed_versions(x.package), acc_spec(log, x.package, log.len() as int)) == Some(
            lower_of(x.term.range)->0,
        ),
    ensures
        decisions_best(prov, log.push(x)),
{
    let n = log.push(x);
    assert forall|i: int| 0 < i < n.len() && (#[trigger] n[i]).decision implies best_of(
        prov.listed_versions(n[i].package),
        acc_spec(n, n[i].package, i),
    ) == Some(lower_of(n[i].term.range)->0) by {
        lemma_acc_spec_agree(n, log, n[i].package, i);
        if i < log.len() {
            assert(n[i] == log[i]);
        }
    }
}

/// Growing the store by facts and resolvents keeps it made of them.
pub proof fn lemma_store_shaped_grow<P: Provider + ?Sized>(
    prov: &P,
    deps: Seq<(String, Range)>,
    old: Seq<IncompatView>,
    new: Seq<IncompatView>,
)
    requires
        store_shaped(prov, deps, old),
        derivations_acyclic(old),
        old.len() <= new.len(),
        forall|i: int| 0 <= i < old.len() ==> new[i] == old[i],
        forall|i: int|
            old.len() <= i < new.len() ==> match (#[trigger] new[i]).cause {
                CauseView::Derived(_, _) => derived_entry(new, i),
                CauseView::NoVersions { .. } => no_versions_fact(prov, new[i]),
                CauseView::Dependency { .. } => dependency_fact(prov, deps, new[i]),
                CauseView::Root => false,
            },
    ensures
        store_shaped(prov, deps, new),
{
    reveal(derivations_acyclic);
    assert forall|i: int| 0 <= i < new.len() implies match (#[trigger] new[i]).cause {
        CauseView::Derived(_, _) => derived_entry(new, i),
        CauseView::NoVersions { .. } => no_versions_fact(prov, new[i]),
        CauseView::Dependency { .. } => dependency_fact(prov, deps, new[i]),
        CauseView::Root => false,
    } by {
        if i < old.len() {
            assert(new[i] == old[i]);
            if let CauseView::Derived(a, b) = old[i].cause {
                assert(derived_entry(old, i));
                let p = choose|p: Seq<char>|
                    p != ROOT@ && #[trigger] resolvent(old[a as int].terms, old[b as int].terms, p) == old[i].terms;
                assert(a < i && b < i);
                assert(new[a as int] == old[a as int]);
                assert(new[b as int] == old[b as int]);
                assert(resolvent(new[a as int].terms, new[b as int].terms, p) == new[i].terms);
            }
        }
    }
}

/// The root version meets its own term.
proof fn lemma_root_point_holds()
    ensures
        holds(root_point(), Some(root_version())),
        segs_wf(root_point().range),
        term_intersect(root_point(), root_point()) == root_point(),
{
    let w = root_version();
    crate::range::lemma_cut_laws(before(w), before(w), before(w));
    crate::range::lemma_cut_laws(after(w), after(w), after(w));
    crate::range::lemma_cut_split(before(w), w);
    assert(crate::range::in_seg(root_point().range[0], w));
    let pt = root_point().range;
    assert(pt.drop_first() =~= Seq::<Seg>::empty());
    assert(crate::range::cut_max(before(w), before(w)) == before(w));
    assert(crate::range::cut_min(after(w), after(w)) == after(w));
    assert(crate::range::segs_intersect(pt.drop_first(), pt) == Seq::<Seg>::empty());
    assert(crate::range::segs_intersect(pt, pt) =~= pt);
}

/// Folding a term in keeps the terms well formed, about distinct packages, and
/// exact at the root, and adds no term about the eliminated package.
proof fn lemma_merge_in_shape(acc: Seq<NamedTerm>, q: Seq<char>, t: TermView, pkg: Seq<char>)
    requires
        distinct_packages(acc),
        root_terms_point(acc),
        q == ROOT@ ==> t == root_point(),
    ensures
        distinct_packages(merge_in(acc, q, t, pkg)),
        root_terms_point(merge_in(acc, q, t, pkg)),
        (forall|k: int| 0 <= k < acc.len() ==> (#[trigger] acc[k]).0 != pkg) ==> forall|k: int|
            0 <= k < merge_in(acc, q, t, pkg).len() ==> (#[trigger] merge_in(acc, q, t, pkg)[k]).0 != pkg,
{
    if q != pkg {
        let k = crate::incompat::term_index(acc, q) as int;
        crate::solver::lemma_term_index_at(acc, q);
        let m = merge_in(acc, q, t, pkg);
        if k < acc.len() {
            assert forall|i: int, j: int| 0 <= i < j < m.len() implies #[trigger] m[i].0 != #[trigger] m[j].0 by {
                assert(m[i].0 == acc[i].0);
                assert(m[j].0 == acc[j].0);
            }
            if q == ROOT@ {
                lemma_root_point_holds();
                assert(acc[k].1 == root_point());
            }
            assert forall|i: int| 0 <= i < m.len() && (#[trigger] m[i]).0 == ROOT@ implies m[i].1 == root_point() by {
                if i != k {
                    assert(m[i] == acc[i]);
                }
            }
        } else {
            assert forall|i: int, j: int| 0 <= i < j < m.len() implies #[trigger] m[i].0 != #[trigger] m[j].0 by {
                if j < acc.len() {
                    assert(m[i] == acc[i]);
                    assert(m[j] == acc[j]);
                } else {
                    assert(m[i] == acc[i]);
                }
            }
            assert forall|i: int| 0 <= i < m.len() && (#[trigger] m[i]).0 == ROOT@ implies m[i].1 == root_point() by {
                if i < acc.len() {
                    assert(m[i] == acc[i]);
                }
            }
        }
        if forall|i: int| 0 <= i < acc.len() ==> (#[trigger] acc[i]).0 != pkg {
            assert forall|i: int| 0 <= i < m.len() implies (#[trigger] m[i]).0 != pkg by {
                if i < acc.len() && (k >= acc.len() || i != k) {
                    assert(m[i] == acc[i]);
                }
            }
        }
    }
}

proof fn lemma_merge_all_shape(acc: Seq<NamedTerm>, ts: Seq<NamedTerm>, pkg: Seq<char>)
    requires
        distinct_packages(acc),
        root_terms_point(acc),
        root_terms_point(ts),
    ensures
        distinct_packages(merge_all(acc, ts, pkg)),
        root_terms_point(merge_all(acc, ts, pkg)),
        (forall|k: int| 0 <= k < acc.len() ==> (#[trigger] acc[k]).0 != pkg) ==> forall|k: int|
            0 <= k < merge_all(acc, ts, pkg).len() ==> (#[trigger] merge_all(acc, ts, pkg)[k]).0 != pkg,
    decreases ts.len(),
{
    if ts.len() > 0 {
        let init = ts.drop_last();
        assert forall|k: int| 0 <= k < init.len() && (#[trigger] init[k]).0 == ROOT@ implies init[k].1
            == root_point() by {
            assert(init[k] == ts[k]);
        }
        lemma_merge_all_shape(acc, init, pkg);
        assert(ts.last() == ts[ts.len() - 1]);
        lemma_merge_in_shape(merge_all(acc, init, pkg), ts.last().0, ts.last().1, pkg);
    }
}

/// A resolvent on a package other than the root keeps the terms well formed,
/// about distinct packages, and exact at the root.
proof fn lemma_resolvent_shape(a: Seq<NamedTerm>, b: Seq<NamedTerm>, p: Seq<char>)
    requires
        p != ROOT@,
        terms_wf(a),
        terms_wf(b),
        distinct_packages(a),
        distinct_packages(b),
        root_terms_point(a),
        root_terms_point(b),
    ensures
        terms_wf(resolvent(a, b, p)),
        distinct_packages(resolvent(a, b, p)),
        root_terms_point(resolvent(a, b, p)),
{
    reveal(resolvent);
    let e = Seq::<NamedTerm>::empty();
    let m0 = merge_all(e, a, p);
    let m = merge_all(m0, b, p);
    let st = |q: Seq<char>| None::<VersionView>;
    assert(terms_wf(e));
    crate::solver::lemma_merge_all(e, a, p, st);
    crate::solver::lemma_merge_all(m0, b, p, st);
    lemma_merge_all_shape(e, a, p);
    lemma_merge_all_shape(m0, b, p);
    let r = resolvent(a, b, p);
    if let Some(u) = eliminated(a, b, p) {
        crate::solver::lemma_term_index_at(a, p);
        crate::solver::lemma_term_index_at(b, p);
        match (term_of(a, p), term_of(b, p)) {
            (Some(x), Some(y)) => {
                crate::term::law_term_union(x, y, None);
            },
            _ => {},
        }
        assert(segs_wf(u.range));
        assert(r == m.push((p, u)));
        assert forall|k: int| 0 <= k < r.len() implies segs_wf(#[trigger] r[k].1.range) by {
            if k < m.len() {
                assert(r[k] == m[k]);
            }
        }
        assert forall|i: int, j: int| 0 <= i < j < r.len() implies #[trigger] r[i].0 != #[trigger] r[j].0 by {
            assert(r[i] == m[i]);
            if j < m.len() {
                assert(r[j] == m[j]);
            }
        }
        assert forall|i: int| 0 <= i < r.len() && (#[trigger] r[i]).0 == ROOT@ implies r[i].1 == root_point() by {
            if i < m.len() {
                assert(r[i] == m[i]);
            }
        }
    }
}

/// Every stored incompatibility is refuted by a solution: under it some term
/// fails. Along the way, each is well formed, about distinct packages, and
/// exact at the root.
proof fn lemma_entry_refuted<P: Provider + ?Sized>(
    prov: &P,
    deps: Seq<(String, Range)>,
    store: Seq<IncompatView>,
    i: int,
    sel: spec_fn(Seq<char>) -> Option<VersionView>,
)
    requires
        derivations_acyclic(store),
        store_shaped(prov, deps, store),
        well_posed(prov, deps),
        is_solution(prov, deps, sel),
        0 <= i < store.len(),
    ensures
        terms_wf(store[i].terms),
        distinct_packages(store[i].terms),
        root_terms_point(store[i].terms),
        !all_hold(store[i].terms, sel),
    decreases i,
{
    reveal(derivations_acyclic);
    let inc = store[i];
    let ts = inc.terms;
    match inc.cause {
        CauseView::Derived(a, b) => {
            assert(a < i && b < i);
            lemma_entry_refuted(prov, deps, store, a as int, sel);
            lemma_entry_refuted(prov, deps, store, b as int, sel);
            assert(derived_entry(store, i));
            let p = choose|p: Seq<char>|
                p != ROOT@ && #[trigger] resolvent(store[a as int].terms, store[b as int].terms, p) == store[i].terms;
            lemma_resolvent_shape(store[a as int].terms, store[b as int].terms, p);
            law_resolvent_sound(store[a as int].terms, store[b as int].terms, p, sel);
        },
        CauseView::NoVersions { .. } => {
            assert(no_versions_fact(prov, inc));
            let (package, allowed) = choose|package: Seq<char>, allowed: Seq<Seg>|
                #[trigger] inc.terms == seq![(package, TermView { positive: true, range: allowed })] && package
                    != ROOT@ && segs_wf(allowed) && forall|j: int|
                    0 <= j < prov.listed_versions(package).len() ==> !segs_contain(
                        allowed,
                        #[trigger] prov.listed_versions(package)[j],
                    );
            assert(ts[0] == (package, TermView { positive: true, range: allowed }));
            if all_hold(ts, sel) {
                assert(holds(ts[0].1, sel(ts[0].0)));
                let w = sel(package)->0;
                assert(sel(package) is Some);
                assert(prov.listed_versions(package).contains(w));
                let j = choose|j: int| 0 <= j < prov.listed_versions(package).len() && prov.listed_versions(package)[j] == w;
                assert(!segs_contain(allowed, prov.listed_versions(package)[j]));
            }
        },
        CauseView::Dependency { .. } => {
            assert(dependency_fact(prov, deps, inc));
            let (package, v, d, r) = choose|package: Seq<char>, v: VersionView, d: Seq<char>, r: Seq<Seg>|
                #[trigger] dependency_incompat(package, v, d, r) == inc && segs_wf(r) && (if package == ROOT@ {
                    v == root_version() && exists|k: int|
                        0 <= k < deps.len() && (#[trigger] deps[k]).0@ == d && deps[k].1@ == r
                } else {
                    &&& prov.listed_versions(package).contains(v)
                    &&& prov.listed_dependencies(package, v) matches Some(ds)
                    &&& ds.contains((d, r))
                });
            assert(ts == seq![(package, exact_term(v)), (d, TermView { positive: false, range: r })]);
            crate::range::lemma_cut_split(before(v), v);
            assert(segs_wf(exact_term(v).range));
            assert(terms_wf(ts));
            if package == ROOT@ {
                let k = choose|k: int| 0 <= k < deps.len() && (#[trigger] deps[k]).0@ == d && deps[k].1@ == r;
                assert(deps[k].0@ != ROOT@);
                assert(d != ROOT@);
                if all_hold(ts, sel) {
                    assert(holds(ts[1].1, sel(ts[1].0)));
                    assert(match sel(deps[k].0@) {
                        Some(w) => segs_contain(deps[k].1@, w),
                        None => false,
                    });
                }
            } else {
                let ds = prov.listed_dependencies(package, v)->0;
                let jd = choose|j: int| 0 <= j < ds.len() && ds[j] == (d, r);
                assert(ds[jd].0 != package && ds[jd].0 != ROOT@);
                if all_hold(ts, sel) {
                    assert(holds(ts[0].1, sel(ts[0].0)));
                    assert(holds(ts[1].1, sel(ts[1].0)));
                    let w = sel(package)->0;
                    assert(sel(package) is Some);
                    // the selected version has the precedence of `v`, so it is `v`
                    assert(crate::range::in_seg((before(v), after(v)), w));
                    reveal(crate::range::cut_compare);
                    version_order_laws(v, w, v);
                    assert(version_compare(v, w) == Order::Equal);
                    assert(prov.listed_versions(package).contains(w));
                    let iv = choose|x: int| 0 <= x < prov.listed_versions(package).len() && prov.listed_versions(package)[x] == v;
                    let iw = choose|x: int| 0 <= x < prov.listed_versions(package).len() && prov.listed_versions(package)[x] == w;
                    assert(prov.listed_versions(package)[iv] == prov.listed_versions(package)[iw]);
                    assert(w == v);
                    assert(match sel(ds[jd].0) {
                        Some(x) => segs_contain(ds[jd].1, x),
                        None => false,
                    });
                }
            }
            assert(ts[0].0 != ts[1].0);
            assert(distinct_packages(ts));
            assert(root_terms_point(ts));
        },
        CauseView::Root => {
            assert(false);
        },
    }
}

/// A terminal incompatibility is a proof: when the store is made of facts and
/// their resolvents, no solution exists.
pub proof fn law_terminal_is_proof<P: Provider + ?Sized>(
    prov: &P,
    deps: Seq<(String, Range)>,
    store: Seq<IncompatView>,
    id: int,
    sel: spec_fn(Seq<char>) -> Option<VersionView>,
)
    requires
        derivations_acyclic(store),
        store_shaped(prov, deps, store),
        well_posed(prov, deps),
        0 <= id < store.len(),
        is_terminal(store[id].terms, ROOT@),
    ensures
        !is_solution(prov, deps, sel),
{
    if is_solution(prov, deps, sel) {
        lemma_entry_refuted(prov, deps, store, id, sel);
        lemma_root_point_holds();
        let ts = store[id].terms;
        if ts.len() == 1 {
            assert(ts[0].1 == root_point());
            assert(holds(ts[0].1, sel(ts[0].0)));
        }
        assert(all_hold(ts, sel));
    }
}

} // verus!
