//! The resolver: a from-scratch implementation of the PubGrub algorithm.
//!
//! A growing set of *incompatibilities* (combinations of versions that cannot
//! coexist) and a *partial solution* (an ordered log of decisions and derived
//! facts) drive two alternating moves: unit propagation, which turns an
//! incompatibility with all but one term forced into a derived fact, and
//! decision, which picks a required package's best version and adds its
//! dependencies. A fully satisfied incompatibility is a conflict: it is resolved
//! against the fact that caused it, learning a new incompatibility and
//! backjumping. If resolution bottoms out at the project's own requirements there
//! is no solution, and the terminal incompatibility is the proof of why.
use vstd::prelude::*;
use crate::incompat::{
    Cause, CauseView, IncompatId, Incompatibility, IncompatView, NamedTerm, named_terms, term_of,
    is_terminal,
};
use crate::range::{Range, Seg, CutView, segs_intersect, segs_complement, segs_wf, segs_contain, lower_of};
use crate::registry::Provider;
use crate::term::{Relation, Term, TermView, allowed, holds, relation_to_spec, term_intersect, term_union};
use crate::text::{str_eq, chars_of};
use crate::order::Order;
use crate::version::{Version, VersionView, version_compare};
use crate::pins::{Pin, pin_views, pins_sorted, pinned, insert_pin, insert_sorted, law_insert_pin};
use crate::facts::{
    pin_selection, met_by, pins_meet, pin_deps_met, lemma_pins_solution, is_solution, policy_pick,
    picks_only,
    store_shaped, dependency_fact, no_versions_fact, lemma_store_shaped_grow, decisions_listed,
    decisions_best, lemma_decisions_best_prefix, lemma_decisions_best_push,
    lemma_decisions_listed_prefix, lemma_decisions_listed_push,
};
use crate::registry::dep_views;

verus! {

/// The name of the synthetic package that carries the project's own dependencies.
pub const ROOT: &'static str = "@root";

/// A resolved dependency set: every package pinned to one version, sorted by name.
pub struct Resolution {
    pub packages: Vec<(String, Version)>,
}

pub enum Outcome {
    Solved(Resolution),
    /// Unsolvable: the id of the terminal incompatibility, resolvable to prose.
    Unsolvable(IncompatId),
}

struct Assignment {
    package: String,
    term: Term,
    decision: bool,
    level: usize,
    cause: Option<IncompatId>,
}

/// An assignment of the partial solution as plain values.
pub struct AssignView {
    pub package: Seq<char>,
    pub term: TermView,
    pub decision: bool,
    pub level: nat,
    pub cause: Option<nat>,
}

impl View for Assignment {
    type V = AssignView;

    closed spec fn view(&self) -> AssignView {
        AssignView {
            package: self.package@,
            term: self.term@,
            decision: self.decision,
            level: self.level as nat,
            cause: match self.cause {
                Some(c) => Some(c as nat),
                None => None,
            },
        }
    }
}

spec fn assign_views(a: Seq<Assignment>) -> Seq<AssignView> {
    a.map_values(|x: Assignment| x@)
}

pub open spec fn incompat_views(v: Seq<Incompatibility>) -> Seq<IncompatView> {
    v.map_values(|x: Incompatibility| x@)
}

/// The whole version line.
pub open spec fn any_segs() -> Seq<Seg> {
    seq![(CutView::NegInf, CutView::PosInf)]
}

/// The versions still possible for `pkg` after the first `upto` assignments.
pub open spec fn acc_spec(asg: Seq<AssignView>, pkg: Seq<char>, upto: int) -> Seq<Seg>
    decreases upto,
{
    if upto <= 0 {
        any_segs()
    } else {
        let prev = acc_spec(asg, pkg, upto - 1);
        if asg[upto - 1].package == pkg {
            segs_intersect(prev, allowed(asg[upto - 1].term))
        } else {
            prev
        }
    }
}

/// The state that constrains nothing: absence or any version.
pub open spec fn any_state_view() -> TermView {
    TermView { positive: false, range: Seq::empty() }
}

/// The states still possible for `pkg` after the first `upto` assignments:
/// absence is possible until a positive assignment rules it out.
///
/// Terms are judged against states, absence included, and not against the
/// versions still allowed alone. A package nothing has required may end up not
/// selected at all, and a negative term ("not in `r`") then holds while a
/// positive one does not. Judged against versions alone, such a package looks
/// as if it were at some version: a positive term over every version would
/// count as satisfied, and a negative one as undecided, so propagation would
/// derive facts and report conflicts that do not follow from the
/// incompatibilities (`law_unit_sound` and `law_conflict_sound` hold for the
/// relation over states).
pub open spec fn state_spec(asg: Seq<AssignView>, pkg: Seq<char>, upto: int) -> TermView
    decreases upto,
{
    if upto <= 0 {
        any_state_view()
    } else {
        let prev = state_spec(asg, pkg, upto - 1);
        if asg[upto - 1].package == pkg {
            term_intersect(prev, asg[upto - 1].term)
        } else {
            prev
        }
    }
}

/// Every derived incompatibility is derived from earlier ones: the causes form a
/// finite proof tree below every incompatibility.
#[verifier::opaque]
pub open spec fn derivations_acyclic(incs: Seq<IncompatView>) -> bool {
    forall|i: int|
        0 <= i < incs.len() ==> match (#[trigger] incs[i]).cause {
            CauseView::Derived(a, b) => a < i && b < i,
            _ => true,
        }
}

/// The shape the partial solution keeps: the root decision first at level 1,
/// levels rising by at most one from each assignment to the next and only at
/// decisions, every derivation caused by a stored incompatibility, every
/// decision a single version.
#[verifier::opaque]
pub open spec fn log_wf(asg: Seq<AssignView>, level: nat, n_incompats: nat) -> bool {
    &&& asg.len() >= 1
    &&& asg[0].level == 1
    &&& asg[0].decision
    &&& asg.last().level == level
    &&& forall|i: int| 0 <= i < asg.len() ==> (#[trigger] asg[i]).level <= i + 1
    &&& forall|i: int|
        0 <= i < asg.len() - 1 ==> (#[trigger] asg[i]).level <= asg[i + 1].level <= asg[i].level + 1
    &&& forall|i: int|
        0 <= i < asg.len() && !(#[trigger] asg[i]).decision ==> asg[i].cause is Some
            && asg[i].cause->0 < n_incompats
    &&& forall|i: int|
        0 <= i < asg.len() && (#[trigger] asg[i]).decision ==> lower_of(asg[i].term.range) is Some
}

/// How a term stands against everything the partial solution has derived for its package.
pub open spec fn rel_at(log: Seq<AssignView>, t: NamedTerm) -> Relation {
    relation_to_spec(t.1, state_spec(log, t.0, log.len() as int))
}

/// Whether assignment `i` is where `pkg`'s accumulated set first comes to satisfy `t`.
pub open spec fn sat_at(log: Seq<AssignView>, pkg: Seq<char>, t: TermView, i: int) -> bool {
    log[i].package == pkg && relation_to_spec(t, state_spec(log, pkg, i + 1)) == Relation::Satisfied
}

/// The smallest index below `upto` at which `pkg`'s accumulated set satisfies `t`.
pub open spec fn first_sat(log: Seq<AssignView>, pkg: Seq<char>, t: TermView, upto: int) -> Option<int>
    decreases upto,
{
    if upto <= 0 {
        None
    } else {
        match first_sat(log, pkg, t, upto - 1) {
            Some(i) => Some(i),
            None => if sat_at(log, pkg, t, upto - 1) {
                Some(upto - 1)
            } else {
                None
            },
        }
    }
}

/// The satisfier of a conflict: the latest of the terms' first satisfying assignments.
pub open spec fn satisfier_index(log: Seq<AssignView>, terms: Seq<NamedTerm>) -> int
    decreases terms.len(),
{
    if terms.len() == 0 {
        0
    } else {
        let prev = satisfier_index(log, terms.drop_last());
        match first_sat(log, terms.last().0, terms.last().1, log.len() as int) {
            Some(i) => if i > prev {
                i
            } else {
                prev
            },
            None => prev,
        }
    }
}

/// The backjump level: the latest level at which every term but the satisfier's
/// was already satisfied (and at least 1).
pub open spec fn previous_level(
    log: Seq<AssignView>,
    terms: Seq<NamedTerm>,
    sat_pkg: Seq<char>,
    sat: int,
) -> int
    decreases terms.len(),
{
    if terms.len() == 0 {
        1
    } else {
        let prev = previous_level(log, terms.drop_last(), sat_pkg, sat);
        let t = terms.last();
        let found = if t.0 == sat_pkg {
            first_sat(log, t.0, t.1, sat)
        } else {
            first_sat(log, t.0, t.1, log.len() as int)
        };
        match found {
            Some(j) => if log[j].level > prev {
                log[j].level as int
            } else {
                prev
            },
            None => prev,
        }
    }
}

/// `t` about `q` folded into the resolvent's terms: dropped when `q` is the package
/// being eliminated, intersected (as sets of states) with an existing term about
/// `q`, appended otherwise.
pub open spec fn merge_in(acc: Seq<NamedTerm>, q: Seq<char>, t: TermView, pkg: Seq<char>) -> Seq<NamedTerm> {
    if q == pkg {
        acc
    } else {
        let k = crate::incompat::term_index(acc, q) as int;
        if k < acc.len() {
            acc.update(k, (q, term_intersect(acc[k].1, t)))
        } else {
            acc.push((q, t))
        }
    }
}

/// All of `ts` folded in, from the left.
pub open spec fn merge_all(acc: Seq<NamedTerm>, ts: Seq<NamedTerm>, pkg: Seq<char>) -> Seq<NamedTerm>
    decreases ts.len(),
{
    if ts.len() == 0 {
        acc
    } else {
        merge_in(merge_all(acc, ts.drop_last(), pkg), ts.last().0, ts.last().1, pkg)
    }
}

/// The incompatibility learned by resolving `a` against `b` on `pkg`: the other
/// terms merged, and `pkg`'s two terms unioned and kept unless every state, absence
/// included, satisfies the union.
///
/// Both steps work on states, as the relation does. Two positive terms whose
/// versions cover the whole line still exclude absence, so their union is kept:
/// dropping it would learn that the rest cannot hold even when `pkg` is not
/// selected, which does not follow. Two terms about one other package are
/// intersected as states, so a pair of negative terms stays negative (absence
/// satisfies both); making the intersection positive would likewise learn more
/// than follows. `law_resolvent_sound` proves what is learned is implied.
#[verifier::opaque]
pub open spec fn resolvent(a: Seq<NamedTerm>, b: Seq<NamedTerm>, pkg: Seq<char>) -> Seq<NamedTerm> {
    let m = merge_all(merge_all(Seq::empty(), a, pkg), b, pkg);
    match eliminated(a, b, pkg) {
        Some(t) => m.push((pkg, t)),
        None => m,
    }
}

/// Every term holds in `state`, which gives each package a version or `None`
/// for absent.
pub open spec fn all_hold(terms: Seq<NamedTerm>, state: spec_fn(Seq<char>) -> Option<VersionView>) -> bool {
    forall|k: int| 0 <= k < terms.len() ==> holds(#[trigger] terms[k].1, state(terms[k].0))
}

/// No two terms are about the same package.
pub open spec fn distinct_packages(terms: Seq<NamedTerm>) -> bool {
    forall|i: int, j: int| 0 <= i < j < terms.len() ==> #[trigger] terms[i].0 != #[trigger] terms[j].0
}

/// Every term's intervals are well formed, as a `Range` keeps them.
pub open spec fn terms_wf(terms: Seq<NamedTerm>) -> bool {
    forall|k: int| 0 <= k < terms.len() ==> segs_wf(#[trigger] terms[k].1.range)
}

pub proof fn lemma_term_index_at(terms: Seq<NamedTerm>, q: Seq<char>)
    ensures
        crate::incompat::term_index(terms, q) <= terms.len(),
        crate::incompat::term_index(terms, q) < terms.len() ==> terms[crate::incompat::term_index(terms, q) as int].0 == q,
        forall|k: int| 0 <= k < crate::incompat::term_index(terms, q) ==> #[trigger] terms[k].0 != q,
    decreases terms.len(),
{
    if terms.len() > 0 && terms[0].0 != q {
        let t = terms.drop_first();
        lemma_term_index_at(t, q);
        assert forall|k: int| 0 <= k < crate::incompat::term_index(terms, q) implies #[trigger] terms[k].0 != q by {
            if k > 0 {
                assert(terms[k] == t[k - 1]);
            }
        }
        if crate::incompat::term_index(terms, q) < terms.len() {
            assert(terms[crate::incompat::term_index(terms, q) as int] == t[crate::incompat::term_index(t, q) as int]);
        }
    }
}

/// A term that holds in every state.
proof fn lemma_universal(u: TermView, st: Option<VersionView>)
    requires
        segs_wf(u.range),
        !u.positive,
        segs_complement(allowed(u)).len() == 0,
    ensures
        holds(u, st),
{
    crate::term::lemma_allowed(u);
    crate::range::lemma_complement(allowed(u));
    match st {
        Some(v) => {
            assert(!segs_contain(segs_complement(allowed(u)), v));
            assert(segs_contain(allowed(u), v));
        },
        None => {},
    }
}

#[verifier::spinoff_prover]
proof fn lemma_merge_in(
    acc: Seq<NamedTerm>,
    q: Seq<char>,
    t: TermView,
    pkg: Seq<char>,
    state: spec_fn(Seq<char>) -> Option<VersionView>,
)
    requires
        terms_wf(acc),
        segs_wf(t.range),
    ensures
        terms_wf(merge_in(acc, q, t, pkg)),
        all_hold(merge_in(acc, q, t, pkg), state) ==> all_hold(acc, state) && (q != pkg ==> holds(
            t,
            state(q),
        )),
{
    if q != pkg {
        let k = crate::incompat::term_index(acc, q) as int;
        lemma_term_index_at(acc, q);
        let m = merge_in(acc, q, t, pkg);
        if k < acc.len() {
            crate::term::law_term_intersect(acc[k].1, t, state(q));
            assert(terms_wf(m)) by {
                assert forall|j: int| 0 <= j < m.len() implies segs_wf(#[trigger] m[j].1.range) by {
                    if j != k {
                        assert(m[j] == acc[j]);
                    }
                }
            }
            if all_hold(m, state) {
                assert(holds(m[k].1, state(m[k].0)));
                assert forall|j: int| 0 <= j < acc.len() implies holds(#[trigger] acc[j].1, state(acc[j].0)) by {
                    if j != k {
                        assert(m[j] == acc[j]);
                        assert(holds(m[j].1, state(m[j].0)));
                    }
                }
            }
        } else {
            assert(terms_wf(m)) by {
                assert forall|j: int| 0 <= j < m.len() implies segs_wf(#[trigger] m[j].1.range) by {
                    if j < acc.len() {
                        assert(m[j] == acc[j]);
                    }
                }
            }
            if all_hold(m, state) {
                assert(holds(m[acc.len() as int].1, state(m[acc.len() as int].0)));
                assert forall|j: int| 0 <= j < acc.len() implies holds(#[trigger] acc[j].1, state(acc[j].0)) by {
                    assert(m[j] == acc[j]);
                    assert(holds(m[j].1, state(m[j].0)));
                }
            }
        }
    }
}

pub proof fn lemma_merge_all(
    acc: Seq<NamedTerm>,
    ts: Seq<NamedTerm>,
    pkg: Seq<char>,
    state: spec_fn(Seq<char>) -> Option<VersionView>,
)
    requires
        terms_wf(acc),
        terms_wf(ts),
    ensures
        terms_wf(merge_all(acc, ts, pkg)),
        all_hold(merge_all(acc, ts, pkg), state) ==> all_hold(acc, state) && forall|k: int|
            0 <= k < ts.len() && ts[k].0 != pkg ==> holds(#[trigger] ts[k].1, state(ts[k].0)),
    decreases ts.len(),
{
    if ts.len() > 0 {
        let init = ts.drop_last();
        assert(terms_wf(init)) by {
            assert forall|k: int| 0 <= k < init.len() implies segs_wf(#[trigger] init[k].1.range) by {
                assert(init[k] == ts[k]);
            }
        }
        lemma_merge_all(acc, init, pkg, state);
        assert(segs_wf(ts[ts.len() - 1].1.range));
        lemma_merge_in(merge_all(acc, init, pkg), ts.last().0, ts.last().1, pkg, state);
        if all_hold(merge_all(acc, ts, pkg), state) {
            assert forall|k: int| 0 <= k < ts.len() && ts[k].0 != pkg implies holds(#[trigger] ts[k].1, state(ts[k].0)) by {
                if k < ts.len() - 1 {
                    assert(init[k] == ts[k]);
                }
            }
        }
    }
}

/// The whole of `a` holds when its terms about packages other than `pkg` hold
/// and its one term about `pkg`, if any, holds.
proof fn lemma_all_hold_split(
    a: Seq<NamedTerm>,
    pkg: Seq<char>,
    state: spec_fn(Seq<char>) -> Option<VersionView>,
)
    requires
        distinct_packages(a),
        forall|k: int| 0 <= k < a.len() && a[k].0 != pkg ==> holds(#[trigger] a[k].1, state(a[k].0)),
        term_of(a, pkg) matches Some(x) ==> holds(x, state(pkg)),
    ensures
        all_hold(a, state),
{
    lemma_term_index_at(a, pkg);
    let i = crate::incompat::term_index(a, pkg) as int;
    assert forall|k: int| 0 <= k < a.len() implies holds(#[trigger] a[k].1, state(a[k].0)) by {
        if a[k].0 == pkg {
            if i < a.len() {
                if k != i {
                    if k < i {
                        assert(a[k].0 != pkg);
                    } else {
                        assert(a[i].0 != a[k].0);
                    }
                }
            }
        }
    }
}

/// Resolution is sound: a state in which every term of the incompatibility
/// learned from `a` and `b` on `pkg` holds is one in which every term of `a`
/// or every term of `b` holds. So when neither `a` nor `b` can be satisfied,
/// neither can what is learned from them, and a terminal incompatibility is a
/// proof.
pub proof fn law_resolvent_sound(
    a: Seq<NamedTerm>,
    b: Seq<NamedTerm>,
    pkg: Seq<char>,
    state: spec_fn(Seq<char>) -> Option<VersionView>,
)
    requires
        distinct_packages(a),
        distinct_packages(b),
        terms_wf(a),
        terms_wf(b),
    ensures
        all_hold(resolvent(a, b, pkg), state) ==> all_hold(a, state) || all_hold(b, state),
{
    reveal(resolvent);
    let m0 = merge_all(Seq::empty(), a, pkg);
    let m = merge_all(m0, b, pkg);
    assert(terms_wf(Seq::<NamedTerm>::empty()));
    lemma_merge_all(Seq::empty(), a, pkg, state);
    lemma_merge_all(m0, b, pkg, state);
    let r = resolvent(a, b, pkg);
    if all_hold(r, state) {
        assert(all_hold(m, state)) by {
            if let Some(u) = eliminated(a, b, pkg) {
                assert(r == m.push((pkg, u)));
                assert forall|k: int| 0 <= k < m.len() implies holds(#[trigger] m[k].1, state(m[k].0)) by {
                    assert(r[k] == m[k]);
                }
            }
        }
        lemma_term_index_at(a, pkg);
        lemma_term_index_at(b, pkg);
        let xa = term_of(a, pkg);
        let xb = term_of(b, pkg);
        if let Some(x) = xa {
            assert(segs_wf(x.range));
        }
        if let Some(y) = xb {
            assert(segs_wf(y.range));
        }
        // which of the two terms about `pkg` holds
        let pick_a: bool = match (xa, xb) {
            (Some(x), Some(y)) => {
                crate::term::law_term_union(x, y, state(pkg));
                let u = term_union(x, y);
                if !(!u.positive && segs_complement(allowed(u)).len() == 0) {
                    assert(r[m.len() as int] == (pkg, u));
                    assert(holds(r[m.len() as int].1, state(r[m.len() as int].0)));
                } else {
                    lemma_universal(u, state(pkg));
                }
                holds(x, state(pkg))
            },
            (Some(x), None) => {
                if !(!x.positive && segs_complement(allowed(x)).len() == 0) {
                    assert(r[m.len() as int] == (pkg, x));
                    assert(holds(r[m.len() as int].1, state(r[m.len() as int].0)));
                } else {
                    lemma_universal(x, state(pkg));
                }
                true
            },
            (None, Some(y)) => {
                if !(!y.positive && segs_complement(allowed(y)).len() == 0) {
                    assert(r[m.len() as int] == (pkg, y));
                    assert(holds(r[m.len() as int].1, state(r[m.len() as int].0)));
                } else {
                    lemma_universal(y, state(pkg));
                }
                false
            },
            (None, None) => true,
        };
        if pick_a {
            lemma_all_hold_split(a, pkg, state);
        } else {
            lemma_all_hold_split(b, pkg, state);
        }
    }
}

/// Every assignment of the log states its term over well-formed intervals.
pub open spec fn log_terms_wf(log: Seq<AssignView>) -> bool {
    forall|i: int| 0 <= i < log.len() ==> segs_wf(#[trigger] log[i].term.range)
}

/// The state `state` gives each package is one the first `upto` assignments allow.
proof fn lemma_state_spec(log: Seq<AssignView>, pkg: Seq<char>, upto: int, st: Option<VersionView>)
    requires
        log_terms_wf(log),
        0 <= upto <= log.len(),
    ensures
        segs_wf(state_spec(log, pkg, upto).range),
        holds(state_spec(log, pkg, upto), st) == forall|i: int|
            0 <= i < upto && (#[trigger] log[i]).package == pkg ==> holds(log[i].term, st),
    decreases upto,
{
    if upto > 0 {
        lemma_state_spec(log, pkg, upto - 1, st);
        assert(segs_wf(log[upto - 1].term.range));
        if log[upto - 1].package == pkg {
            crate::term::law_term_intersect(state_spec(log, pkg, upto - 1), log[upto - 1].term, st);
        }
        assert((forall|i: int| 0 <= i < upto && (#[trigger] log[i]).package == pkg ==> holds(log[i].term, st))
            == ((forall|i: int| 0 <= i < upto - 1 && (#[trigger] log[i]).package == pkg ==> holds(log[i].term, st))
            && (log[upto - 1].package == pkg ==> holds(log[upto - 1].term, st))));
    } else {
        assert(segs_wf(Seq::<Seg>::empty()));
    }
}

/// A state of every package that every assignment of the log allows.
pub open spec fn allowed_by(log: Seq<AssignView>, state: spec_fn(Seq<char>) -> Option<VersionView>) -> bool {
    forall|i: int| 0 <= i < log.len() ==> holds(#[trigger] log[i].term, state(log[i].package))
}

/// Conflicts are real: when every term of an incompatibility is satisfied by
/// the partial solution, every state the partial solution allows satisfies the
/// whole incompatibility, so no extension of the partial solution avoids it.
pub proof fn law_conflict_sound(
    log: Seq<AssignView>,
    terms: Seq<NamedTerm>,
    state: spec_fn(Seq<char>) -> Option<VersionView>,
)
    requires
        log_terms_wf(log),
        terms_wf(terms),
        forall|k: int| 0 <= k < terms.len() ==> rel_at(log, #[trigger] terms[k]) == Relation::Satisfied,
        allowed_by(log, state),
    ensures
        all_hold(terms, state),
{
    assert forall|k: int| 0 <= k < terms.len() implies holds(#[trigger] terms[k].1, state(terms[k].0)) by {
        let q = terms[k].0;
        lemma_state_spec(log, q, log.len() as int, state(q));
        assert(rel_at(log, terms[k]) == Relation::Satisfied);
        crate::term::law_relation_to(terms[k].1, state_spec(log, q, log.len() as int), state(q));
    }
}

/// Unit propagation is sound: when every term of an incompatibility but the
/// `k`th is satisfied by the partial solution, every state the partial solution
/// allows that does not satisfy the whole incompatibility satisfies the
/// negation of the `k`th term, the fact that is derived.
pub proof fn law_unit_sound(
    log: Seq<AssignView>,
    terms: Seq<NamedTerm>,
    k: int,
    state: spec_fn(Seq<char>) -> Option<VersionView>,
)
    requires
        log_terms_wf(log),
        terms_wf(terms),
        0 <= k < terms.len(),
        forall|j: int| 0 <= j < terms.len() && j != k ==> rel_at(log, #[trigger] terms[j]) == Relation::Satisfied,
        allowed_by(log, state),
        !all_hold(terms, state),
    ensures
        holds(TermView { positive: !terms[k].1.positive, range: terms[k].1.range }, state(terms[k].0)),
{
    assert forall|j: int| 0 <= j < terms.len() && j != k implies holds(#[trigger] terms[j].1, state(terms[j].0)) by {
        let q = terms[j].0;
        lemma_state_spec(log, q, log.len() as int, state(q));
        crate::term::law_relation_to(terms[j].1, state_spec(log, q, log.len() as int), state(q));
    }
    crate::term::law_negate(terms[k].1, state(terms[k].0));
}

proof fn lemma_first_sat_stable(log: Seq<AssignView>, pkg: Seq<char>, t: TermView, k: int, m: int)
    requires
        k <= m,
        first_sat(log, pkg, t, k) is Some,
    ensures
        first_sat(log, pkg, t, m) == first_sat(log, pkg, t, k),
    decreases m - k,
{
    if k < m {
        lemma_first_sat_stable(log, pkg, t, k, m - 1);
    }
}

proof fn lemma_first_sat_bound(log: Seq<AssignView>, pkg: Seq<char>, t: TermView, upto: int)
    ensures
        first_sat(log, pkg, t, upto) matches Some(i) ==> 0 <= i < upto,
    decreases upto,
{
    if upto > 0 {
        lemma_first_sat_bound(log, pkg, t, upto - 1);
    }
}

/// Levels never fall along a well-formed log.
proof fn lemma_levels_monotone(asg: Seq<AssignView>)
    requires
        forall|i: int|
            0 <= i < asg.len() - 1 ==> (#[trigger] asg[i]).level <= asg[i + 1].level <= asg[i].level + 1,
    ensures
        forall|i: int, j: int| 0 <= i <= j < asg.len() ==> (#[trigger] asg[i]).level <= (#[trigger] asg[j]).level,
{
    assert forall|i: int, j: int| 0 <= i <= j < asg.len() implies (#[trigger] asg[i]).level <= (
    #[trigger] asg[j]).level by {
        lemma_levels_between(asg, i, j);
    }
}

proof fn lemma_levels_between(asg: Seq<AssignView>, i: int, j: int)
    requires
        0 <= i <= j < asg.len(),
        forall|k: int|
            0 <= k < asg.len() - 1 ==> (#[trigger] asg[k]).level <= asg[k + 1].level <= asg[k].level + 1,
    ensures
        asg[i].level <= asg[j].level,
    decreases j - i,
{
    if i < j {
        lemma_levels_between(asg, i, j - 1);
        assert(asg[j - 1].level <= asg[j].level);
    }
}

pub struct Solver<'a, P: Provider + ?Sized> {
    provider: &'a P,
    pub incompats: Vec<Incompatibility>,
    index: Vec<(String, Vec<IncompatId>)>,
    assignments: Vec<Assignment>,
    level: usize,
    root_version: Version,
    /// The decision rounds a resolution had started when it stopped.
    rounds: Ghost<nat>,
    /// The propagation and resolution steps a resolution had spent when it stopped.
    steps: Ghost<nat>,
    /// The package versions whose dependencies a resolution asked the provider for.
    queried: Ghost<Seq<(Seq<char>, VersionView)>>,
}

enum Eval {
    Conflict,
    Unit(String, Term),
    Ignore,
}

enum Conflict {
    NoSolution(IncompatId),
    Learned(String),
}

/// The resolvent's term for the eliminated package: the union (as sets of
/// states) of its two terms, kept unless every state satisfies it.
pub open spec fn eliminated(a: Seq<NamedTerm>, b: Seq<NamedTerm>, pkg: Seq<char>) -> Option<TermView> {
    let combined = match (term_of(a, pkg), term_of(b, pkg)) {
        (Some(x), Some(y)) => Some(term_union(x, y)),
        (Some(x), None) => Some(x),
        (None, Some(y)) => Some(y),
        (None, None) => None,
    };
    match combined {
        Some(u) => if !(!u.positive && segs_complement(allowed(u)).len() == 0) {
            Some(u)
        } else {
            None
        },
        None => None,
    }
}

/// What a well-formed log guarantees about one of its assignments.
proof fn lemma_log_at(asg: Seq<AssignView>, level: nat, n: nat, i: int)
    requires
        log_wf(asg, level, n),
        0 <= i < asg.len(),
    ensures
        asg.len() >= 1,
        asg[0].level == 1,
        asg[0].decision,
        asg.last().level == level,
        asg[i].level <= i + 1,
        !asg[i].decision ==> asg[i].cause is Some && asg[i].cause->0 < n,
        asg[i].decision ==> lower_of(asg[i].term.range) is Some,
        forall|x: int, y: int| 0 <= x <= y < asg.len() ==> (#[trigger] asg[x]).level <= (#[trigger] asg[y]).level,
        asg[i].level <= level,
{
    reveal(log_wf);
    lemma_levels_monotone(asg);
}

proof fn lemma_log_wf_grow(asg: Seq<AssignView>, level: nat, n: nat)
    requires
        log_wf(asg, level, n),
    ensures
        log_wf(asg, level, n + 1),
{
    reveal(log_wf);
}

fn eliminated_term(a: &Incompatibility, b: &Incompatibility, pkg: &str) -> (r: Option<Term>)
    ensures
        match r {
            Some(t) => eliminated(a@.terms, b@.terms, pkg@) == Some(t@),
            None => eliminated(a@.terms, b@.terms, pkg@) is None,
        },
{
    let combined = match (a.term_for(pkg), b.term_for(pkg)) {
        (Some(x), Some(y)) => Some(x.union(y)),
        (Some(x), None) => Some(x.clone()),
        (None, Some(y)) => Some(y.clone()),
        (None, None) => None,
    };
    match combined {
        Some(u) => {
            if !u.is_universal() {
                Some(u)
            } else {
                None
            }
        },
        None => None,
    }
}

/// The last of the greatest versions of a nonempty list.
pub open spec fn last_max(s: Seq<VersionView>) -> VersionView
    decreases s.len(),
{
    if s.len() <= 1 {
        s[0]
    } else {
        let m = last_max(s.drop_last());
        if version_compare(s.last(), m) != Order::Less {
            s.last()
        } else {
            m
        }
    }
}

/// The versions of `vs` that `allowed` holds, in order.
pub open spec fn matching(vs: Seq<VersionView>, allowed: Seq<Seg>) -> Seq<VersionView>
    decreases vs.len(),
{
    if vs.len() == 0 {
        Seq::empty()
    } else {
        let r = matching(vs.drop_last(), allowed);
        if crate::range::segs_contain(allowed, vs.last()) {
            r.push(vs.last())
        } else {
            r
        }
    }
}

/// The stable releases of `vs`, in order.
pub open spec fn stable_only(vs: Seq<VersionView>) -> Seq<VersionView>
    decreases vs.len(),
{
    if vs.len() == 0 {
        Seq::empty()
    } else {
        let r = stable_only(vs.drop_last());
        if vs.last().pre.len() == 0 {
            r.push(vs.last())
        } else {
            r
        }
    }
}

/// The version to try: the greatest stable release among the matching ones, and
/// only when there is none the greatest prerelease; among equals the last listed.
pub open spec fn best_of(vs: Seq<VersionView>, allowed: Seq<Seg>) -> Option<VersionView> {
    let m = matching(vs, allowed);
    let stable = stable_only(m);
    if stable.len() > 0 {
        Some(last_max(stable))
    } else if m.len() > 0 {
        Some(last_max(m))
    } else {
        None
    }
}

proof fn lemma_matching(vs: Seq<VersionView>, allowed: Seq<Seg>)
    ensures
        forall|x: VersionView|
            #![trigger matching(vs, allowed).contains(x)]
            #![trigger vs.contains(x)]
            matching(vs, allowed).contains(x) <==> (vs.contains(x) && crate::range::segs_contain(allowed, x)),
    decreases vs.len(),
{
    if vs.len() > 0 {
        let t = vs.drop_last();
        lemma_matching(t, allowed);
        let r = matching(t, allowed);
        assert forall|x: VersionView|
            matching(vs, allowed).contains(x) <==> (vs.contains(x) && crate::range::segs_contain(allowed, x)) by {
            if vs.contains(x) {
                let i = choose|i: int| 0 <= i < vs.len() && vs[i] == x;
                if i < vs.len() - 1 {
                    assert(t[i] == x);
                }
            }
            if t.contains(x) {
                let i = choose|i: int| 0 <= i < t.len() && t[i] == x;
                assert(vs[i] == x);
            }
            if crate::range::segs_contain(allowed, vs.last()) {
                let m = r.push(vs.last());
                if m.contains(x) {
                    let i = choose|i: int| 0 <= i < m.len() && m[i] == x;
                    if i < r.len() {
                        assert(r[i] == x);
                    }
                }
                if r.contains(x) {
                    let i = choose|i: int| 0 <= i < r.len() && r[i] == x;
                    assert(m[i] == x);
                }
                assert(m[r.len() as int] == vs.last());
            }
        }
    }
}

proof fn lemma_stable_only(vs: Seq<VersionView>)
    ensures
        forall|x: VersionView|
            #![trigger stable_only(vs).contains(x)]
            #![trigger vs.contains(x)]
            stable_only(vs).contains(x) <==> (vs.contains(x) && x.pre.len() == 0),
    decreases vs.len(),
{
    if vs.len() > 0 {
        let t = vs.drop_last();
        lemma_stable_only(t);
        let r = stable_only(t);
        assert forall|x: VersionView| stable_only(vs).contains(x) <==> (vs.contains(x) && x.pre.len() == 0) by {
            if vs.contains(x) {
                let i = choose|i: int| 0 <= i < vs.len() && vs[i] == x;
                if i < vs.len() - 1 {
                    assert(t[i] == x);
                }
            }
            if t.contains(x) {
                let i = choose|i: int| 0 <= i < t.len() && t[i] == x;
                assert(vs[i] == x);
            }
            if vs.last().pre.len() == 0 {
                let m = r.push(vs.last());
                if m.contains(x) {
                    let i = choose|i: int| 0 <= i < m.len() && m[i] == x;
                    if i < r.len() {
                        assert(r[i] == x);
                    }
                }
                if r.contains(x) {
                    let i = choose|i: int| 0 <= i < r.len() && r[i] == x;
                    assert(m[i] == x);
                }
                assert(m[r.len() as int] == vs.last());
            }
        }
    }
}

proof fn lemma_last_max(s: Seq<VersionView>)
    requires
        s.len() > 0,
    ensures
        s.contains(last_max(s)),
        forall|x: VersionView| s.contains(x) ==> version_compare(x, last_max(s)) != Order::Greater,
    decreases s.len(),
{
    crate::version::version_order_laws(s[0], s[0], s[0]);
    if s.len() == 1 {
        assert forall|x: VersionView| s.contains(x) implies version_compare(x, last_max(s)) != Order::Greater by {
            let i = choose|i: int| 0 <= i < s.len() && s[i] == x;
        }
    } else {
        let t = s.drop_last();
        lemma_last_max(t);
        let m = last_max(t);
        let j = choose|j: int| 0 <= j < t.len() && t[j] == m;
        assert(s[j] == m);
        crate::version::version_order_laws(s.last(), m, s.last());
        assert forall|x: VersionView| s.contains(x) implies version_compare(x, last_max(s)) != Order::Greater by {
            let i = choose|i: int| 0 <= i < s.len() && s[i] == x;
            crate::version::version_order_laws(x, m, s.last());
            crate::version::version_order_laws(x, x, x);
            if i < s.len() - 1 {
                assert(t[i] == x);
                assert(t.contains(x));
            }
        }
        assert(s[s.len() - 1] == s.last());
    }
}

proof fn lemma_last_max_push(s: Seq<VersionView>, x: VersionView)
    ensures
        last_max(s.push(x)) == (if s.len() == 0 {
            x
        } else if version_compare(x, last_max(s)) != Order::Less {
            x
        } else {
            last_max(s)
        }),
{
    assert(s.push(x).drop_last() =~= s);
}

/// The version selection policy holds: the version tried is one of the allowed
/// published versions and no allowed version is greater, except that a stable
/// release is preferred to any prerelease.
pub proof fn law_best_version(vs: Seq<VersionView>, allowed: Seq<Seg>)
    ensures
        best_of(vs, allowed) is Some <==> matching(vs, allowed).len() > 0,
        best_of(vs, allowed) matches Some(b) ==> {
            &&& vs.contains(b)
            &&& crate::range::segs_contain(allowed, b)
            &&& forall|v: VersionView|
                vs.contains(v) && crate::range::segs_contain(allowed, v) && (v.pre.len() == 0 || b.pre.len()
                    != 0) ==> version_compare(v, b) != Order::Greater
            &&& (b.pre.len() != 0 ==> forall|v: VersionView|
                vs.contains(v) && crate::range::segs_contain(allowed, v) ==> v.pre.len() != 0)
        },
{
    let m = matching(vs, allowed);
    let stable = stable_only(m);
    lemma_matching(vs, allowed);
    lemma_stable_only(m);
    if stable.len() > 0 {
        lemma_last_max(stable);
        let b = last_max(stable);
        assert(stable.contains(b));
        assert(b.pre.len() == 0);
        assert forall|v: VersionView|
            vs.contains(v) && crate::range::segs_contain(allowed, v) && (v.pre.len() == 0 || b.pre.len() != 0)
            implies version_compare(v, b) != Order::Greater by {
            assert(m.contains(v));
            assert(stable.contains(v));
        }
    } else if m.len() > 0 {
        lemma_last_max(m);
        let b = last_max(m);
        assert forall|v: VersionView| vs.contains(v) && crate::range::segs_contain(allowed, v) implies v.pre.len()
            != 0 by {
            assert(m.contains(v));
            if v.pre.len() == 0 {
                assert(stable.contains(v));
            }
        }
    } else {
        if exists|v: VersionView| vs.contains(v) && crate::range::segs_contain(allowed, v) {
            let v = choose|v: VersionView| vs.contains(v) && crate::range::segs_contain(allowed, v);
            assert(m.contains(v));
        }
    }
}

/// Picks the version to try for a package among `versions`, by the selection policy.
pub fn best_version(versions: &Vec<Version>, allowed: &Range) -> (r: Option<Version>)
    ensures
        match r {
            Some(v) => best_of(versions@.map_values(|x: Version| x@), allowed@) == Some(v@),
            None => best_of(versions@.map_values(|x: Version| x@), allowed@) is None,
        },
{
    let ghost vs = versions@.map_values(|x: Version| x@);
    let mut best_stable: Option<usize> = None;
    let mut best_any: Option<usize> = None;
    let mut i: usize = 0;
    proof {
        assert(vs.take(0) =~= Seq::<VersionView>::empty());
    }
    while i < versions.len()
        invariant
            i <= versions@.len(),
            vs == versions@.map_values(|x: Version| x@),
            match best_any {
                Some(k) => k < i && matching(vs.take(i as int), allowed@).len() > 0 && last_max(
                    matching(vs.take(i as int), allowed@),
                ) == vs[k as int],
                None => matching(vs.take(i as int), allowed@).len() == 0,
            },
            match best_stable {
                Some(k) => k < i && stable_only(matching(vs.take(i as int), allowed@)).len() > 0
                    && last_max(stable_only(matching(vs.take(i as int), allowed@))) == vs[k as int],
                None => stable_only(matching(vs.take(i as int), allowed@)).len() == 0,
            },
        decreases versions@.len() - i,
    {
        let v = &versions[i];
        let ghost prev_m = matching(vs.take(i as int), allowed@);
        let ghost prev_s = stable_only(prev_m);
        proof {
            assert(vs[i as int] == v@);
            assert(vs.take(i + 1).drop_last() =~= vs.take(i as int));
            assert(vs.take(i + 1).last() == v@);
        }
        if allowed.contains(v) {
            proof {
                assert(matching(vs.take(i + 1), allowed@) == prev_m.push(v@));
                assert(prev_m.push(v@).drop_last() =~= prev_m);
                lemma_last_max_push(prev_m, v@);
                lemma_last_max_push(prev_s, v@);
                match best_any {
                    Some(k) => {
                        assert(vs[k as int] == versions@[k as int]@);
                    },
                    None => {},
                }
                match best_stable {
                    Some(k) => {
                        assert(vs[k as int] == versions@[k as int]@);
                    },
                    None => {},
                }
            }
            let take_any = match best_any {
                Some(k) => v.compare(&versions[k]) != Order::Less,
                None => true,
            };
            if take_any {
                best_any = Some(i);
            }
            if v.is_stable() {
                proof {
                    assert(stable_only(prev_m.push(v@)) == prev_s.push(v@));
                }
                let take_stable = match best_stable {
                    Some(k) => v.compare(&versions[k]) != Order::Less,
                    None => true,
                };
                if take_stable {
                    best_stable = Some(i);
                }
            } else {
                proof {
                    assert(stable_only(prev_m.push(v@)) == prev_s);
                }
            }
        } else {
            proof {
                assert(matching(vs.take(i + 1), allowed@) == prev_m);
            }
        }
        i = i + 1;
    }
    proof {
        assert(vs.take(versions@.len() as int) =~= vs);
    }
    match best_stable {
        Some(k) => Some(versions[k].clone()),
        None => match best_any {
            Some(k) => Some(versions[k].clone()),
            None => None,
        },
    }
}

proof fn lemma_matching_len(vs: Seq<VersionView>, allowed: Seq<Seg>)
    ensures
        matching(vs, allowed).len() <= vs.len(),
    decreases vs.len(),
{
    if vs.len() > 0 {
        lemma_matching_len(vs.drop_last(), allowed);
    }
}

/// How many of `vs` the range `allowed` holds.
pub open spec fn count_matching(vs: Seq<VersionView>, allowed: Seq<Seg>) -> nat {
    matching(vs, allowed).len()
}

/// Counts the versions of a list that `allowed` holds.
pub fn count_allowed(versions: &Vec<Version>, allowed: &Range) -> (r: usize)
    ensures
        r == count_matching(versions@.map_values(|x: Version| x@), allowed@),
{
    let ghost vs = versions@.map_values(|x: Version| x@);
    let mut n: usize = 0;
    let mut i: usize = 0;
    proof {
        assert(vs.take(0) =~= Seq::<VersionView>::empty());
    }
    while i < versions.len()
        invariant
            i <= versions@.len(),
            vs == versions@.map_values(|x: Version| x@),
            n == count_matching(vs.take(i as int), allowed@),
            n <= i,
        decreases versions@.len() - i,
    {
        proof {
            assert(vs[i as int] == versions@[i as int]@);
            assert(vs.take(i + 1).drop_last() =~= vs.take(i as int));
            assert(vs.take(i + 1).last() == vs[i as int]);
        }
        if allowed.contains(&versions[i]) {
            n = n + 1;
        }
        i = i + 1;
    }
    proof {
        assert(vs.take(versions@.len() as int) =~= vs);
    }
    n
}

/// The terms of the incompatibility learned by resolving `a` against `b` on `pkg`.
fn resolvent_terms(a: &Incompatibility, b: &Incompatibility, pkg: &str) -> (r: Vec<(String, Term)>)
    ensures
        named_terms(r@) == resolvent(a@.terms, b@.terms, pkg@),
{
    let mut merged: Vec<(String, Term)> = Vec::new();
    proof {
        assert(named_terms(merged@) =~= Seq::<NamedTerm>::empty());
    }
    merge_terms_into(&mut merged, &a.terms, pkg);
    merge_terms_into(&mut merged, &b.terms, pkg);
    let ghost m = named_terms(merged@);
    proof {
        reveal(resolvent);
    }
    if let Some(term) = eliminated_term(a, b, pkg) {
        let name = crate::text::string_of(chars_of(pkg).as_slice());
        let ghost tv = term@;
        merged.push((name, term));
        proof {
            assert(named_terms(merged@) =~= m.push((pkg@, tv)));
        }
    }
    merged
}

/// The version the synthetic root package is decided at.
pub open spec fn root_version() -> VersionView {
    VersionView { major: 1, minor: 0, patch: 0, pre: Seq::empty() }
}

/// The term "the version is exactly `v`".
pub open spec fn exact_term(v: VersionView) -> TermView {
    TermView { positive: true, range: seq![(crate::range::before(v), crate::range::after(v))] }
}

/// The incompatibility recording that `package`@`v` depends on `dep` within `r`:
/// `package` at `v` together with `dep` outside `r` is impossible.
pub open spec fn dependency_incompat(package: Seq<char>, v: VersionView, dep: Seq<char>, r: Seq<Seg>) -> IncompatView {
    IncompatView {
        terms: seq![(package, exact_term(v)), (dep, TermView { positive: false, range: r })],
        cause: CauseView::Dependency { package, version: crate::version::version_text(v), dep },
    }
}

/// The store begins with the project's own dependencies, in order, each on the
/// root package at the root version.
pub open spec fn root_prefix(store: Seq<IncompatView>, deps: Seq<(String, Range)>) -> bool {
    &&& store.len() >= deps.len()
    &&& forall|j: int|
        0 <= j < deps.len() ==> #[trigger] store[j] == dependency_incompat(
            ROOT@,
            root_version(),
            deps[j].0@,
            deps[j].1@,
        )
}

proof fn lemma_root_prefix(a: Seq<IncompatView>, b: Seq<IncompatView>, deps: Seq<(String, Range)>)
    requires
        root_prefix(a, deps),
        extends(a, b),
    ensures
        root_prefix(b, deps),
{
    assert forall|j: int| 0 <= j < deps.len() implies #[trigger] b[j] == dependency_incompat(
        ROOT@,
        root_version(),
        deps[j].0@,
        deps[j].1@,
    ) by {
        assert(a[j] == dependency_incompat(ROOT@, root_version(), deps[j].0@, deps[j].1@));
    }
}

proof fn lemma_level_bound(asg: Seq<AssignView>, level: nat, n: nat)
    requires
        log_wf(asg, level, n),
    ensures
        asg.len() >= 1,
        level <= asg.len(),
{
    reveal(log_wf);
    assert(asg[asg.len() - 1].level <= asg.len());
}

/// The state of a package pinned to the root version: that version alone.
pub open spec fn root_point() -> TermView {
    exact_term(root_version())
}

/// A log whose only assignment about the root package is its first, the root
/// decision, leaves the root package at exactly the root version.
proof fn lemma_root_state(log: Seq<AssignView>, upto: int)
    requires
        1 <= upto <= log.len(),
        log[0].package == ROOT@,
        log[0].term == root_point(),
        forall|i: int| 0 < i < log.len() ==> (#[trigger] log[i]).package != ROOT@,
    ensures
        state_spec(log, ROOT@, upto) == root_point(),
    decreases upto,
{
    if upto > 1 {
        lemma_root_state(log, upto - 1);
        assert(log[upto - 1].package != ROOT@);
    } else {
        let w = root_version();
        let b = crate::range::before(w);
        let a = crate::range::after(w);
        let pt = seq![(b, a)];
        crate::range::lemma_cut_ends(b);
        crate::range::lemma_cut_ends(a);
        crate::range::lemma_cut_split(b, w);
        crate::range::lemma_cut_laws(a, a, a);
        let whole = segs_complement(Seq::<Seg>::empty());
        assert(whole == seq![(CutView::NegInf, CutView::PosInf)]);
        assert(crate::range::cut_max(CutView::NegInf, b) == b);
        assert(crate::range::cut_min(CutView::PosInf, a) == a) by {
            crate::range::lemma_cut_laws(CutView::PosInf, a, a);
        }
        assert(!crate::range::cut_le(CutView::PosInf, a)) by {
            crate::range::lemma_cut_laws(CutView::PosInf, a, CutView::PosInf);
        }
        assert(whole.drop_first() =~= Seq::<Seg>::empty());
        assert(pt.drop_first() =~= Seq::<Seg>::empty());
        assert(segs_intersect(whole, pt.drop_first()) == Seq::<Seg>::empty());
        assert(segs_intersect(whole, pt) =~= pt);
        assert(state_spec(log, ROOT@, 0) == any_state_view());
    }
}

/// Against the root version alone every well-formed term is decided: it holds
/// or it cannot.
proof fn lemma_point_decides(t: TermView)
    requires
        segs_wf(t.range),
    ensures
        relation_to_spec(t, root_point()) != Relation::Inconclusive,
{
    crate::term::lemma_allowed(t);
    crate::range::lemma_point_intersect(root_version(), allowed(t));
}

/// The root version satisfies the root decision's own term.
proof fn lemma_root_satisfies()
    ensures
        relation_to_spec(root_point(), root_point()) == Relation::Satisfied,
{
    let w = root_version();
    let b = crate::range::before(w);
    let a = crate::range::after(w);
    let pt = seq![(b, a)];
    crate::range::lemma_cut_split(b, w);
    crate::range::lemma_cut_laws(a, a, a);
    crate::range::lemma_cut_laws(b, b, b);
    assert(pt.drop_first() =~= Seq::<Seg>::empty());
    assert(crate::range::cut_max(b, b) == b);
    assert(crate::range::cut_min(a, a) == a);
    assert(segs_intersect(pt.drop_first(), pt) == Seq::<Seg>::empty());
    assert(segs_intersect(pt, pt) =~= pt);
}

/// Every package some positive assignment requires, other than `root`, is a
/// required name; and no required name is `root`.
proof fn lemma_required_names(log: Seq<AssignView>, root: Seq<char>)
    ensures
        forall|j: int|
            0 <= j < log.len() && (#[trigger] log[j]).term.positive && log[j].package != root ==> required_names(
                log,
                root,
            ).contains(log[j].package),
        forall|x: Seq<char>| #[trigger] required_names(log, root).contains(x) ==> x != root,
    decreases log.len(),
{
    if log.len() > 0 {
        let pre = log.drop_last();
        lemma_required_names(pre, root);
        let s = required_names(pre, root);
        let r = required_names(log, root);
        assert forall|x: Seq<char>| s.contains(x) implies #[trigger] r.contains(x) by {
            let w = choose|w: int| 0 <= w < s.len() && s[w] == x;
            if r != s {
                assert(r[w] == x);
            }
        }
        assert forall|j: int|
            0 <= j < log.len() && (#[trigger] log[j]).term.positive && log[j].package != root implies r.contains(
            log[j].package,
        ) by {
            if j < log.len() - 1 {
                assert(pre[j] == log[j]);
                assert(s.contains(log[j].package));
            } else {
                if !s.contains(log[j].package) {
                    assert(r[s.len() as int] == log[j].package);
                }
            }
        }
        assert forall|x: Seq<char>| #[trigger] r.contains(x) implies x != root by {
            let w = choose|w: int| 0 <= w < r.len() && r[w] == x;
            if w < s.len() {
                if r != s {
                    assert(r[w] == s[w]);
                }
                assert(s[w] == x);
                assert(s.contains(x));
            } else {
                assert(r != s);
                assert(r == s.push(log.last().package));
            }
        }
    }
}

/// A name of `names` that no decision chose is still undecided; an undecided
/// name is one of `names`.
proof fn lemma_undecided(names: Seq<Seq<char>>, log: Seq<AssignView>)
    ensures
        forall|x: Seq<char>| names.contains(x) && !decided(log, x) ==> #[trigger] undecided(names, log).contains(x),
        forall|x: Seq<char>| #[trigger] undecided(names, log).contains(x) ==> names.contains(x),
    decreases names.len(),
{
    if names.len() > 0 {
        let pre = names.drop_last();
        lemma_undecided(pre, log);
        let u = undecided(pre, log);
        let r = undecided(names, log);
        assert forall|x: Seq<char>| names.contains(x) && !decided(log, x) implies #[trigger] r.contains(x) by {
            let w = choose|w: int| 0 <= w < names.len() && names[w] == x;
            if w < names.len() - 1 {
                assert(pre[w] == x);
                assert(u.contains(x));
                let v = choose|v: int| 0 <= v < u.len() && u[v] == x;
                assert(r[v] == x);
            } else {
                assert(r[u.len() as int] == x);
            }
        }
        assert forall|x: Seq<char>| #[trigger] r.contains(x) implies names.contains(x) by {
            let v = choose|v: int| 0 <= v < r.len() && r[v] == x;
            if v < u.len() {
                if r != u {
                    assert(r[v] == u[v]);
                }
                assert(u[v] == x);
                assert(u.contains(x));
                let w = choose|w: int| 0 <= w < pre.len() && pre[w] == x;
                assert(names[w] == x);
            } else {
                assert(names[names.len() - 1] == x);
            }
        }
    }
}

/// Every level of a well-formed log lies between one and the current level.
proof fn lemma_level_range(asg: Seq<AssignView>, level: nat, n: nat)
    requires
        log_wf(asg, level, n),
    ensures
        level >= 1,
        forall|i: int| 0 <= i < asg.len() ==> 1 <= (#[trigger] asg[i]).level <= level,
{
    lemma_level_bound(asg, level, n);
    lemma_log_at(asg, level, n, 0);
    assert forall|i: int| 0 <= i < asg.len() implies 1 <= (#[trigger] asg[i]).level <= level by {
        lemma_log_at(asg, level, n, i);
        assert(asg[0].level <= asg[i].level);
        assert(asg[i].level <= asg[asg.len() - 1].level);
    }
}

/// The shape the root decision gives the log: it comes first and no other
/// assignment is about the root package; every later decision opens a level
/// above the root's.
pub open spec fn root_shaped(log: Seq<AssignView>) -> bool {
    &&& log.len() >= 1
    &&& log[0].package == ROOT@
    &&& log[0].term == root_point()
    &&& forall|i: int| 0 < i < log.len() ==> (#[trigger] log[i]).package != ROOT@
    &&& forall|i: int| 0 < i < log.len() && (#[trigger] log[i]).decision ==> log[i].level >= 2
}

/// Appending an assignment about another package, a decision only above the
/// root level, keeps the log root-shaped.
proof fn lemma_root_shaped_push(log: Seq<AssignView>, x: AssignView)
    requires
        root_shaped(log),
        x.package != ROOT@,
        x.decision ==> x.level >= 2,
    ensures
        root_shaped(log.push(x)),
{
    let n = log.push(x);
    assert(n[0] == log[0]);
    assert forall|i: int| 0 < i < n.len() implies (#[trigger] n[i]).package != ROOT@ by {
        if i < log.len() {
            assert(n[i] == log[i]);
        }
    }
    assert forall|i: int| 0 < i < n.len() && (#[trigger] n[i]).decision implies n[i].level >= 2 by {
        if i < log.len() {
            assert(n[i] == log[i]);
        }
    }
}

/// Cutting the log back, keeping the root decision, keeps it root-shaped.
proof fn lemma_root_shaped_prefix(log: Seq<AssignView>, m: int)
    requires
        root_shaped(log),
        1 <= m <= log.len(),
    ensures
        root_shaped(log.take(m)),
{
    let n = log.take(m);
    assert(n[0] == log[0]);
    assert forall|i: int| 0 < i < n.len() implies (#[trigger] n[i]).package != ROOT@ by {
        assert(n[i] == log[i]);
    }
    assert forall|i: int| 0 < i < n.len() && (#[trigger] n[i]).decision implies n[i].level >= 2 by {
        assert(n[i] == log[i]);
    }
}

/// While the root decision is the log's only word on the root package, the
/// root's own term holds and no well-formed term about the root is undecided.
proof fn lemma_root_decided(log: Seq<AssignView>)
    requires
        root_shaped(log),
    ensures
        rel_at(log, (ROOT@, root_point())) == Relation::Satisfied,
        forall|t: TermView| segs_wf(t.range) ==> #[trigger] rel_at(log, (ROOT@, t)) != Relation::Inconclusive,
{
    lemma_root_state(log, log.len() as int);
    lemma_root_satisfies();
    assert forall|t: TermView| segs_wf(t.range) implies #[trigger] rel_at(log, (ROOT@, t)) != Relation::Inconclusive by {
        lemma_point_decides(t);
    }
}

/// The message of a resolution that ran out of steps.
pub open spec fn no_termination() -> Seq<char> {
    "resolver did not terminate (internal error)"@
}

/// The ids listed under the first entry for `pkg`, none when there is no entry.
pub open spec fn index_ids(index: Seq<(String, Vec<IncompatId>)>, pkg: Seq<char>) -> Seq<IncompatId>
    decreases index.len(),
{
    if index.len() == 0 {
        Seq::empty()
    } else if index[0].0@ == pkg {
        index[0].1@
    } else {
        index_ids(index.drop_first(), pkg)
    }
}

/// Every stored incompatibility is listed under each package it mentions.
#[verifier::opaque]
pub open spec fn index_complete(index: Seq<(String, Vec<IncompatId>)>, store: Seq<IncompatView>) -> bool {
    forall|i: int, t: int|
        0 <= i < store.len() && 0 <= t < store[i].terms.len() ==> index_ids(
            index,
            (#[trigger] store[i].terms[t]).0,
        ).contains(i as IncompatId)
}

/// Replacing the first entry for a name changes what the index lists for that
/// name only.
proof fn lemma_index_update(idx: Seq<(String, Vec<IncompatId>)>, e: int, entry: (String, Vec<IncompatId>))
    requires
        0 <= e < idx.len(),
        entry.0@ == idx[e].0@,
        forall|f: int| 0 <= f < e ==> (#[trigger] idx[f]).0@ != idx[e].0@,
    ensures
        index_ids(idx, idx[e].0@) == idx[e].1@,
        forall|q: Seq<char>|
            #[trigger] index_ids(idx.update(e, entry), q) == if q == idx[e].0@ {
                entry.1@
            } else {
                index_ids(idx, q)
            },
    decreases e,
{
    let nidx = idx.update(e, entry);
    let name = idx[e].0@;
    if e == 0 {
        assert(nidx.drop_first() =~= idx.drop_first());
        assert forall|q: Seq<char>|
            #[trigger] index_ids(idx.update(e, entry), q) == if q == name {
                entry.1@
            } else {
                index_ids(idx, q)
            } by {
            assert(nidx[0] == entry);
        }
    } else {
        assert(idx[0].0@ != idx[e].0@);
        assert(nidx[0] == idx[0]);
        assert(nidx.drop_first() =~= idx.drop_first().update(e - 1, entry));
        assert forall|f: int| 0 <= f < e - 1 implies (#[trigger] idx.drop_first()[f]).0@ != idx.drop_first()[e
            - 1].0@ by {
            assert(idx.drop_first()[f] == idx[f + 1]);
        }
        assert(idx.drop_first()[e - 1] == idx[e]);
        lemma_index_update(idx.drop_first(), e - 1, entry);
        assert forall|q: Seq<char>|
            #[trigger] index_ids(idx.update(e, entry), q) == if q == name {
                entry.1@
            } else {
                index_ids(idx, q)
            } by {
            assert(index_ids(idx.drop_first().update(e - 1, entry), q) == if q == name {
                entry.1@
            } else {
                index_ids(idx.drop_first(), q)
            });
        }
    }
}

/// Appending an entry for a name the index lacks changes what it lists for that
/// name only.
proof fn lemma_index_push(idx: Seq<(String, Vec<IncompatId>)>, entry: (String, Vec<IncompatId>))
    requires
        forall|f: int| 0 <= f < idx.len() ==> (#[trigger] idx[f]).0@ != entry.0@,
    ensures
        index_ids(idx, entry.0@) == Seq::<IncompatId>::empty(),
        forall|q: Seq<char>|
            #[trigger] index_ids(idx.push(entry), q) == if q == entry.0@ {
                entry.1@
            } else {
                index_ids(idx, q)
            },
    decreases idx.len(),
{
    let nidx = idx.push(entry);
    if idx.len() == 0 {
        assert(nidx.drop_first() =~= Seq::<(String, Vec<IncompatId>)>::empty());
        assert forall|q: Seq<char>|
            #[trigger] index_ids(idx.push(entry), q) == if q == entry.0@ {
                entry.1@
            } else {
                index_ids(idx, q)
            } by {
            assert(nidx[0] == entry);
            assert(index_ids(nidx.drop_first(), q) == Seq::<IncompatId>::empty());
        }
    } else {
        assert(nidx[0] == idx[0]);
        assert(nidx.drop_first() =~= idx.drop_first().push(entry));
        assert forall|f: int| 0 <= f < idx.drop_first().len() implies (#[trigger] idx.drop_first()[f]).0@
            != entry.0@ by {
            assert(idx.drop_first()[f] == idx[f + 1]);
        }
        lemma_index_push(idx.drop_first(), entry);
        assert(idx[0].0@ != entry.0@);
        assert forall|q: Seq<char>|
            #[trigger] index_ids(idx.push(entry), q) == if q == entry.0@ {
                entry.1@
            } else {
                index_ids(idx, q)
            } by {
            assert(index_ids(idx.drop_first().push(entry), q) == if q == entry.0@ {
                entry.1@
            } else {
                index_ids(idx.drop_first(), q)
            });
        }
    }
}

/// A pin that some decision of the log made, for a package other than the root.
pub open spec fn decided_pin(log: Seq<AssignView>, p: Pin) -> bool {
    exists|i: int|
        0 <= i < log.len() && (#[trigger] log[i]).decision && log[i].package == p.0 && p.0 != ROOT@
            && lower_of(log[i].term.range) == Some(p.1)
}

/// The store grew by appending only.
pub open spec fn extends(old: Seq<IncompatView>, new: Seq<IncompatView>) -> bool {
    old.len() <= new.len() && forall|i: int| 0 <= i < old.len() ==> new[i] == old[i]
}

/// Packages some positive assignment requires (other than `root`), each once, in
/// order of first appearance.
pub open spec fn required_names(log: Seq<AssignView>, root: Seq<char>) -> Seq<Seq<char>>
    decreases log.len(),
{
    if log.len() == 0 {
        Seq::empty()
    } else {
        let s = required_names(log.drop_last(), root);
        let a = log.last();
        if a.term.positive && a.package != root && !s.contains(a.package) {
            s.push(a.package)
        } else {
            s
        }
    }
}

/// Whether some decision of the log chose a version of `pkg`.
pub open spec fn decided(log: Seq<AssignView>, pkg: Seq<char>) -> bool {
    exists|i: int| 0 <= i < log.len() && (#[trigger] log[i]).decision && log[i].package == pkg
}

/// The names of `names` that no decision has chosen yet, in order.
pub open spec fn undecided(names: Seq<Seq<char>>, log: Seq<AssignView>) -> Seq<Seq<char>>
    decreases names.len(),
{
    if names.len() == 0 {
        Seq::empty()
    } else {
        let r = undecided(names.drop_last(), log);
        if decided(log, names.last()) {
            r
        } else {
            r.push(names.last())
        }
    }
}

pub open spec fn string_seq(v: Seq<String>) -> Seq<Seq<char>> {
    v.map_values(|s: String| s@)
}

fn contains_string(v: &Vec<String>, x: &String) -> (r: bool)
    ensures
        r == string_seq(v@).contains(x@),
{
    let mut i: usize = 0;
    while i < v.len()
        invariant
            i <= v@.len(),
            forall|j: int| 0 <= j < i ==> string_seq(v@)[j] != x@,
        decreases v@.len() - i,
    {
        if v[i] == *x {
            proof {
                assert(string_seq(v@)[i as int] == x@);
            }
            return true;
        }
        i = i + 1;
    }
    false
}

/// Folds one term into the resolvent's terms.
fn merge_term(merged: &mut Vec<(String, Term)>, q: &String, t: &Term, pkg: &str)
    ensures
        named_terms(final(merged)@) == merge_in(named_terms(old(merged)@), q@, t@, pkg@),
{
    let ghost before = named_terms(merged@);
    if str_eq(q.as_str(), pkg) {
        return;
    }
    let mut j: usize = 0;
    while j < merged.len() && !str_eq(merged[j].0.as_str(), q.as_str())
        invariant
            j <= merged@.len(),
            before == named_terms(merged@),
            forall|i: int| 0 <= i < j ==> (#[trigger] before[i]).0 != q@,
        decreases merged@.len() - j,
    {
        proof {
            assert(before[j as int].0 == merged@[j as int].0@);
        }
        j = j + 1;
    }
    proof {
        if j < merged@.len() {
            assert(before[j as int].0 == merged@[j as int].0@);
        }
        crate::incompat::lemma_term_index(before, q@, j as int);
    }
    if j < merged.len() {
        let (name, old_term) = merged.remove(j);
        proof {
            assert(before[j as int] == (name@, old_term@));
        }
        let both = old_term.intersect(t);
        merged.insert(j, (name, both));
        proof {
            assert(named_terms(merged@) =~= merge_in(before, q@, t@, pkg@));
        }
    } else {
        merged.push((q.clone(), t.clone()));
        proof {
            assert(named_terms(merged@) =~= merge_in(before, q@, t@, pkg@));
        }
    }
}

/// Folds every term of `source` into the resolvent's terms, from the left.
fn merge_terms_into(merged: &mut Vec<(String, Term)>, source: &Vec<(String, Term)>, pkg: &str)
    ensures
        named_terms(final(merged)@) == merge_all(named_terms(old(merged)@), named_terms(source@), pkg@),
{
    let ghost base = named_terms(merged@);
    let ghost src = named_terms(source@);
    let mut k: usize = 0;
    proof {
        assert(src.take(0) =~= Seq::<NamedTerm>::empty());
    }
    while k < source.len()
        invariant
            k <= source@.len(),
            src == named_terms(source@),
            named_terms(merged@) == merge_all(base, src.take(k as int), pkg@),
        decreases source@.len() - k,
    {
        let (q, t) = &source[k];
        proof {
            assert(src[k as int] == (q@, t@));
            assert(src.take(k + 1).drop_last() =~= src.take(k as int));
            assert(src.take(k + 1).last() == src[k as int]);
        }
        merge_term(merged, q, t, pkg);
        k = k + 1;
    }
    proof {
        assert(src.take(source@.len() as int) =~= src);
    }
}

impl<'a, P: Provider + ?Sized> Solver<'a, P> {
    /// The decision rounds the last resolution had started when it stopped.
    pub closed spec fn rounds(&self) -> nat {
        self.rounds@
    }

    /// The propagation and resolution steps the last resolution had spent when it stopped.
    pub closed spec fn steps(&self) -> nat {
        self.steps@
    }

    /// The package versions whose dependencies the last resolution asked the
    /// provider for.
    pub closed spec fn queried(&self) -> Seq<(Seq<char>, VersionView)> {
        self.queried@
    }

    /// The provider the solver asks.
    pub closed spec fn provider_ref(&self) -> &'a P {
        self.provider
    }

    /// The incompatibility store as plain values.
    pub closed spec fn store(&self) -> Seq<IncompatView> {
        incompat_views(self.incompats@)
    }

    /// The partial solution as plain values.
    pub closed spec fn log(&self) -> Seq<AssignView> {
        assign_views(self.assignments@)
    }

    /// Every id the package index lists names a stored incompatibility, and every
    /// stored incompatibility is listed under each package it mentions.
    pub closed spec fn index_wf(&self) -> bool {
        &&& forall|e: int, k: int|
            0 <= e < self.index@.len() && 0 <= k < self.index@[e].1@.len() ==> #[trigger] self.index@[e].1@[k]
                < self.incompats@.len()
        &&& index_complete(self.index@, self.store())
    }

    /// The ids the package index lists under `pkg`: those of its first entry for
    /// `pkg`, none when it has no entry.
    pub closed spec fn indexed(&self, pkg: Seq<char>) -> Seq<IncompatId> {
        index_ids(self.index@, pkg)
    }

    /// The store and index are consistent and every derivation is acyclic.
    pub closed spec fn store_wf(&self) -> bool {
        &&& derivations_acyclic(self.store())
        &&& self.index_wf()
    }

    /// The solver state between the steps of a resolution.
    pub closed spec fn running(&self) -> bool {
        &&& self.store_wf()
        &&& log_wf(self.log(), self.level as nat, self.incompats@.len())
    }

    /// A solver that has not started: an empty store and partial solution.
    pub closed spec fn fresh(&self) -> bool {
        &&& self.store_wf()
        &&& self.incompats@.len() == 0
        &&& self.assignments@.len() == 0
        &&& self.level == 0
        &&& self.root_version@ == root_version()
    }

    /// The incompatibilities learned so far, in the order they were stored.
    pub fn incompatibilities(&self) -> (r: &Vec<Incompatibility>)
        ensures
            incompat_views(r@) == self.store(),
    {
        &self.incompats
    }

    pub fn new(provider: &'a P) -> (s: Solver<'a, P>)
        ensures
            s.store() == Seq::<IncompatView>::empty(),
            s.provider_ref() == provider,
            s.fresh(),
    {
        proof {
            reveal(derivations_acyclic);
            reveal(index_complete);
        }
        let s = Solver {
            provider,
            incompats: Vec::new(),
            index: Vec::new(),
            assignments: Vec::new(),
            level: 0,
            root_version: Version::new(1, 0, 0),
            rounds: Ghost(0),
            steps: Ghost(0),
            queried: Ghost(Seq::empty()),
        };
        proof {
            assert(s.store() =~= Seq::<IncompatView>::empty());
        }
        s
    }

    /// Versions still possible for `pkg` over the first `upto` assignments.
    fn acc_for(&self, pkg: &str, upto: usize) -> (r: Range)
        requires
            upto <= self.log().len(),
        ensures
            r@ == acc_spec(self.log(), pkg@, upto as int),
    {
        let mut acc = Range::any();
        let mut i: usize = 0;
        while i < upto
            invariant
                i <= upto <= self.assignments@.len(),
                acc@ == acc_spec(self.log(), pkg@, i as int),
            decreases upto - i,
        {
            proof {
                assert(self.log()[i as int] == self.assignments@[i as int]@);
            }
            if str_eq(self.assignments[i].package.as_str(), pkg) {
                acc = acc.intersect(&self.assignments[i].term.allowed());
            }
            i = i + 1;
        }
        acc
    }

    /// States still possible for `pkg` given everything derived so far.
    fn state_for(&self, pkg: &str) -> (r: Term)
        ensures
            r@ == state_spec(self.log(), pkg@, self.log().len() as int),
    {
        let mut acc = Term::any_state();
        let mut i: usize = 0;
        while i < self.assignments.len()
            invariant
                i <= self.assignments@.len(),
                acc@ == state_spec(self.log(), pkg@, i as int),
            decreases self.assignments@.len() - i,
        {
            proof {
                assert(self.log()[i as int] == self.assignments@[i as int]@);
            }
            if str_eq(self.assignments[i].package.as_str(), pkg) {
                acc = acc.intersect(&self.assignments[i].term);
            }
            i = i + 1;
        }
        acc
    }

    /// Versions still possible for `pkg` given everything derived so far.
    fn term_for(&self, pkg: &str) -> (r: Range)
        ensures
            r@ == acc_spec(self.log(), pkg@, self.log().len() as int),
    {
        self.acc_for(pkg, self.assignments.len())
    }

    /// The version decided for `pkg`, if one has been.
    fn decision(&self, pkg: &str) -> (r: Option<Version>)
        requires
            self.running(),
        ensures
            match r {
                Some(v) => exists|i: int|
                    0 <= i < self.log().len() && (#[trigger] self.log()[i]).decision && self.log()[i].package
                        == pkg@ && lower_of(self.log()[i].term.range) == Some(v@),
                None => forall|i: int|
                    0 <= i < self.log().len() ==> !((#[trigger] self.log()[i]).decision
                        && self.log()[i].package == pkg@),
            },
    {
        proof {
            reveal(log_wf);
        }
        let mut i: usize = 0;
        while i < self.assignments.len()
            invariant
                i <= self.assignments@.len(),
                self.running(),
                forall|j: int|
                    0 <= j < i ==> !((#[trigger] self.log()[j]).decision && self.log()[j].package == pkg@),
            decreases self.assignments@.len() - i,
        {
            let a = &self.assignments[i];
            proof {
                assert(self.log()[i as int] == a@);
                lemma_log_at(self.log(), self.level as nat, self.incompats@.len(), i as int);
            }
            if a.decision && str_eq(a.package.as_str(), pkg) {
                match a.term.range.lower_version() {
                    Some(v) => {
                        return Some(v.clone());
                    },
                    None => {
                        proof {
                            assert(self.log()[i as int].decision);
                        }
                    },
                }
            }
            i = i + 1;
        }
        None
    }

    /// Records a fact forced by unit propagation.
    #[verifier::spinoff_prover]
    fn derive(&mut self, pkg: &str, term: Term, cause: IncompatId)
        requires
            old(self).running(),
            cause < old(self).incompats@.len(),
        ensures
            final(self).running(),
            final(self).provider == old(self).provider,
            final(self).store() == old(self).store(),
            final(self).level == old(self).level,
            final(self).log() == old(self).log().push(
                AssignView {
                    package: pkg@,
                    term: term@,
                    decision: false,
                    level: old(self).level as nat,
                    cause: Some(cause as nat),
                },
            ),
    {
        proof {
            reveal(log_wf);
        }
        let ghost before = self.log();
        let name = crate::text::string_of(chars_of(pkg).as_slice());
        self.assignments.push(
            Assignment { package: name, term, decision: false, level: self.level, cause: Some(cause) },
        );
        proof {
            assert(self.log() =~= before.push(self.assignments@.last()@));
            assert(forall|i: int| 0 <= i < before.len() ==> self.log()[i] == before[i]);
        }
    }

    /// Opens a new decision level choosing `version` for `pkg`.
    fn decide(&mut self, pkg: &str, version: Version)
        requires
            old(self).store_wf(),
            old(self).log().len() == 0 ==> old(self).level == 0,
            old(self).log().len() > 0 ==> log_wf(old(self).log(), old(self).level as nat, old(self).incompats@.len()),
            old(self).level < old(self).log().len() + 1,
            old(self).level < usize::MAX,
        ensures
            final(self).running(),
            final(self).provider == old(self).provider,
            final(self).store() == old(self).store(),
            final(self).level == old(self).level + 1,
            final(self).log() == old(self).log().push(
                AssignView {
                    package: pkg@,
                    term: TermView { positive: true, range: seq![(crate::range::before(version@), crate::range::after(version@))] },
                    decision: true,
                    level: old(self).level as nat + 1,
                    cause: None,
                },
            ),
    {
        proof {
            reveal(log_wf);
        }
        let ghost before = self.log();
        self.level = self.level + 1;
        let name = crate::text::string_of(chars_of(pkg).as_slice());
        self.assignments.push(
            Assignment { package: name, term: Term::exact(version), decision: true, level: self.level, cause: None },
        );
        proof {
            assert(self.log() =~= before.push(self.assignments@.last()@));
            assert(forall|i: int| 0 <= i < before.len() ==> self.log()[i] == before[i]);
            crate::range::lemma_cut_ends(CutView::NegInf);
        }
    }

    /// How incompatibility `ci` stands against the partial solution: every term
    /// satisfied is a conflict; all but one satisfied and that one undecided
    /// makes it a unit; anything else is ignored.
    fn eval(&self, ci: IncompatId) -> (r: Eval)
        requires
            ci < self.incompats@.len(),
        ensures
            ({
                let terms = self.store()[ci as int].terms;
                match r {
                    Eval::Conflict => forall|k: int|
                        0 <= k < terms.len() ==> rel_at(self.log(), #[trigger] terms[k]) == Relation::Satisfied,
                    Eval::Unit(p, t) => exists|k: int|
                        0 <= k < terms.len() && terms[k] == (p@, t@) && rel_at(self.log(), #[trigger] terms[k])
                            == Relation::Inconclusive && forall|j: int|
                            0 <= j < terms.len() && j != k ==> rel_at(self.log(), #[trigger] terms[j])
                                == Relation::Satisfied,
                    Eval::Ignore => (exists|k: int|
                        0 <= k < terms.len() && rel_at(self.log(), #[trigger] terms[k]) == Relation::Contradicted)
                        || (exists|j: int, k: int|
                        0 <= j < k < terms.len() && rel_at(self.log(), #[trigger] terms[j])
                            == Relation::Inconclusive && rel_at(self.log(), #[trigger] terms[k])
                            == Relation::Inconclusive),
                }
            }),
    {
        let inc = &self.incompats[ci];
        let ghost terms = self.store()[ci as int].terms;
        proof {
            assert(terms == named_terms(inc.terms@));
        }
        let mut inconclusive: Option<usize> = None;
        let mut count: usize = 0;
        let mut i: usize = 0;
        while i < inc.terms.len()
            invariant
                i <= inc.terms@.len(),
                terms == named_terms(inc.terms@),
                ci < self.incompats@.len(),
                terms == self.store()[ci as int].terms,
                count <= 2,
                count == 0 ==> forall|k: int| 0 <= k < i ==> rel_at(self.log(), #[trigger] terms[k]) == Relation::Satisfied,
                count == 1 ==> (inconclusive matches Some(u) && u < i && rel_at(self.log(), terms[u as int])
                    == Relation::Inconclusive && forall|k: int|
                    0 <= k < i && k != u ==> rel_at(self.log(), #[trigger] terms[k]) == Relation::Satisfied),
                count == 2 ==> exists|j: int, k: int|
                    0 <= j < k < i && rel_at(self.log(), #[trigger] terms[j]) == Relation::Inconclusive
                        && rel_at(self.log(), #[trigger] terms[k]) == Relation::Inconclusive,
                forall|k: int| 0 <= k < i ==> rel_at(self.log(), #[trigger] terms[k]) != Relation::Contradicted,
            decreases inc.terms@.len() - i,
        {
            let (pkg, term) = &inc.terms[i];
            proof {
                assert(terms[i as int] == (pkg@, term@));
            }
            let have = self.state_for(pkg.as_str());
            match term.relation_to(&have) {
                Relation::Satisfied => {},
                Relation::Contradicted => {
                    proof {
                        assert(rel_at(self.log(), terms[i as int]) == Relation::Contradicted);
                        assert(exists|k: int|
                            0 <= k < terms.len() && rel_at(self.log(), #[trigger] terms[k])
                                == Relation::Contradicted);
                    }
                    return Eval::Ignore;
                },
                Relation::Inconclusive => {
                    if count == 1 {
                        proof {
                            let u = inconclusive->0 as int;
                            assert(rel_at(self.log(), terms[u]) == Relation::Inconclusive);
                            assert(rel_at(self.log(), terms[i as int]) == Relation::Inconclusive);
                        }
                    }
                    if count < 2 {
                        count = count + 1;
                    }
                    inconclusive = Some(i);
                },
            }
            i = i + 1;
        }
        if count == 0 {
            Eval::Conflict
        } else if count == 1 {
            let u = inconclusive.unwrap();
            let (p, t) = &inc.terms[u];
            proof {
                assert(terms[u as int] == (p@, t@));
            }
            Eval::Unit(p.clone(), t.clone())
        } else {
            Eval::Ignore
        }
    }

    /// Smallest index `i < upto` at which `pkg`'s accumulated set first
    /// satisfies `term`, scanning only `pkg`'s assignments.
    fn satisfier_of(&self, pkg: &str, term: &Term, upto: usize) -> (r: Option<usize>)
        requires
            upto <= self.log().len(),
        ensures
            match r {
                Some(i) => first_sat(self.log(), pkg@, term@, upto as int) == Some(i as int),
                None => first_sat(self.log(), pkg@, term@, upto as int) is None,
            },
    {
        let mut acc = Term::any_state();
        let mut i: usize = 0;
        while i < upto
            invariant
                i <= upto <= self.assignments@.len(),
                acc@ == state_spec(self.log(), pkg@, i as int),
                first_sat(self.log(), pkg@, term@, i as int) is None,
            decreases upto - i,
        {
            proof {
                assert(self.log()[i as int] == self.assignments@[i as int]@);
            }
            if str_eq(self.assignments[i].package.as_str(), pkg) {
                acc = acc.intersect(&self.assignments[i].term);
                if term.relation_to(&acc) == Relation::Satisfied {
                    proof {
                        assert(sat_at(self.log(), pkg@, term@, i as int));
                        assert(first_sat(self.log(), pkg@, term@, i + 1) == Some(i as int));
                        lemma_first_sat_stable(self.log(), pkg@, term@, i + 1, upto as int);
                    }
                    return Some(i);
                }
            }
            i = i + 1;
        }
        None
    }

    /// Locates the assignment that completes a satisfied incompatibility, and the
    /// decision level to backjump to: the level at which every other term is
    /// already satisfied, leaving the satisfier's term as the lone unit.
    #[verifier::spinoff_prover]
    fn analyze(&self, ci: IncompatId) -> (r: (usize, usize))
        requires
            self.running(),
            ci < self.incompats@.len(),
        ensures
            r.0 == satisfier_index(self.log(), self.store()[ci as int].terms),
            r.1 == previous_level(
                self.log(),
                self.store()[ci as int].terms,
                self.log()[r.0 as int].package,
                r.0 as int,
            ),
            r.0 < self.log().len(),
            1 <= r.1 <= self.level,
    {
        let terms = &self.incompats[ci].terms;
        let ghost tv = self.store()[ci as int].terms;
        let ghost log = self.log();
        proof {
            assert(tv == named_terms(terms@));
            lemma_level_bound(log, self.level as nat, self.incompats@.len());
            lemma_level_range(log, self.level as nat, self.incompats@.len());
            lemma_log_at(log, self.level as nat, self.incompats@.len(), 0);
        }
        let n = self.assignments.len();
        let mut sat_index: usize = 0;
        let mut k: usize = 0;
        while k < terms.len()
            invariant
                k <= terms@.len(),
                n == log.len(),
                log == self.log(),
                tv == named_terms(terms@),
                sat_index < n,
                sat_index == satisfier_index(log, tv.take(k as int)),
                self.running(),
            decreases terms@.len() - k,
        {
            let (pkg, term) = &terms[k];
            proof {
                assert(tv[k as int] == (pkg@, term@));
                assert(tv.take(k + 1).drop_last() =~= tv.take(k as int));
                assert(tv.take(k + 1).last() == tv[k as int]);
                lemma_first_sat_bound(log, pkg@, term@, n as int);
            }
            if let Some(idx) = self.satisfier_of(pkg.as_str(), term, n) {
                if idx > sat_index {
                    sat_index = idx;
                }
            }
            k = k + 1;
        }
        proof {
            assert(tv.take(terms@.len() as int) =~= tv);
        }
        let satisfier_pkg = &self.assignments[sat_index].package;
        proof {
            assert(log[sat_index as int].package == satisfier_pkg@);
        }
        let mut prev: usize = 1;
        let mut k: usize = 0;
        while k < terms.len()
            invariant
                k <= terms@.len(),
                n == log.len(),
                log == self.log(),
                tv == named_terms(terms@),
                sat_index < n,
                log[sat_index as int].package == satisfier_pkg@,
                1 <= prev <= self.level,
                prev == previous_level(log, tv.take(k as int), satisfier_pkg@, sat_index as int),
                self.running(),
                forall|i: int, j: int| 0 <= i <= j < log.len() ==> (#[trigger] log[i]).level <= (#[trigger] log[j]).level,
            decreases terms@.len() - k,
        {
            let (pkg, term) = &terms[k];
            proof {
                assert(tv[k as int] == (pkg@, term@));
                assert(tv.take(k + 1).drop_last() =~= tv.take(k as int));
                assert(tv.take(k + 1).last() == tv[k as int]);
            }
            let upto = if str_eq(pkg.as_str(), satisfier_pkg.as_str()) {
                sat_index
            } else {
                n
            };
            proof {
                lemma_first_sat_bound(log, pkg@, term@, upto as int);
            }
            if let Some(j) = self.satisfier_of(pkg.as_str(), term, upto) {
                proof {
                    assert(log[j as int] == self.assignments@[j as int]@);
                    lemma_log_at(log, self.level as nat, self.incompats@.len(), j as int);
                }
                if self.assignments[j].level > prev {
                    prev = self.assignments[j].level;
                }
            }
            k = k + 1;
        }
        proof {
            assert(tv.take(terms@.len() as int) =~= tv);
        }
        (sat_index, prev)
    }

    /// Resolves `ci` against the cause of its satisfier on `pkg`, learning a new
    /// incompatibility with `pkg` eliminated.
    fn resolve_incompat(&mut self, ci: IncompatId, cause: IncompatId, pkg: &str) -> (id: IncompatId)
        requires
            old(self).running(),
            ci < old(self).incompats@.len(),
            cause < old(self).incompats@.len(),
        ensures
            id == old(self).incompats@.len(),
            final(self).incompats@.len() == old(self).incompats@.len() + 1,
            final(self).store() == old(self).store().push(
                IncompatView {
                    terms: resolvent(old(self).store()[ci as int].terms, old(self).store()[cause as int].terms, pkg@),
                    cause: CauseView::Derived(ci as nat, cause as nat),
                },
            ),
            final(self).running(),
            final(self).provider == old(self).provider,
            final(self).log() == old(self).log(),
            final(self).level == old(self).level,
    {
        let ghost a = self.store()[ci as int].terms;
        let ghost b = self.store()[cause as int].terms;
        let merged = resolvent_terms(&self.incompats[ci], &self.incompats[cause], pkg);
        proof {
            assert(self.incompats@[ci as int]@.terms == a);
            assert(self.incompats@[cause as int]@.terms == b);
            assert(named_terms(merged@) == resolvent(a, b, pkg@));
            lemma_log_wf_grow(self.log(), self.level as nat, self.incompats@.len());
        }
        let id = self.add_incompat(merged, Cause::Derived(ci, cause));
        assert(self.store() == old(self).store().push(IncompatView { terms: resolvent(a, b, pkg@), cause: CauseView::Derived(ci as nat, cause as nat) }));
        assert(self.log() == old(self).log());
        assert(self.incompats@.len() == old(self).incompats@.len() + 1);
        id
    }

    /// Resolves a conflict: learns incompatibilities against the satisfier's cause
    /// until the satisfier is a decision or the backjump level differs from its
    /// level, then backjumps. Reports the terminal incompatibility when resolution
    /// bottoms out at the root. `None` means the step budget ran out.
    fn conflict_resolution(&mut self, ci: IncompatId, budget: &mut u64) -> (r: Option<Conflict>)
        requires
            old(self).running(),
            ci < old(self).incompats@.len(),
            root_shaped(old(self).log()),
        ensures
            final(self).running(),
            forall|i: int|
                old(self).store().len() <= i < final(self).store().len() ==> crate::facts::derived_entry(
                    final(self).store(),
                    i,
                ),
            final(self).provider == old(self).provider,
            extends(old(self).store(), final(self).store()),
            final(self).level <= old(self).level,
            *final(budget) <= *old(budget),
            forall|i: int|
                old(self).store().len() <= i < final(self).store().len() ==> (#[trigger] final(self).store()[i]).cause
                    is Derived,
            final(self).log().len() <= old(self).log().len(),
            final(self).log() == old(self).log().take(final(self).log().len() as int),
            match r {
                Some(Conflict::NoSolution(id)) => {
                    &&& id < final(self).incompats@.len()
                    &&& is_terminal(final(self).store()[id as int].terms, ROOT@)
                    &&& (id == ci || old(self).store().len() <= id)
                    &&& final(self).log() == old(self).log()
                    &&& final(self).level == old(self).level
                },
                Some(Conflict::Learned(p)) => {
                    &&& *final(budget) < *old(budget)
                    &&& exists|i: int|
                        0 <= i < old(self).log().len() && (#[trigger] old(self).log()[i]).package == p@ && (old(
                            self,
                        ).log()[i].decision || old(self).log()[i].level != final(self).level)
                    &&& forall|i: int|
                        0 <= i < final(self).log().len() ==> (#[trigger] final(self).log()[i]).level
                            <= final(self).level
                    &&& forall|i: int|
                        final(self).log().len() <= i < old(self).log().len() ==> (#[trigger] old(
                            self,
                        ).log()[i]).level > final(self).level
                },
                None => {
                    &&& *final(budget) == 0
                    &&& final(self).log() == old(self).log()
                    &&& final(self).level == old(self).level
                },
            },
    {
        proof {
            reveal(log_wf);
        }
        let mut cur = ci;
        loop
            invariant
                self.running(),
                self.provider == old(self).provider,
                cur < self.incompats@.len(),
                cur == ci || old(self).store().len() <= cur,
                extends(old(self).store(), self.store()),
                self.level == old(self).level,
                self.log() == old(self).log(),
                *budget <= *old(budget),
                forall|i: int|
                    old(self).store().len() <= i < self.store().len() ==> (#[trigger] self.store()[i]).cause
                        is Derived,
                forall|i: int|
                    old(self).store().len() <= i < self.store().len() ==> crate::facts::derived_entry(
                        self.store(),
                        i,
                    ),
                root_shaped(old(self).log()),
            decreases *budget,
        {
            proof {
                assert(self.store()[cur as int] == self.incompats@[cur as int]@);
            }
            if self.incompats[cur].is_terminal(ROOT) {
                return Some(Conflict::NoSolution(cur));
            }
            if *budget == 0 {
                return None;
            }
            *budget = *budget - 1;
            let (sat_index, prev_level) = self.analyze(cur);
            proof {
                assert(self.log()[sat_index as int] == self.assignments@[sat_index as int]@);
                lemma_log_at(self.log(), self.level as nat, self.incompats@.len(), sat_index as int);
            }
            let sat_pkg = self.assignments[sat_index].package.clone();
            let sat_level = self.assignments[sat_index].level;
            let sat_is_decision = self.assignments[sat_index].decision;
            // When the root decision alone completes the conflict, every other term
            // holds whatever is assigned; resolving `cur` with itself on one of them
            // drops it, until only the root is left.
            let mut other: usize = 0;
            if sat_index == 0 {
                let terms = &self.incompats[cur].terms;
                while other < terms.len() && str_eq(terms[other].0.as_str(), ROOT)
                    invariant
                        other <= terms@.len(),
                    decreases terms@.len() - other,
                {
                    other = other + 1;
                }
            }
            let self_resolve = sat_index == 0 && other < self.incompats[cur].terms.len();
            if (sat_is_decision || prev_level != sat_level) && !self_resolve {
                let ghost before_log = self.log();
                proof {
                    assert(before_log[sat_index as int].package == sat_pkg@);
                    assert(before_log[sat_index as int].decision == sat_is_decision);
                    assert(before_log[sat_index as int].level == sat_level as nat);
                }
                self.backtrack(prev_level);
                proof {
                    let k = self.log().len() as int;
                    assert(self.log() =~= before_log.take(k));
                    assert forall|i: int| 0 <= i < k implies (#[trigger] self.log()[i]).level <= self.level by {
                        assert(self.log()[i] == before_log[i]);
                    }
                }
                return Some(Conflict::Learned(sat_pkg));
            }
            let (cause, res_pkg) = if self_resolve {
                let q = self.incompats[cur].terms[other].0.clone();
                (cur, q)
            } else {
                proof {
                    // a derived satisfier is not the root decision, so not about the root
                    assert(self.log()[0].decision);
                    assert(sat_index != 0);
                    assert(self.log()[sat_index as int].package == sat_pkg@);
                }
                (self.assignments[sat_index].cause.unwrap(), sat_pkg)
            };
            proof {
                assert(res_pkg@ != ROOT@);
            }
            let ghost before = self.store();
            let ghost prev_cur = cur;
            let ghost sat_pkg = res_pkg;
            cur = self.resolve_incompat(cur, cause, res_pkg.as_str());
            proof {
                reveal(derivations_acyclic);
                assert(crate::facts::derived_entry(self.store(), cur as int)) by {
                    assert(self.store()[prev_cur as int] == before[prev_cur as int]);
                    assert(self.store()[cause as int] == before[cause as int]);
                    assert(resolvent(self.store()[prev_cur as int].terms, self.store()[cause as int].terms, sat_pkg@)
                        == self.store()[cur as int].terms);
                }
                assert forall|i: int| old(self).store().len() <= i < self.store().len() implies crate::facts::derived_entry(
                    self.store(),
                    i,
                ) by {
                    if i < before.len() {
                        assert(self.store()[i] == before[i]);
                        assert(crate::facts::derived_entry(before, i));
                        if let CauseView::Derived(a, b) = before[i].cause {
                            let p = choose|p: Seq<char>|
                                p != ROOT@ && #[trigger] resolvent(before[a as int].terms, before[b as int].terms, p)
                                    == before[i].terms;
                            assert(a < i && b < i);
                            assert(self.store()[a as int] == before[a as int]);
                            assert(self.store()[b as int] == before[b as int]);
                            assert(resolvent(self.store()[a as int].terms, self.store()[b as int].terms, p) == self.store()[i].terms);
                        }
                    }
                }
                assert forall|i: int| 0 <= i < old(self).store().len() implies self.store()[i] == old(self).store()[i] by {
                    assert(self.store()[i] == before[i]);
                }
                assert forall|i: int| old(self).store().len() <= i < self.store().len() implies (#[trigger] self.store()[i]).cause
                    is Derived by {
                    if i < before.len() {
                        assert(self.store()[i] == before[i]);
                    }
                }
            }
        }
    }

    /// Undecided packages that some positive requirement forces us to select.
    fn required_undecided(&self) -> (r: Vec<String>)
        requires
            self.running(),
        ensures
            string_seq(r@) == undecided(required_names(self.log(), ROOT@), self.log()),
    {
        let ghost log = self.log();
        let mut seen: Vec<String> = Vec::new();
        let mut i: usize = 0;
        proof {
            assert(log.take(0) =~= Seq::<AssignView>::empty());
            assert(string_seq(seen@) =~= Seq::<Seq<char>>::empty());
        }
        while i < self.assignments.len()
            invariant
                i <= self.assignments@.len(),
                log == self.log(),
                string_seq(seen@) == required_names(log.take(i as int), ROOT@),
            decreases self.assignments@.len() - i,
        {
            let a = &self.assignments[i];
            proof {
                assert(log[i as int] == a@);
                assert(log.take(i + 1).drop_last() =~= log.take(i as int));
                assert(log.take(i + 1).last() == a@);
            }
            if a.term.positive && !str_eq(a.package.as_str(), ROOT) && !contains_string(&seen, &a.package) {
                let ghost prev = string_seq(seen@);
                seen.push(a.package.clone());
                proof {
                    assert(string_seq(seen@) =~= prev.push(a@.package));
                }
            }
            i = i + 1;
        }
        proof {
            assert(log.take(log.len() as int) =~= log);
        }
        let ghost names = string_seq(seen@);
        let mut out: Vec<String> = Vec::new();
        let mut k: usize = 0;
        proof {
            assert(names.take(0) =~= Seq::<Seq<char>>::empty());
            assert(string_seq(out@) =~= Seq::<Seq<char>>::empty());
        }
        while k < seen.len()
            invariant
                k <= seen@.len(),
                log == self.log(),
                self.running(),
                names == string_seq(seen@),
                string_seq(out@) == undecided(names.take(k as int), log),
            decreases seen@.len() - k,
        {
            let p = &seen[k];
            proof {
                assert(names[k as int] == p@);
                assert(names.take(k + 1).drop_last() =~= names.take(k as int));
                assert(names.take(k + 1).last() == p@);
            }
            let d = self.decision(p.as_str());
            if d.is_none() {
                let ghost prev = string_seq(out@);
                out.push(p.clone());
                proof {
                    assert(string_seq(out@) =~= prev.push(p@));
                }
            } else {
                proof {
                    let v = d->0;
                    let i = choose|i: int|
                        0 <= i < log.len() && (#[trigger] log[i]).decision && log[i].package == p@
                            && lower_of(log[i].term.range) == Some(v@);
                    assert(decided(log, p@));
                }
            }
            k = k + 1;
        }
        proof {
            assert(names.take(seen@.len() as int) =~= names);
        }
        out
    }

    /// How many published versions of `pkg` are still possible: of the versions
    /// the provider lists, those that everything derived for `pkg` allows.
    fn choose_count(&self, pkg: &str) -> (r: usize)
        ensures
            r == count_matching(
                self.provider.listed_versions(pkg@),
                acc_spec(self.log(), pkg@, self.log().len() as int),
            ),
    {
        let allowed = self.term_for(pkg);
        let versions = self.provider.versions(pkg);
        count_allowed(&versions, &allowed)
    }

    /// The version to try for `pkg` among its published versions in `allowed`:
    /// the selection policy applied to the versions the provider lists.
    fn choose_version(&self, pkg: &str, allowed: &Range) -> (r: Option<Version>)
        ensures
            best_of(self.provider.listed_versions(pkg@), allowed@) == (match r {
                Some(v) => Some(v@),
                None => None::<VersionView>,
            }),
    {
        let versions = self.provider.versions(pkg);
        best_version(&versions, allowed)
    }

    /// The ids of the incompatibilities that mention `pkg`.
    fn ids_for(&self, pkg: &String) -> (r: Vec<IncompatId>)
        requires
            self.index_wf(),
        ensures
            r@ == self.indexed(pkg@),
            forall|k: int| 0 <= k < r@.len() ==> #[trigger] r@[k] < self.incompats@.len(),
    {
        let mut e: usize = 0;
        proof {
            assert(self.index@.skip(0) =~= self.index@);
        }
        while e < self.index.len()
            invariant
                e <= self.index@.len(),
                self.index_wf(),
                index_ids(self.index@, pkg@) == index_ids(self.index@.skip(e as int), pkg@),
            decreases self.index@.len() - e,
        {
            proof {
                assert(self.index@.skip(e as int)[0] == self.index@[e as int]);
                assert(self.index@.skip(e as int).drop_first() =~= self.index@.skip(e + 1));
            }
            if self.index[e].0 == *pkg {
                let ids = &self.index[e].1;
                let mut out: Vec<IncompatId> = Vec::new();
                let mut k: usize = 0;
                while k < ids.len()
                    invariant
                        k <= ids@.len(),
                        e < self.index@.len(),
                        ids@ == self.index@[e as int].1@,
                        self.index_wf(),
                        out@ == ids@.take(k as int),
                        forall|j: int| 0 <= j < out@.len() ==> #[trigger] out@[j] < self.incompats@.len(),
                    decreases ids@.len() - k,
                {
                    out.push(ids[k]);
                    proof {
                        assert(out@ =~= ids@.take(k + 1));
                    }
                    k = k + 1;
                }
                proof {
                    assert(ids@.take(ids@.len() as int) =~= ids@);
                }
                return out;
            }
            e = e + 1;
        }
        proof {
            assert(self.index@.skip(e as int) =~= Seq::<(String, Vec<IncompatId>)>::empty());
        }
        Vec::new()
    }

    /// The version the pins select for `name`: the root version for the root,
    /// else its pin, if it has one.
    fn selected(packages: &Vec<(String, Version)>, name: &String) -> (r: Option<Version>)
        requires
            pins_sorted(pin_views(packages@)),
        ensures
            match r {
                Some(w) => pin_selection(pin_views(packages@))(name@) == Some(w@),
                None => pin_selection(pin_views(packages@))(name@) is None,
            },
    {
        let ghost pv = pin_views(packages@);
        if str_eq(name.as_str(), ROOT) {
            return Some(Version::new(1, 0, 0));
        }
        assert(pin_selection(pv)(name@) == pinned(pv, name@));
        let mut k: usize = 0;
        while k < packages.len()
            invariant
                k <= packages@.len(),
                pv == pin_views(packages@),
                pins_sorted(pv),
                pin_selection(pv)(name@) == pinned(pv, name@),
                forall|j: int| 0 <= j < k ==> (#[trigger] pv[j]).0 != name@,
            decreases packages@.len() - k,
        {
            proof {
                assert(pv[k as int] == (packages@[k as int].0@, packages@[k as int].1@));
            }
            if str_eq(packages[k].0.as_str(), name.as_str()) {
                proof {
                    crate::pins::lemma_pinned_at(pv, k as int);
                }
                return Some(packages[k].1.clone());
            }
            k = k + 1;
        }
        proof {
            assert(!exists|i: int| 0 <= i < pv.len() && pv[i].0 == name@);
        }
        None
    }

    /// Whether the range holds the selected version, none counting as unmet.
    fn met(packages: &Vec<(String, Version)>, d: &String, r: &Range) -> (b: bool)
        requires
            pins_sorted(pin_views(packages@)),
        ensures
            b == met_by(pin_selection(pin_views(packages@)), d@, r@),
    {
        match Self::selected(packages, d) {
            Some(w) => r.contains(&w),
            None => false,
        }
    }

    /// A package to look at again when the pins leave a dependency unmet: the
    /// project's unmet dependency, or the pinned package whose listed
    /// dependency is unmet. `None` exactly when the pins meet them all.
    fn unmet(&self, root_deps: &Vec<(String, Range)>, packages: &Vec<(String, Version)>) -> (r: Option<String>)
        requires
            pins_sorted(pin_views(packages@)),
        ensures
            r is None <==> pins_meet(self.provider, root_deps@, pin_views(packages@)),
    {
        let ghost pv = pin_views(packages@);
        let ghost sel = pin_selection(pv);
        let mut k: usize = 0;
        while k < root_deps.len()
            invariant
                k <= root_deps@.len(),
                pv == pin_views(packages@),
                sel == pin_selection(pv),
                pins_sorted(pv),
                forall|j: int| 0 <= j < k ==> met_by(sel, (#[trigger] root_deps@[j]).0@, root_deps@[j].1@),
            decreases root_deps@.len() - k,
        {
            let (d, r) = &root_deps[k];
            if !Self::met(packages, d, r) {
                return Some(d.clone());
            }
            k = k + 1;
        }
        let mut i: usize = 0;
        while i < packages.len()
            invariant
                i <= packages@.len(),
                pv == pin_views(packages@),
                sel == pin_selection(pv),
                pins_sorted(pv),
                forall|j: int| 0 <= j < root_deps@.len() ==> met_by(sel, (#[trigger] root_deps@[j]).0@, root_deps@[j].1@),
                forall|j: int| 0 <= j < i ==> pin_deps_met(self.provider, pv, (#[trigger] pv[j]).0, pv[j].1),
            decreases packages@.len() - i,
        {
            let (n, v) = &packages[i];
            proof {
                assert(pv[i as int] == (n@, v@));
            }
            match self.provider.dependencies(n.as_str(), v) {
                Some(ds) => {
                    let ghost dv = dep_views(ds@);
                    let mut m: usize = 0;
                    while m < ds.len()
                        invariant
                            m <= ds@.len(),
                            dv == dep_views(ds@),
                            pv == pin_views(packages@),
                            sel == pin_selection(pv),
                            pins_sorted(pv),
                            forall|x: int| 0 <= x < m ==> met_by(sel, (#[trigger] dv[x]).0, dv[x].1),
                            i < pv.len(),
                            self.provider.listed_dependencies(pv[i as int].0, pv[i as int].1) == Some(dv),
                        decreases ds@.len() - m,
                    {
                        let (d, r) = &ds[m];
                        proof {
                            assert(dv[m as int] == (d@, r@));
                        }
                        if !Self::met(packages, d, r) {
                            proof {
                                assert(!met_by(sel, dv[m as int].0, dv[m as int].1));
                                assert(!pin_deps_met(self.provider, pv, pv[i as int].0, pv[i as int].1)) by {
                                    if pin_deps_met(self.provider, pv, pv[i as int].0, pv[i as int].1) {
                                        let dl = self.provider.listed_dependencies(pv[i as int].0, pv[i as int].1)->0;
                                        assert(dl == dv);
                                        assert(met_by(pin_selection(pv), dl[m as int].0, dl[m as int].1));
                                    }
                                }
                            }
                            return Some(n.clone());
                        }
                        m = m + 1;
                    }
                    proof {
                        assert(pin_deps_met(self.provider, pv, pv[i as int].0, pv[i as int].1));
                    }
                },
                None => {},
            }
            proof {
                assert(pin_deps_met(self.provider, pv, pv[i as int].0, pv[i as int].1));
            }
            i = i + 1;
        }
        None
    }

    /// The pinned versions of a finished resolution: every decision but the root's.
    fn collect_decisions(&self) -> (r: Vec<(String, Version)>)
        requires
            self.running(),
        ensures
            pins_sorted(pin_views(r@)),
            forall|k: int| 0 <= k < r@.len() ==> decided_pin(self.log(), #[trigger] pin_views(r@)[k]),
            forall|i: int|
                0 <= i < self.log().len() && (#[trigger] self.log()[i]).decision && self.log()[i].package
                    != ROOT@ ==> pinned(pin_views(r@), self.log()[i].package) is Some,
    {
        let ghost log = self.log();
        let mut packages: Vec<(String, Version)> = Vec::new();
        let mut i: usize = 0;
        while i < self.assignments.len()
            invariant
                i <= self.assignments@.len(),
                log == self.log(),
                self.running(),
                pins_sorted(pin_views(packages@)),
                forall|k: int| 0 <= k < packages@.len() ==> decided_pin(log, #[trigger] pin_views(packages@)[k]),
                forall|j: int|
                    0 <= j < i && (#[trigger] log[j]).decision && log[j].package != ROOT@ ==> pinned(
                        pin_views(packages@),
                        log[j].package,
                    ) is Some,
            decreases self.assignments@.len() - i,
        {
            let a = &self.assignments[i];
            proof {
                assert(log[i as int] == a@);
                lemma_log_at(log, self.level as nat, self.incompats@.len(), i as int);
            }
            if a.decision && !str_eq(a.package.as_str(), ROOT) {
                let v = a.term.range.lower_version().unwrap().clone();
                let ghost before = pin_views(packages@);
                let ghost name = a.package@;
                proof {
                    assert(lower_of(log[i as int].term.range) == Some(v@));
                    law_insert_pin(before, name, v@, name);
                    assert forall|j: int|
                        0 <= j < i && (#[trigger] log[j]).decision && log[j].package != ROOT@ implies pinned(
                        insert_pin(before, name, v@),
                        log[j].package,
                    ) is Some by {
                        law_insert_pin(before, name, v@, log[j].package);
                    }
                }
                insert_sorted(&mut packages, a.package.clone(), v);
                proof {
                    let after = pin_views(packages@);
                    assert forall|k: int| 0 <= k < packages@.len() implies decided_pin(log, #[trigger] pin_views(packages@)[k]) by {
                        assert(after[k] == (name, v@) || before.contains(after[k]));
                        if after[k] == (name, v@) {
                            assert(log[i as int].decision);
                        } else {
                            let m = choose|m: int| 0 <= m < before.len() && before[m] == after[k];
                            assert(decided_pin(log, before[m]));
                        }
                    }
                }
            }
            i = i + 1;
        }
        packages
    }

    /// Undoes every assignment made above decision level `to_level`. Levels never
    /// fall along the log, so the assignments that stay are a prefix of it.
    #[verifier::rlimit(40)]
    fn backtrack(&mut self, to_level: usize)
        requires
            old(self).running(),
            1 <= to_level <= old(self).level,
        ensures
            final(self).running(),
            final(self).provider == old(self).provider,
            final(self).store() == old(self).store(),
            final(self).level == to_level,
            exists|k: int|
                0 < k <= old(self).log().len() && final(self).log() == old(self).log().take(k) && (
                forall|i: int| 0 <= i < k ==> (#[trigger] old(self).log()[i]).level <= to_level) && (
                forall|i: int| k <= i < old(self).log().len() ==> (#[trigger] old(self).log()[i]).level
                    > to_level),
    {
        proof {
            reveal(log_wf);
        }
        let ghost orig = self.log();
        let ghost n = orig.len();
        proof {
            lemma_levels_monotone(orig);
        }
        while self.assignments.len() > 0 && self.assignments[self.assignments.len() - 1].level > to_level
            invariant
                self.incompats@ == old(self).incompats@,
                self.provider == old(self).provider,
                self.index@ == old(self).index@,
                self.level == old(self).level,
                1 <= to_level <= self.level,
                orig == old(self).log(),
                log_wf(orig, self.level as nat, self.incompats@.len()),
                forall|i: int, j: int| 0 <= i <= j < orig.len() ==> (#[trigger] orig[i]).level <= (#[trigger] orig[j]).level,
                self.log().len() <= orig.len(),
                self.log() == orig.take(self.log().len() as int),
                forall|i: int| self.log().len() <= i < orig.len() ==> (#[trigger] orig[i]).level > to_level,
            decreases self.assignments@.len(),
        {
            let ghost before = self.log();
            proof {
                assert(before.last() == self.assignments@.last()@);
            }
            self.assignments.pop();
            proof {
                assert(self.log() =~= before.drop_last());
                assert(self.log() =~= orig.take(self.log().len() as int));
            }
        }
        let ghost k = self.log().len() as int;
        proof {
            assert(orig[0].level == 1);
            if k == 0 {
                assert(orig[0].level > to_level);
            }
            assert(k > 0);
            assert(self.log()[k - 1] == self.assignments@[k - 1]@);
            assert(forall|i: int| 0 <= i < k ==> self.log()[i] == orig[i]);
            assert forall|i: int| 0 <= i < k implies (#[trigger] orig[i]).level <= to_level by {
                assert(orig[i].level <= orig[k - 1].level);
            }
            // the level reached is exactly to_level: levels climb by one at most
            if orig[k - 1].level < to_level {
                assert(k < n) by {
                    assert(orig.last().level == self.level);
                }
                assert(orig[k].level <= orig[k - 1].level + 1);
                assert(orig[k].level > to_level);
            }
            assert(orig[k - 1].level == to_level);
        }
        self.level = to_level;
        proof {
            let l = self.log();
            assert(l.last() == orig[k - 1]);
            assert forall|i: int| 0 <= i < l.len() - 1 implies (#[trigger] l[i]).level <= l[i + 1].level
                <= l[i].level + 1 by {
                assert(l[i] == orig[i]);
                assert(l[i + 1] == orig[i + 1]);
            }
        }
    }

    /// Stores an incompatibility and indexes it under each of its packages.
    #[verifier::spinoff_prover]
    fn add_incompat(&mut self, terms: Vec<(String, Term)>, cause: Cause) -> (id: IncompatId)
        requires
            old(self).store_wf(),
            match cause@ {
                CauseView::Derived(a, b) => a < old(self).incompats@.len() && b < old(self).incompats@.len(),
                _ => true,
            },
        ensures
            id == old(self).incompats@.len(),
            final(self).incompats@.len() == old(self).incompats@.len() + 1,
            final(self).store() == old(self).store().push(
                IncompatView { terms: named_terms(terms@), cause: cause@ },
            ),
            final(self).store_wf(),
            final(self).provider == old(self).provider,
            final(self).log() == old(self).log(),
            final(self).level == old(self).level,
            final(self).root_version == old(self).root_version,
    {
        proof {
            reveal(derivations_acyclic);
            reveal(index_complete);
        }
        let id = self.incompats.len();
        let ghost nt = named_terms(terms@);
        let mut k: usize = 0;
        while k < terms.len()
            invariant
                k <= terms@.len(),
                id == self.incompats@.len(),
                id == old(self).incompats@.len(),
                self.incompats@ == old(self).incompats@,
                self.provider == old(self).provider,
                self.assignments@ == old(self).assignments@,
                self.level == old(self).level,
                self.root_version == old(self).root_version,
                nt == named_terms(terms@),
                forall|e: int, j: int|
                    0 <= e < self.index@.len() && 0 <= j < self.index@[e].1@.len() ==> #[trigger] self.index@[e].1@[j]
                        <= id,
                forall|i: int, t: int|
                    0 <= i < id && 0 <= t < old(self).store()[i].terms.len() ==> index_ids(
                        self.index@,
                        (#[trigger] old(self).store()[i].terms[t]).0,
                    ).contains(i as IncompatId),
                forall|t: int| 0 <= t < k ==> index_ids(self.index@, (#[trigger] nt[t]).0).contains(id),
            decreases terms@.len() - k,
        {
            let p = &terms[k].0;
            proof {
                assert(nt[k as int].0 == p@);
            }
            let mut e: usize = 0;
            while e < self.index.len() && !str_eq(self.index[e].0.as_str(), p.as_str())
                invariant
                    e <= self.index@.len(),
                    forall|f: int| 0 <= f < e ==> (#[trigger] self.index@[f]).0@ != p@,
                decreases self.index@.len() - e,
            {
                e = e + 1;
            }
            let ghost before = self.index@;
            if e < self.index.len() {
                let mut entry = self.index.remove(e);
                entry.1.push(id);
                self.index.insert(e, entry);
                proof {
                    let ne = self.index@[e as int];
                    assert(self.index@ =~= before.update(e as int, ne));
                    lemma_index_update(before, e as int, ne);
                    assert(ne.1@ == before[e as int].1@.push(id));
                    assert forall|q: Seq<char>, x: IncompatId| index_ids(before, q).contains(x) implies #[trigger] index_ids(self.index@, q).contains(x) by {
                        if q == p@ {
                            let w = choose|w: int| 0 <= w < index_ids(before, q).len() && index_ids(before, q)[w] == x;
                            assert(index_ids(self.index@, q)[w] == x);
                        }
                    }
                    assert(index_ids(self.index@, p@)[before[e as int].1@.len() as int] == id);
                }
            } else {
                let mut ids: Vec<IncompatId> = Vec::new();
                ids.push(id);
                self.index.push((p.clone(), ids));
                proof {
                    let ne = self.index@.last();
                    assert(self.index@ =~= before.push(ne));
                    lemma_index_push(before, ne);
                    assert(index_ids(self.index@, p@)[0] == id);
                    assert forall|q: Seq<char>, x: IncompatId| index_ids(before, q).contains(x) implies #[trigger] index_ids(self.index@, q).contains(x) by {
                    }
                }
            }
            proof {
                assert forall|i: int, t: int|
                    0 <= i < id && 0 <= t < old(self).store()[i].terms.len() implies index_ids(
                        self.index@,
                        (#[trigger] old(self).store()[i].terms[t]).0,
                    ).contains(i as IncompatId) by {
                    assert(index_ids(before, old(self).store()[i].terms[t].0).contains(i as IncompatId));
                }
                assert forall|t: int| 0 <= t < k + 1 implies index_ids(self.index@, (#[trigger] nt[t]).0).contains(id) by {
                    if t < k {
                        assert(index_ids(before, nt[t].0).contains(id));
                    }
                }
            }
            k = k + 1;
        }
        let ghost before = self.store();
        let ghost cv = cause@;
        self.incompats.push(Incompatibility::new(terms, cause));
        proof {
            assert(self.store() =~= before.push(self.incompats@[id as int]@));
            assert forall|i: int, t: int|
                0 <= i < self.incompats@.len() && 0 <= t < self.store()[i].terms.len() implies index_ids(
                    self.index@,
                    (#[trigger] self.store()[i].terms[t]).0,
                ).contains(i as IncompatId) by {
                if i < id {
                    assert(self.store()[i] == old(self).store()[i]);
                } else {
                    assert(self.store()[i].terms == nt);
                    assert(nt[t] == self.store()[i].terms[t]);
                }
            }
            assert forall|i: int| 0 <= i < self.store().len() implies match (#[trigger] self.store()[i]).cause {
                CauseView::Derived(a, b) => a < i && b < i,
                _ => true,
            } by {
                if i < id {
                    assert(self.store()[i] == before[i]);
                }
            }
        }
        id
    }

    /// Records that `pkg`@`ver` depends on `dep` within `r`.
    fn add_dependency(&mut self, pkg: &str, ver: &Version, dep: String, r: Range) -> (id: IncompatId)
        requires
            old(self).store_wf(),
        ensures
            id == old(self).incompats@.len(),
            final(self).incompats@.len() == old(self).incompats@.len() + 1,
            final(self).store() == old(self).store().push(dependency_incompat(pkg@, ver@, dep@, r@)),
            final(self).store_wf(),
            final(self).provider == old(self).provider,
            final(self).log() == old(self).log(),
            final(self).level == old(self).level,
            final(self).root_version == old(self).root_version,
    {
        let name = crate::text::string_of(chars_of(pkg).as_slice());
        let owner = crate::text::string_of(chars_of(pkg).as_slice());
        let version = ver.to_string();
        let ghost dv = dep@;
        let ghost rv = r@;
        let mut terms: Vec<(String, Term)> = Vec::new();
        terms.push((name, Term::exact(ver.clone())));
        terms.push((dep.clone(), Term::negative(r)));
        proof {
            assert(named_terms(terms@) =~= dependency_incompat(pkg@, ver@, dv, rv).terms);
        }
        self.add_incompat(terms, Cause::Dependency { package: owner, version, dep })
    }

    /// Resolves the project's direct dependencies against the provider. The
    /// project is the synthetic package `ROOT` at version 1.0.0; its dependencies
    /// are the first incompatibilities stored, in order. A solution pins every
    /// package decided along the way, each at the selection policy's pick; the
    /// pins are checked to meet every dependency of the project and of each
    /// pinned version before they are returned, and a package whose dependency
    /// they leave unmet is propagated again. A failure names the terminal
    /// incompatibility whose derivation is the proof. `Err` means the search ran out of steps: a million rounds of
    /// propagation and decision, or a `u64` worth of propagation and resolution
    /// steps.
    #[verifier::spinoff_prover]
    pub fn solve(&mut self, root_deps: Vec<(String, Range)>) -> (r: Result<Outcome, String>)
        requires
            old(self).fresh(),
        ensures
            final(self).store_wf(),
            final(self).provider_ref() == old(self).provider_ref(),
            derivations_acyclic(final(self).store()),
            root_prefix(final(self).store(), root_deps@),
            store_shaped(final(self).provider_ref(), root_deps@, final(self).store()),
            root_deps@.len() == 0 ==> (r matches Ok(Outcome::Solved(res)) && res.packages@.len() == 0),
            r is Err ==> final(self).rounds() > 1_000_000 || final(self).steps() == u64::MAX,
            picks_only(final(self).provider_ref(), final(self).queried()),
            match r {
                Ok(Outcome::Solved(res)) => {
                    &&& pins_sorted(pin_views(res.packages@))
                    &&& forall|k: int|
                        0 <= k < res.packages@.len() ==> decided_pin(
                            final(self).log(),
                            #[trigger] pin_views(res.packages@)[k],
                        )
                    &&& forall|i: int|
                        0 <= i < final(self).log().len() && (#[trigger] final(self).log()[i]).decision
                            && final(self).log()[i].package != ROOT@ ==> pinned(
                            pin_views(res.packages@),
                            final(self).log()[i].package,
                        ) is Some
                    &&& undecided(required_names(final(self).log(), ROOT@), final(self).log()).len() == 0
                    &&& is_solution(final(self).provider_ref(), root_deps@, pin_selection(pin_views(res.packages@)))
                    &&& forall|k: int|
                        #![trigger pin_views(res.packages@)[k]]
                        0 <= k < res.packages@.len() ==> exists|y: int|
                            0 < y < final(self).log().len() && (#[trigger] final(self).log()[y]).decision
                                && final(self).log()[y].package == pin_views(res.packages@)[k].0 && best_of(
                                final(self).provider_ref().listed_versions(pin_views(res.packages@)[k].0),
                                acc_spec(final(self).log(), pin_views(res.packages@)[k].0, y),
                            ) == Some(pin_views(res.packages@)[k].1)
                    &&& forall|k: int|
                        0 <= k < res.packages@.len() ==> final(self).provider_ref().listed_versions(
                            (#[trigger] pin_views(res.packages@)[k]).0,
                        ).contains(pin_views(res.packages@)[k].1)
                    &&& forall|k: int|
                        0 <= k < root_deps@.len() && (#[trigger] root_deps@[k]).0@ != ROOT@ ==> (pinned(
                            pin_views(res.packages@),
                            root_deps@[k].0@,
                        ) matches Some(v) && root_deps@[k].1.has(v))
                },
                Ok(Outcome::Unsolvable(id)) => id < final(self).store().len() && is_terminal(
                    final(self).store()[id as int].terms,
                    ROOT@,
                ),
                Err(e) => e@ == no_termination(),
            },
    {
        let root_ver = self.root_version.clone();
        let mut i: usize = 0;
        while i < root_deps.len()
            invariant
                i <= root_deps@.len(),
                self.provider == old(self).provider,
                self.store_wf(),
                self.log().len() == 0,
                self.level == 0,
                self.store().len() == i,
                root_ver@ == root_version(),
                store_shaped(self.provider, root_deps@, self.store()),
                forall|j: int| 0 <= j < i ==> segs_wf(#[trigger] root_deps@[j].1@),
                forall|j: int|
                    0 <= j < i ==> #[trigger] self.store()[j] == dependency_incompat(
                        ROOT@,
                        root_version(),
                        root_deps@[j].0@,
                        root_deps@[j].1@,
                    ),
            decreases root_deps@.len() - i,
        {
            let (dep, r) = &root_deps[i];
            proof {
                use_type_invariant(r);
            }
            let ghost before = self.store();
            self.add_dependency(ROOT, &root_ver, dep.clone(), r.clone());
            proof {
                let inc = self.store()[i as int];
                assert(inc == dependency_incompat(ROOT@, root_version(), root_deps@[i as int].0@, root_deps@[i as int].1@));
                assert(root_deps@[i as int].0@ == root_deps@[i as int].0@);
                assert(dependency_fact(self.provider, root_deps@, inc));
                lemma_store_shaped_grow(self.provider, root_deps@, before, self.store());
                assert forall|j: int| 0 <= j < i + 1 implies #[trigger] self.store()[j] == dependency_incompat(
                    ROOT@,
                    root_version(),
                    root_deps@[j].0@,
                    root_deps@[j].1@,
                ) by {
                    if j < i {
                        assert(self.store()[j] == before[j]);
                    }
                }
            }
            i = i + 1;
        }
        let ghost root_store = self.store();
        proof {
            assert(root_prefix(root_store, root_deps@));
        }
        self.decide(ROOT, root_ver);
        let mut changed: Vec<String> = Vec::new();
        changed.push(crate::text::string_of(chars_of(ROOT).as_slice()));
        proof {
            assert(self.log()[0].term == root_point());
            assert(root_shaped(self.log()));
            assert(decisions_listed(self.provider, self.log()));
            assert(decisions_best(self.provider, self.log()));
        }
        let mut budget: u64 = u64::MAX;
        let mut guard: usize = 0;
        // the package versions whose dependencies are asked for
        let ghost mut queried: Seq<(Seq<char>, VersionView)> = Seq::empty();
        proof {
            reveal(picks_only);
        }
        loop
            invariant
                picks_only(old(self).provider, queried),
                self.running(),
                self.provider == old(self).provider,
                extends(root_store, self.store()),
                root_prefix(root_store, root_deps@),
                guard <= 1_000_000,
                self.level <= guard + 1,
                root_shaped(self.log()),
                store_shaped(self.provider, root_deps@, self.store()),
                decisions_listed(self.provider, self.log()),
                decisions_best(self.provider, self.log()),
                root_deps@.len() == 0 ==> (guard == 0 && self.store().len() == 0 && self.log().len() == 1 && budget
                    == u64::MAX && changed@.len() == 1),
            decreases 1_000_000 - guard,
        {
            guard = guard + 1;
            if guard > 1_000_000 {
                proof {
                    lemma_root_prefix(root_store, self.store(), root_deps@);
                }
                self.rounds = Ghost(guard as nat);
                self.steps = Ghost((u64::MAX - budget) as nat);
                self.queried = Ghost(queried);
                return Err(crate::text::string_of(chars_of("resolver did not terminate (internal error)").as_slice()));
            }
            // unit propagation
            loop
                invariant
                    self.running(),
                    self.provider == old(self).provider,
                    extends(root_store, self.store()),
                    root_prefix(root_store, root_deps@),
                    guard <= 1_000_000,
                    self.level <= guard,
                    root_shaped(self.log()),
                    store_shaped(self.provider, root_deps@, self.store()),
                    decisions_listed(self.provider, self.log()),
                    decisions_best(self.provider, self.log()),
                    picks_only(old(self).provider, queried),
                    root_deps@.len() == 0 ==> (self.store().len() == 0 && self.log().len() == 1 && (changed@.len()
                        == 0 || (budget == u64::MAX && changed@.len() == 1))),
                decreases budget,
            {
                if changed.len() == 0 {
                    break;
                }
                if budget == 0 {
                    proof {
                        lemma_root_prefix(root_store, self.store(), root_deps@);
                    }
                    self.rounds = Ghost(guard as nat);
                    self.steps = Ghost((u64::MAX - budget) as nat);
                    self.queried = Ghost(queried);
                    return Err(crate::text::string_of(chars_of("resolver did not terminate (internal error)").as_slice()));
                }
                budget = budget - 1;
                let ghost spent = budget;
                let pkg = changed.pop().unwrap();
                let ids = self.ids_for(&pkg);
                proof {
                    if root_deps@.len() == 0 && ids@.len() > 0 {
                        assert(ids@[0] < self.incompats@.len());
                    }
                }
                let mut j: usize = 0;
                while j < ids.len()
                    invariant
                        j <= ids@.len(),
                        self.running(),
                        self.provider == old(self).provider,
                        extends(root_store, self.store()),
                        root_prefix(root_store, root_deps@),
                        forall|k: int| 0 <= k < ids@.len() ==> #[trigger] ids@[k] < self.incompats@.len(),
                        guard <= 1_000_000,
                        self.level <= guard,
                        budget <= spent,
                        root_shaped(self.log()),
                        store_shaped(self.provider, root_deps@, self.store()),
                        decisions_listed(self.provider, self.log()),
                        decisions_best(self.provider, self.log()),
                        picks_only(old(self).provider, queried),
                        root_deps@.len() == 0 ==> (ids@.len() == 0 && self.store().len() == 0 && self.log().len() == 1
                            && changed@.len() == 0),
                    decreases ids@.len() - j,
                {
                    let ci = ids[j];
                    let ghost before_log = self.log();
                    let ghost terms = self.store()[ci as int].terms;
                    match self.eval(ci) {
                        Eval::Conflict => {
                            let ghost before = self.store();
                            let outcome = self.conflict_resolution(ci, &mut budget);
                            proof {
                                lemma_store_shaped_grow(self.provider, root_deps@, before, self.store());
                                assert forall|k: int| 0 <= k < root_store.len() implies self.store()[k] == root_store[k] by {
                                    assert(before[k] == root_store[k]);
                                }
                            }
                            match outcome {
                                None => {
                                    proof {
                                        lemma_root_prefix(root_store, self.store(), root_deps@);
                                    }
                                    self.rounds = Ghost(guard as nat);
                                    self.steps = Ghost((u64::MAX - budget) as nat);
                                    self.queried = Ghost(queried);
                                    return Err(crate::text::string_of(chars_of("resolver did not terminate (internal error)").as_slice()));
                                },
                                Some(Conflict::NoSolution(id)) => {
                                    proof {
                                        lemma_root_prefix(root_store, self.store(), root_deps@);
                                    }
                                    self.rounds = Ghost(guard as nat);
                                    self.steps = Ghost((u64::MAX - budget) as nat);
                                    self.queried = Ghost(queried);
                                    return Ok(Outcome::Unsolvable(id));
                                },
                                Some(Conflict::Learned(unit_pkg)) => {
                                    proof {
                                        let after = self.log();
                                        lemma_level_bound(after, self.level as nat, self.incompats@.len());
                                        lemma_root_shaped_prefix(before_log, after.len() as int);
                                        lemma_decisions_listed_prefix(self.provider, before_log, after.len() as int);
                                        lemma_decisions_best_prefix(self.provider, before_log, after.len() as int);
                                    }
                                    changed = Vec::new();
                                    changed.push(unit_pkg);
                                    break;
                                },
                            }
                        },
                        Eval::Unit(qp, qt) => {
                            proof {
                                // the root is pinned, so no term about it is undecided
                                lemma_root_decided(before_log);
                                use_type_invariant(&qt.range);
                                let k = choose|k: int|
                                    0 <= k < terms.len() && terms[k] == (qp@, qt@) && rel_at(before_log, #[trigger] terms[k])
                                        == Relation::Inconclusive && forall|i: int|
                                        0 <= i < terms.len() && i != k ==> rel_at(before_log, #[trigger] terms[i])
                                            == Relation::Satisfied;
                                assert(rel_at(before_log, (ROOT@, qt@)) != Relation::Inconclusive);
                                assert(qp@ != ROOT@);
                            }
                            self.derive(qp.as_str(), qt.negate(), ci);
                            proof {
                                let after = self.log();
                                lemma_root_shaped_push(before_log, after.last());
                                assert(after =~= before_log.push(after.last()));
                                lemma_decisions_listed_push(self.provider, before_log, after.last());
                                lemma_decisions_best_push(self.provider, before_log, after.last());
                            }
                            changed.push(qp);
                        },
                        Eval::Ignore => {},
                    }
                    j = j + 1;
                }
            }
            // decision
            let candidates = self.required_undecided();
            proof {
                if root_deps@.len() == 0 {
                    let l = self.log();
                    assert(l.drop_last() =~= Seq::<AssignView>::empty());
                    assert(required_names(l.drop_last(), ROOT@) =~= Seq::<Seq<char>>::empty());
                    assert(l.last() == l[0]);
                    assert(required_names(l, ROOT@) =~= Seq::<Seq<char>>::empty());
                    assert(string_seq(candidates@).len() == 0);
                }
            }
            let ghost log = self.log();
            proof {
                lemma_required_names(log, ROOT@);
                lemma_undecided(required_names(log, ROOT@), log);
            }
            if candidates.len() == 0 {
                let packages = self.collect_decisions();
                proof {
                    lemma_root_prefix(root_store, self.store(), root_deps@);
                    assert(string_seq(candidates@) =~= Seq::<Seq<char>>::empty());
                    if root_deps@.len() == 0 && packages@.len() > 0 {
                        assert(decided_pin(self.log(), pin_views(packages@)[0]));
                    }
                }
                // the pins are returned only once they are checked to meet every
                // dependency; otherwise the unmet package is looked at again
                proof {
                    let pv = pin_views(packages@);
                    assert forall|k: int| 0 <= k < pv.len() implies policy_pick(
                        old(self).provider,
                        (#[trigger] pv[k]).0,
                        pv[k].1,
                    ) by {
                        assert(decided_pin(self.log(), pv[k]));
                        let y = choose|y: int|
                            0 <= y < self.log().len() && (#[trigger] self.log()[y]).decision && self.log()[y].package
                                == pv[k].0 && pv[k].0 != ROOT@ && lower_of(self.log()[y].term.range) == Some(pv[k].1);
                        assert(y != 0);
                        assert(best_of(
                            self.provider.listed_versions(pv[k].0),
                            acc_spec(self.log(), pv[k].0, y),
                        ) == Some(pv[k].1));
                    }
                    let q0 = queried;
                    queried = queried + pv;
                    reveal(picks_only);
                    assert forall|k: int| 0 <= k < queried.len() implies policy_pick(
                        old(self).provider,
                        (#[trigger] queried[k]).0,
                        queried[k].1,
                    ) by {
                        if k >= q0.len() {
                            assert(queried[k] == pv[k - q0.len()]);
                        }
                    }
                }
                match self.unmet(&root_deps, &packages) {
                    None => {
                        proof {
                            let pv = pin_views(packages@);
                            assert forall|k: int| #![trigger pv[k]] 0 <= k < pv.len() implies pv[k].0 != ROOT@
                                && self.provider.listed_versions(pv[k].0).contains(pv[k].1) && exists|y: int|
                                0 < y < self.log().len() && (#[trigger] self.log()[y]).decision
                                    && self.log()[y].package == pv[k].0 && best_of(
                                    self.provider.listed_versions(pv[k].0),
                                    acc_spec(self.log(), pv[k].0, y),
                                ) == Some(pv[k].1) by {
                                let pk = pv[k];
                                assert(decided_pin(self.log(), pk));
                                let y = choose|y: int|
                                    0 <= y < self.log().len() && (#[trigger] self.log()[y]).decision
                                        && self.log()[y].package == pk.0 && pk.0 != ROOT@ && lower_of(
                                        self.log()[y].term.range,
                                    ) == Some(pk.1);
                                assert(y != 0);
                            }
                            lemma_pins_solution(self.provider, root_deps@, pv);
                            crate::facts::lemma_solution_meets_deps(self.provider, root_deps@, pv);
                        }
                        self.rounds = Ghost(guard as nat);
                        self.steps = Ghost((u64::MAX - budget) as nat);
                        self.queried = Ghost(queried);
                        return Ok(Outcome::Solved(Resolution { packages }));
                    },
                    Some(n) => {
                        changed = Vec::new();
                        changed.push(n);
                        continue;
                    },
                }
            }
            // fail fast: the first of the candidates with the fewest versions left
            let mut best: usize = 0;
            let mut best_count = self.choose_count(candidates[0].as_str());
            let mut k: usize = 1;
            while k < candidates.len()
                invariant
                    best < candidates@.len(),
                    1 <= k <= candidates@.len(),
                decreases candidates@.len() - k,
            {
                let c = self.choose_count(candidates[k].as_str());
                if c < best_count {
                    best = k;
                    best_count = c;
                }
                k = k + 1;
            }
            let pkg = candidates[best].clone();
            proof {
                assert(string_seq(candidates@)[best as int] == candidates@[best as int]@);
                assert(undecided(required_names(log, ROOT@), log).contains(pkg@));
                assert(required_names(log, ROOT@).contains(pkg@));
            }
            let allowed = self.term_for(pkg.as_str());
            proof {
                lemma_log_wf_grow(self.log(), self.level as nat, self.incompats@.len());
            }
            match self.choose_version(pkg.as_str(), &allowed) {
                None => {
                    let mut terms: Vec<(String, Term)> = Vec::new();
                    proof {
                        use_type_invariant(&allowed);
                        let lv = self.provider.listed_versions(pkg@);
                        law_best_version(lv, allowed@);
                        lemma_matching(lv, allowed@);
                        assert forall|j: int| 0 <= j < lv.len() implies !segs_contain(allowed@, #[trigger] lv[j]) by {
                            assert(lv.contains(lv[j]));
                            if segs_contain(allowed@, lv[j]) {
                                assert(matching(lv, allowed@).contains(lv[j]));
                            }
                        }
                    }
                    let ghost aw = allowed@;
                    terms.push((pkg.clone(), Term::positive(allowed)));
                    let ghost before = self.store();
                    self.add_incompat(terms, Cause::NoVersions { package: pkg.clone() });
                    proof {
                        let inc = self.store()[before.len() as int];
                        assert(inc.terms =~= seq![(pkg@, TermView { positive: true, range: aw })]);
                        assert(no_versions_fact(self.provider, inc));
                        lemma_store_shaped_grow(self.provider, root_deps@, before, self.store());
                        assert forall|k: int| 0 <= k < root_store.len() implies self.store()[k] == root_store[k] by {
                            assert(before[k] == root_store[k]);
                        }
                    }
                    changed = Vec::new();
                    changed.push(pkg);
                },
                Some(ver) => {
                    proof {
                        law_best_version(self.provider.listed_versions(pkg@), allowed@);
                        let q0 = queried;
                        queried = queried.push((pkg@, ver@));
                        reveal(picks_only);
                        assert forall|k: int| 0 <= k < queried.len() implies policy_pick(
                            old(self).provider,
                            (#[trigger] queried[k]).0,
                            queried[k].1,
                        ) by {
                            if k < q0.len() {
                                assert(queried[k] == q0[k]);
                            } else {
                                assert(best_of(self.provider.listed_versions(pkg@), allowed@) == Some(ver@));
                            }
                        }
                    }
                    let ghost listed = self.provider.listed_dependencies(pkg@, ver@);
                    let deps = match self.provider.dependencies(pkg.as_str(), &ver) {
                        Some(d) => d,
                        None => Vec::new(),
                    };
                    proof {
                        assert(deps@.len() > 0 ==> listed == Some(dep_views(deps@)));
                        law_best_version(self.provider.listed_versions(pkg@), allowed@);
                    }
                    let ghost level0 = self.level;
                    let mut d: usize = 0;
                    while d < deps.len()
                        invariant
                            store_shaped(self.provider, root_deps@, self.store()),
                            deps@.len() > 0 ==> self.provider.listed_dependencies(pkg@, ver@) == Some(dep_views(deps@)),
                            self.provider.listed_versions(pkg@).contains(ver@),
                            pkg@ != ROOT@,
                            d <= deps@.len(),
                            self.running(),
                            self.provider == old(self).provider,
                            extends(root_store, self.store()),
                            root_prefix(root_store, root_deps@),
                            self.level <= guard,
                            guard <= 1_000_000,
                            self.log() == log,
                            self.level == level0,
                        decreases deps@.len() - d,
                    {
                        let (dep, r) = &deps[d];
                        let ghost before = self.store();
                        proof {
                            lemma_log_wf_grow(self.log(), self.level as nat, self.incompats@.len());
                            use_type_invariant(r);
                        }
                        self.add_dependency(pkg.as_str(), &ver, dep.clone(), r.clone());
                        proof {
                            let inc = self.store()[before.len() as int];
                            assert(dep_views(deps@)[d as int] == (dep@, r@));
                            assert(dependency_fact(self.provider, root_deps@, inc));
                            lemma_store_shaped_grow(self.provider, root_deps@, before, self.store());
                            assert forall|k: int| 0 <= k < root_store.len() implies self.store()[k] == root_store[k] by {
                                assert(before[k] == root_store[k]);
                            }
                        }
                        d = d + 1;
                    }
                    proof {
                        lemma_level_bound(self.log(), self.level as nat, self.incompats@.len());
                        lemma_level_range(self.log(), self.level as nat, self.incompats@.len());
                        crate::range::lemma_cut_split(crate::range::before(ver@), ver@);
                    }
                    let ghost vv = ver@;
                    self.decide(pkg.as_str(), ver);
                    proof {
                        let after = self.log();
                        assert(lower_of(after.last().term.range) == Some(vv));
                        lemma_decisions_listed_push(self.provider, log, after.last());
                        lemma_decisions_best_push(self.provider, log, after.last());
                        lemma_root_shaped_push(log, after.last());
                        assert(after =~= log.push(after.last()));
                    }
                    changed = Vec::new();
                    changed.push(pkg);
                },
            }
        }
    }
}

} // verus!
