//! A `Term` is a statement about a single package: its version is in a range
//! (positive) or not in a range (negative). Terms range over *package states*:
//! a concrete version, or the package being absent. A negative term is
//! satisfied by absence; a positive term is not.
use vstd::prelude::*;
use crate::range::{
    Range, Seg, segs_wf, segs_contain, segs_complement, segs_intersect, segs_union, lemma_complement,
    lemma_intersect, lemma_union,
};
use crate::version::{Version, VersionView};

verus! {

pub struct Term {
    pub positive: bool,
    pub range: Range,
}

/// A term as plain values.
pub struct TermView {
    pub positive: bool,
    pub range: Seq<Seg>,
}

impl View for Term {
    type V = TermView;

    open spec fn view(&self) -> TermView {
        TermView { positive: self.positive, range: self.range@ }
    }
}

/// How an accumulated assumption stands against a term.
#[derive(Debug, PartialEq, Eq, Structural, Clone, Copy)]
pub enum Relation {
    /// Every possible version already makes the term true.
    Satisfied,
    /// No possible version can make the term true.
    Contradicted,
    /// Some can, some cannot: undecided.
    Inconclusive,
}

/// The intervals of the versions for which a term is true.
pub open spec fn allowed(t: TermView) -> Seq<Seg> {
    if t.positive {
        t.range
    } else {
        segs_complement(t.range)
    }
}

/// Whether a package state (`None` for absent) makes the term true.
pub open spec fn holds(t: TermView, state: Option<VersionView>) -> bool {
    match state {
        None => !t.positive,
        Some(v) => t.positive == segs_contain(t.range, v),
    }
}

/// The term over `versions` that also covers absence when `absent` is set.
pub open spec fn from_parts(versions: Seq<Seg>, absent: bool) -> TermView {
    if absent {
        TermView { positive: false, range: segs_complement(versions) }
    } else {
        TermView { positive: true, range: versions }
    }
}

pub open spec fn term_intersect(a: TermView, b: TermView) -> TermView {
    from_parts(segs_intersect(allowed(a), allowed(b)), !a.positive && !b.positive)
}

pub open spec fn term_union(a: TermView, b: TermView) -> TermView {
    from_parts(segs_union(allowed(a), allowed(b)), !a.positive || !b.positive)
}

/// Every state allowed by `a` is allowed by `b`, read off the interval lists.
pub open spec fn subset_of(a: TermView, b: TermView) -> bool {
    (!b.positive || a.positive) && segs_intersect(allowed(a), allowed(b)) == allowed(a)
}

/// The relation of an accumulated per-package state `acc` to the term `t`.
pub open spec fn relation_to_spec(t: TermView, acc: TermView) -> Relation {
    if subset_of(acc, t) {
        Relation::Satisfied
    } else if term_intersect(acc, t).positive && term_intersect(acc, t).range.len() == 0 {
        Relation::Contradicted
    } else {
        Relation::Inconclusive
    }
}

/// The relation of the versions `have` still possible for a package to the term `t`.
pub open spec fn relation_spec(t: TermView, have: Seq<Seg>) -> Relation {
    let inside = segs_intersect(have, allowed(t));
    if inside == have {
        Relation::Satisfied
    } else if inside.len() == 0 {
        Relation::Contradicted
    } else {
        Relation::Inconclusive
    }
}

/// The allowed set of a term is exact: it holds the versions that make the term true.
pub proof fn lemma_allowed(t: TermView)
    requires
        segs_wf(t.range),
    ensures
        segs_wf(allowed(t)),
        forall|v: VersionView| segs_contain(allowed(t), v) <==> holds(t, Some(v)),
{
    lemma_complement(t.range);
}

/// A term built from parts holds exactly on `versions` and, when `absent`, on absence.
pub proof fn lemma_from_parts(versions: Seq<Seg>, absent: bool)
    requires
        segs_wf(versions),
    ensures
        segs_wf(from_parts(versions, absent).range),
        holds(from_parts(versions, absent), None) == absent,
        forall|v: VersionView| holds(from_parts(versions, absent), Some(v)) <==> segs_contain(versions, v),
{
    lemma_complement(versions);
}

proof fn lemma_allowed_at(t: TermView, v: VersionView)
    requires
        segs_wf(t.range),
    ensures
        segs_contain(allowed(t), v) == holds(t, Some(v)),
{
    lemma_complement(t.range);
}

proof fn lemma_from_parts_at(versions: Seq<Seg>, absent: bool, v: VersionView)
    requires
        segs_wf(versions),
    ensures
        holds(from_parts(versions, absent), Some(v)) == segs_contain(versions, v),
{
    lemma_complement(versions);
}

/// Negation flips the truth of a term in every state.
pub proof fn law_negate(t: TermView, state: Option<VersionView>)
    ensures
        holds(TermView { positive: !t.positive, range: t.range }, state) == !holds(t, state),
{
}

/// The intersection of two terms holds exactly where both hold.
pub proof fn law_term_intersect(a: TermView, b: TermView, state: Option<VersionView>)
    requires
        segs_wf(a.range),
        segs_wf(b.range),
    ensures
        segs_wf(term_intersect(a, b).range),
        holds(term_intersect(a, b), state) == (holds(a, state) && holds(b, state)),
{
    lemma_allowed(a);
    lemma_allowed(b);
    lemma_intersect(allowed(a), allowed(b));
    lemma_from_parts(segs_intersect(allowed(a), allowed(b)), !a.positive && !b.positive);
    if let Some(v) = state {
        lemma_allowed_at(a, v);
        lemma_allowed_at(b, v);
        lemma_from_parts_at(segs_intersect(allowed(a), allowed(b)), !a.positive && !b.positive, v);
    }
}

/// The union of two terms holds exactly where either holds.
pub proof fn law_term_union(a: TermView, b: TermView, state: Option<VersionView>)
    requires
        segs_wf(a.range),
        segs_wf(b.range),
    ensures
        segs_wf(term_union(a, b).range),
        holds(term_union(a, b), state) == (holds(a, state) || holds(b, state)),
{
    lemma_allowed(a);
    lemma_allowed(b);
    lemma_union(allowed(a), allowed(b));
    lemma_from_parts(segs_union(allowed(a), allowed(b)), !a.positive || !b.positive);
    if let Some(v) = state {
        lemma_allowed_at(a, v);
        lemma_allowed_at(b, v);
        lemma_from_parts_at(segs_union(allowed(a), allowed(b)), !a.positive || !b.positive, v);
    }
}

/// `Satisfied` means every version still possible makes the term true, and
/// `Contradicted` that none does.
pub proof fn law_relation(t: TermView, have: Seq<Seg>, v: VersionView)
    requires
        segs_wf(t.range),
        segs_wf(have),
    ensures
        relation_spec(t, have) == Relation::Satisfied ==> (segs_contain(have, v) ==> holds(t, Some(v))),
        relation_spec(t, have) == Relation::Contradicted ==> !(segs_contain(have, v) && holds(t, Some(v))),
{
    lemma_allowed(t);
    lemma_intersect(have, allowed(t));
    if relation_spec(t, have) == Relation::Contradicted {
        assert(!segs_contain(segs_intersect(have, allowed(t)), v));
    }
}

/// `Satisfied` means every state `acc` allows makes the term true, and
/// `Contradicted` that no state does.
pub proof fn law_relation_to(t: TermView, acc: TermView, state: Option<VersionView>)
    requires
        segs_wf(t.range),
        segs_wf(acc.range),
    ensures
        relation_to_spec(t, acc) == Relation::Satisfied ==> (holds(acc, state) ==> holds(t, state)),
        relation_to_spec(t, acc) == Relation::Contradicted ==> !(holds(acc, state) && holds(t, state)),
{
    lemma_allowed(t);
    lemma_allowed(acc);
    lemma_intersect(allowed(acc), allowed(t));
    law_term_intersect(acc, t, state);
    match state {
        Some(v) => {
            lemma_allowed_at(t, v);
            lemma_allowed_at(acc, v);
            if relation_to_spec(t, acc) == Relation::Contradicted {
                assert(!segs_contain(term_intersect(acc, t).range, v));
            }
        },
        None => {},
    }
}

impl Clone for Term {
    fn clone(&self) -> (r: Self)
        ensures
            r@ == self@,
    {
        Term { positive: self.positive, range: self.range.clone() }
    }
}

impl Term {
    pub fn positive(range: Range) -> (t: Term)
        ensures
            t@ == (TermView { positive: true, range: range@ }),
    {
        Term { positive: true, range }
    }

    pub fn negative(range: Range) -> (t: Term)
        ensures
            t@ == (TermView { positive: false, range: range@ }),
    {
        Term { positive: false, range }
    }

    /// The term "the version is exactly `v`".
    pub fn exact(v: Version) -> (t: Term)
        ensures
            t@ == (TermView { positive: true, range: seq![(crate::range::before(v@), crate::range::after(v@))] }),
    {
        Term::positive(Range::exact(v))
    }

    /// The set of versions for which this term is true.
    pub fn allowed(&self) -> (r: Range)
        ensures
            r@ == allowed(self@),
            forall|v: VersionView| r.has(v) <==> holds(self@, Some(v)),
    {
        if self.positive {
            self.range.clone()
        } else {
            self.range.complement()
        }
    }

    pub fn negate(&self) -> (t: Term)
        ensures
            t@ == (TermView { positive: !self.positive, range: self.range@ }),
            forall|s: Option<VersionView>| holds(t@, s) == !holds(self@, s),
    {
        Term { positive: !self.positive, range: self.range.clone() }
    }

    fn from_parts(versions: Range, absent: bool) -> (t: Term)
        ensures
            t@ == from_parts(versions@, absent),
    {
        if absent {
            Term::negative(versions.complement())
        } else {
            Term::positive(versions)
        }
    }

    /// The states both terms allow.
    pub fn intersect(&self, other: &Term) -> (t: Term)
        ensures
            t@ == term_intersect(self@, other@),
            forall|s: Option<VersionView>| holds(t@, s) == (holds(self@, s) && holds(other@, s)),
    {
        proof {
            use_type_invariant(&self.range);
            use_type_invariant(&other.range);
            assert forall|s: Option<VersionView>|
                holds(term_intersect(self@, other@), s) == (holds(self@, s) && holds(other@, s)) by {
                law_term_intersect(self@, other@, s);
            }
        }
        let versions = self.allowed().intersect(&other.allowed());
        Term::from_parts(versions, !self.positive && !other.positive)
    }

    /// The states either term allows.
    pub fn union(&self, other: &Term) -> (t: Term)
        ensures
            t@ == term_union(self@, other@),
            forall|s: Option<VersionView>| holds(t@, s) == (holds(self@, s) || holds(other@, s)),
    {
        proof {
            use_type_invariant(&self.range);
            use_type_invariant(&other.range);
            assert forall|s: Option<VersionView>|
                holds(term_union(self@, other@), s) == (holds(self@, s) || holds(other@, s)) by {
                law_term_union(self@, other@, s);
            }
        }
        let versions = self.allowed().union(&other.allowed());
        Term::from_parts(versions, !self.positive || !other.positive)
    }

    /// True when every state (absence or any version) satisfies the term, so it
    /// constrains nothing.
    pub fn is_universal(&self) -> (r: bool)
        ensures
            r == (!self.positive && segs_complement(allowed(self@)).len() == 0),
            r ==> forall|s: Option<VersionView>| holds(self@, s),
    {
        proof {
            use_type_invariant(&self.range);
            lemma_allowed(self@);
            lemma_complement(allowed(self@));
            if !self.positive && segs_complement(allowed(self@)).len() == 0 {
                assert forall|s: Option<VersionView>| holds(self@, s) by {
                    match s {
                        Some(v) => {
                            lemma_allowed_at(self@, v);
                            assert(!segs_contain(segs_complement(allowed(self@)), v));
                        },
                        None => {},
                    }
                }
            }
        }
        !self.positive && self.allowed().complement().is_empty()
    }

    /// No state at all satisfies the term (positive over an empty range).
    fn is_empty_state(&self) -> (r: bool)
        ensures
            r == (self@.positive && self@.range.len() == 0),
    {
        self.positive && self.range.is_empty()
    }

    /// The accumulated state that constrains nothing yet: absence or any version.
    pub fn any_state() -> (t: Term)
        ensures
            t@ == (TermView { positive: false, range: Seq::empty() }),
            forall|s: Option<VersionView>| holds(t@, s),
    {
        Term::negative(Range::empty())
    }

    fn subset_of(&self, other: &Term) -> (r: bool)
        ensures
            r == subset_of(self@, other@),
    {
        let mine = self.allowed();
        (!other.positive || self.positive) && mine.intersect(&other.allowed()).same_as(&mine)
    }

    /// Relation of an accumulated per-package state `acc` (the states the package
    /// can still take) to this term.
    pub fn relation_to(&self, acc: &Term) -> (r: Relation)
        ensures
            r == relation_to_spec(self@, acc@),
            forall|s: Option<VersionView>|
                r == Relation::Satisfied ==> (holds(acc@, s) ==> holds(self@, s)),
            forall|s: Option<VersionView>|
                r == Relation::Contradicted ==> !(holds(acc@, s) && holds(self@, s)),
    {
        proof {
            use_type_invariant(&self.range);
            use_type_invariant(&acc.range);
            assert forall|s: Option<VersionView>|
                relation_to_spec(self@, acc@) == Relation::Satisfied && holds(acc@, s) implies holds(
                    self@,
                    s,
                ) by {
                law_relation_to(self@, acc@, s);
            }
            assert forall|s: Option<VersionView>|
                relation_to_spec(self@, acc@) == Relation::Contradicted implies !(holds(acc@, s) && holds(
                    self@,
                    s,
                )) by {
                law_relation_to(self@, acc@, s);
            }
        }
        if acc.subset_of(self) {
            Relation::Satisfied
        } else if acc.intersect(self).is_empty_state() {
            Relation::Contradicted
        } else {
            Relation::Inconclusive
        }
    }

    /// Relation of an accumulated allowed set `have` (the versions still possible
    /// for this package) to this term.
    pub fn relation(&self, have: &Range) -> (r: Relation)
        ensures
            r == relation_spec(self@, have@),
            forall|v: VersionView| r == Relation::Satisfied ==> (have.has(v) ==> holds(self@, Some(v))),
            forall|v: VersionView|
                r == Relation::Contradicted ==> !(have.has(v) && holds(self@, Some(v))),
    {
        proof {
            use_type_invariant(&self.range);
            use_type_invariant(have);
            assert forall|v: VersionView|
                relation_spec(self@, have@) == Relation::Satisfied && have.has(v) implies holds(
                    self@,
                    Some(v),
                ) by {
                law_relation(self@, have@, v);
            }
            assert forall|v: VersionView|
                relation_spec(self@, have@) == Relation::Contradicted implies !(have.has(v) && holds(
                    self@,
                    Some(v),
                )) by {
                law_relation(self@, have@, v);
            }
        }
        let want = self.allowed();
        let inside = have.intersect(&want);
        if inside.same_as(have) {
            Relation::Satisfied
        } else if inside.is_empty() {
            Relation::Contradicted
        } else {
            Relation::Inconclusive
        }
    }
}

} // verus!
