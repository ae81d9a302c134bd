//! An `Incompatibility` is a set of terms that can never all be true at once.
//! A dependency "p at v requires dep in r" is the incompatibility
//! { p = v, not dep in r }; a dead end is "no published version of p is in r";
//! every other one is derived by resolution. Each remembers why it exists, so a
//! failed resolution can be replayed as a proof. There is at most one term per
//! package.
use vstd::prelude::*;
use crate::term::{Term, TermView};
use crate::text::str_eq;

verus! {

pub type IncompatId = usize;

pub enum Cause {
    /// The synthetic root package that carries the project's own dependencies.
    Root,
    /// `package`@`version` depends on `dep` within a range.
    Dependency { package: String, version: String, dep: String },
    /// No published version of `package` falls in the required range.
    NoVersions { package: String },
    /// Learned by resolving two earlier incompatibilities during a conflict.
    Derived(IncompatId, IncompatId),
}

/// A cause as plain values.
pub enum CauseView {
    Root,
    Dependency { package: Seq<char>, version: Seq<char>, dep: Seq<char> },
    NoVersions { package: Seq<char> },
    Derived(nat, nat),
}

impl View for Cause {
    type V = CauseView;

    open spec fn view(&self) -> CauseView {
        match self {
            Cause::Root => CauseView::Root,
            Cause::Dependency { package, version, dep } => CauseView::Dependency {
                package: package@,
                version: version@,
                dep: dep@,
            },
            Cause::NoVersions { package } => CauseView::NoVersions { package: package@ },
            Cause::Derived(a, b) => CauseView::Derived(*a as nat, *b as nat),
        }
    }
}

impl Clone for Cause {
    fn clone(&self) -> (r: Self)
        ensures
            r@ == self@,
    {
        match self {
            Cause::Root => Cause::Root,
            Cause::Dependency { package, version, dep } => Cause::Dependency {
                package: package.clone(),
                version: version.clone(),
                dep: dep.clone(),
            },
            Cause::NoVersions { package } => Cause::NoVersions { package: package.clone() },
            Cause::Derived(a, b) => Cause::Derived(*a, *b),
        }
    }
}

/// A package name with its term, as plain values.
pub type NamedTerm = (Seq<char>, TermView);

pub open spec fn named_terms(ts: Seq<(String, Term)>) -> Seq<NamedTerm> {
    ts.map_values(|p: (String, Term)| (p.0@, p.1@))
}

pub struct Incompatibility {
    /// Terms keyed by package, at most one per package.
    pub terms: Vec<(String, Term)>,
    pub cause: Cause,
}

/// An incompatibility as plain values.
pub struct IncompatView {
    pub terms: Seq<NamedTerm>,
    pub cause: CauseView,
}

impl View for Incompatibility {
    type V = IncompatView;

    open spec fn view(&self) -> IncompatView {
        IncompatView { terms: named_terms(self.terms@), cause: self.cause@ }
    }
}

/// Index of the first term about `package`, or the number of terms when none is.
pub open spec fn term_index(terms: Seq<NamedTerm>, package: Seq<char>) -> nat
    decreases terms.len(),
{
    if terms.len() == 0 {
        0
    } else if terms[0].0 == package {
        0
    } else {
        1 + term_index(terms.drop_first(), package)
    }
}

pub proof fn lemma_term_index(terms: Seq<NamedTerm>, package: Seq<char>, k: int)
    requires
        0 <= k <= terms.len(),
        forall|i: int| 0 <= i < k ==> (#[trigger] terms[i]).0 != package,
        k == terms.len() || terms[k].0 == package,
    ensures
        term_index(terms, package) == k,
    decreases k,
{
    if k > 0 {
        assert forall|i: int| 0 <= i < k - 1 implies (#[trigger] terms.drop_first()[i]).0 != package by {
            assert(terms.drop_first()[i] == terms[i + 1]);
        }
        if k < terms.len() {
            assert(terms.drop_first()[k - 1] == terms[k]);
        }
        lemma_term_index(terms.drop_first(), package, k - 1);
    }
}

/// The term about `package`, if there is one.
pub open spec fn term_of(terms: Seq<NamedTerm>, package: Seq<char>) -> Option<TermView> {
    let k = term_index(terms, package) as int;
    if k < terms.len() {
        Some(terms[k].1)
    } else {
        None
    }
}

/// A terminal incompatibility: no terms, or only one about the fixed root.
pub open spec fn is_terminal(terms: Seq<NamedTerm>, root: Seq<char>) -> bool {
    terms.len() == 0 || (terms.len() == 1 && terms[0].0 == root)
}

impl Incompatibility {
    pub fn new(terms: Vec<(String, Term)>, cause: Cause) -> (r: Incompatibility)
        ensures
            r.terms@ == terms@,
            r@ == (IncompatView { terms: named_terms(terms@), cause: cause@ }),
    {
        Incompatibility { terms, cause }
    }

    /// The term about `package`, if the incompatibility has one.
    pub fn term_for(&self, package: &str) -> (r: Option<&Term>)
        ensures
            match r {
                Some(t) => term_of(self@.terms, package@) == Some(t@),
                None => term_of(self@.terms, package@) is None,
            },
    {
        let mut i: usize = 0;
        while i < self.terms.len()
            invariant
                i <= self.terms@.len(),
                forall|j: int| 0 <= j < i ==> (#[trigger] self@.terms[j]).0 != package@,
            decreases self.terms@.len() - i,
        {
            proof {
                assert(self@.terms[i as int] == (self.terms@[i as int].0@, self.terms@[i as int].1@));
            }
            if str_eq(self.terms[i].0.as_str(), package) {
                proof {
                    lemma_term_index(self@.terms, package@, i as int);
                }
                return Some(&self.terms[i].1);
            }
            i = i + 1;
        }
        proof {
            lemma_term_index(self@.terms, package@, i as int);
        }
        None
    }

    /// The packages the incompatibility speaks of, in order.
    pub fn packages(&self) -> (r: Vec<String>)
        ensures
            r@.map_values(|s: String| s@) == self@.terms.map_values(|p: NamedTerm| p.0),
    {
        let mut out: Vec<String> = Vec::new();
        let mut i: usize = 0;
        while i < self.terms.len()
            invariant
                i <= self.terms@.len(),
                out@.map_values(|s: String| s@) == self@.terms.map_values(|p: NamedTerm| p.0).take(
                    i as int,
                ),
            decreases self.terms@.len() - i,
        {
            let ghost prev = out@;
            let name = self.terms[i].0.clone();
            out.push(name);
            proof {
                assert(self@.terms[i as int] == (self.terms@[i as int].0@, self.terms@[i as int].1@));
                assert(out@.map_values(|s: String| s@) =~= prev.map_values(|s: String| s@).push(
                    self.terms@[i as int].0@,
                ));
                assert(out@.map_values(|s: String| s@) =~= self@.terms.map_values(|p: NamedTerm| p.0).take(
                    i + 1,
                ));
            }
            i = i + 1;
        }
        proof {
            assert(self@.terms.map_values(|p: NamedTerm| p.0).take(self@.terms.len() as int)
                =~= self@.terms.map_values(|p: NamedTerm| p.0));
        }
        out
    }

    /// Whether resolution has bottomed out at the project's own requirements:
    /// no terms remain, or only the one about the root, which is fixed.
    pub fn is_terminal(&self, root: &str) -> (r: bool)
        ensures
            r == is_terminal(self@.terms, root@),
    {
        proof {
            if self.terms@.len() == 1 {
                assert(self@.terms[0] == (self.terms@[0].0@, self.terms@[0].1@));
            }
        }
        self.terms.len() == 0 || (self.terms.len() == 1 && str_eq(self.terms[0].0.as_str(), root))
    }
}

} // verus!
