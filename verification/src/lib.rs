//! Quartermaster: a small package manager whose interesting half is a readable
//! dependency resolver. Given a set of top-level constraints and a package
//! registry, [`resolve`] either returns an exact version for every transitive
//! dependency or a plain-English proof that no such set exists.
//!
//! The resolver ([`solver`]) is a PubGrub implementation; the version and range
//! algebra it stands on ([`version`], [`range`]) are their own pieces, and a
//! failed resolution is rendered by [`explain`].
pub mod cli;
pub mod constraint;
pub mod error;
pub mod explain;
pub mod facts;
pub mod incompat;
pub mod install;
pub mod lock;
pub mod manifest;
pub mod order;
pub mod pins;
pub mod range;
pub mod registry;
pub mod solver;
pub mod term;
pub mod tree;
pub mod text;
pub mod version;

pub use error::{Error, Result};
pub use range::Range;
pub use registry::{Provider, Registry};
pub use version::Version;

use vstd::prelude::*;
use incompat::{IncompatView, is_terminal};
use facts::{store_shaped, well_posed, is_solution, pin_selection, policy_pick};
use version::VersionView;
use pins::{pin_views, pins_sorted, pinned};
use solver::{Outcome, Solver, ROOT, acc_spec, best_of, derivations_acyclic, no_termination, root_prefix};

verus! {

/// The outcome of resolving a dependency set.
pub enum Resolved {
    /// Every package pinned to an exact version, sorted by name.
    Solved(Vec<(String, Version)>),
    /// No solution exists; the string is a human-readable proof of why.
    Conflict(String),
}

/// Resolves `root_deps`, the project's own direct dependencies as (name,
/// constraint) pairs, against `provider`. A solution is one: every dependency
/// of the project, and every dependency the provider lists for a pinned
/// version, is pinned within its range, and every pin is the selection
/// policy's pick among the versions the provider lists (see
/// [`facts::is_solution`] and [`facts::policy_pick`]); an empty project
/// resolves to nothing. A conflict is answered with the report of a terminal
/// incompatibility derived by resolution from the project's dependencies and
/// what the provider lists; on well-posed inputs (see [`facts::well_posed`])
/// it is a proof that no solution exists. `Err` means the search ran out of
/// steps (see [`solver::Solver::solve`]).
pub fn resolve<P: Provider + ?Sized>(provider: &P, root_deps: Vec<(String, Range)>) -> (r: std::result::Result<
    Resolved,
    String,
>)
    ensures
        match r {
            Ok(Resolved::Solved(pins)) => {
                &&& pins_sorted(pin_views(pins@))
                &&& is_solution(provider, root_deps@, pin_selection(pin_views(pins@)))
                &&& forall|k: int|
                    0 <= k < pins@.len() ==> policy_pick(
                        provider,
                        (#[trigger] pin_views(pins@)[k]).0,
                        pin_views(pins@)[k].1,
                    )
                &&& forall|k: int|
                    0 <= k < root_deps@.len() && (#[trigger] root_deps@[k]).0@ != ROOT@ ==> (pinned(
                        pin_views(pins@),
                        root_deps@[k].0@,
                    ) matches Some(v) && root_deps@[k].1.has(v))
                &&& forall|k: int|
                    0 <= k < pins@.len() ==> provider.listed_versions((#[trigger] pin_views(pins@)[k]).0).contains(
                        pin_views(pins@)[k].1,
                    )
            },
            Ok(Resolved::Conflict(text)) => {
                &&& root_deps@.len() > 0
                &&& exists|store: Seq<IncompatView>, id: int|
                    0 <= id < store.len() && derivations_acyclic(store) && root_prefix(store, root_deps@)
                        && store_shaped(provider, root_deps@, store) && is_terminal(
                        #[trigger] store[id].terms,
                        ROOT@,
                    ) && text@ == explain::report_text(store, id)
                &&& well_posed(provider, root_deps@) ==> forall|sel: spec_fn(Seq<char>) -> Option<VersionView>|
                    !#[trigger] is_solution(provider, root_deps@, sel)
            },
            Err(e) => e@ == no_termination(),
        },
        root_deps@.len() == 0 ==> (r matches Ok(Resolved::Solved(pins)) && pins@.len() == 0),
{
    let ghost deps = root_deps@;
    let mut solver = Solver::new(provider);
    match solver.solve(root_deps) {
        Err(e) => Err(e),
        Ok(Outcome::Solved(res)) => {
            let pins = res.packages;
            proof {
                assert(solver.provider_ref() == provider);
                assert forall|k: int|
                    0 <= k < pins@.len() implies policy_pick(
                        provider,
                        (#[trigger] pin_views(pins@)[k]).0,
                        pin_views(pins@)[k].1,
                    ) by {
                    let y = choose|y: int|
                        0 < y < solver.log().len() && (#[trigger] solver.log()[y]).decision && solver.log()[y].package
                            == pin_views(pins@)[k].0 && best_of(
                            solver.provider_ref().listed_versions(pin_views(pins@)[k].0),
                            acc_spec(solver.log(), pin_views(pins@)[k].0, y),
                        ) == Some(pin_views(pins@)[k].1);
                    assert(best_of(
                        provider.listed_versions(pin_views(pins@)[k].0),
                        acc_spec(solver.log(), pin_views(pins@)[k].0, y),
                    ) == Some(pin_views(pins@)[k].1));
                }
            }
            Ok(Resolved::Solved(pins))
        },
        Ok(Outcome::Unsolvable(id)) => {
            proof {
                explain::lemma_acyclic_well_founded(solver.store());
            }
            let text = explain::report(solver.incompatibilities().as_slice(), id);
            proof {
                let store = solver.store();
                assert(is_terminal(store[id as int].terms, ROOT@));
                if well_posed(provider, deps) {
                    assert forall|sel: spec_fn(Seq<char>) -> Option<VersionView>|
                        !#[trigger] is_solution(provider, deps, sel) by {
                        facts::law_terminal_is_proof(provider, deps, store, id as int, sel);
                    }
                }
            }
            Ok(Resolved::Conflict(text))
        },
    }
}

} // verus!
