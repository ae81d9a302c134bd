//! Turns a failed resolution into a proof a human can read. The terminal
//! incompatibility is the root of a derivation tree whose leaves are real facts
//! ("the project depends on X", "A 1.0 depends on B", "no version of C matches
//! ..."). A post-order walk renders that tree as a chain of "Because ... and
//! ..., ..." lines ending in the contradiction.
use vstd::prelude::*;
use crate::incompat::{Cause, CauseView, IncompatView, Incompatibility, NamedTerm, term_of};
use crate::range::friendly_text;
use crate::solver::{ROOT, derivations_acyclic, incompat_views};
use crate::term::{allowed, holds, TermView};
use crate::range::segs_contain;
use crate::version::VersionView;
use crate::text::{chars_of, decimal, join, join_chars, push_decimal, push_str, str_eq, string_of, views};
use crate::version::string_views;

verus! {

/// The friendly range of the dependency term about `dep`, or `*` when there is none.
pub open spec fn dep_range_text(inc: IncompatView, dep: Seq<char>) -> Seq<char> {
    match term_of(inc.terms, dep) {
        Some(t) => friendly_text(t.range),
        None => "*"@,
    }
}

/// The friendly set of versions that the term about `package` allows, or `*`.
pub open spec fn allowed_text(inc: IncompatView, package: Seq<char>) -> Seq<char> {
    match term_of(inc.terms, package) {
        Some(t) => friendly_text(allowed(t)),
        None => "*"@,
    }
}

/// One term of a learned incompatibility read as a requirement.
pub open spec fn part_text(t: NamedTerm) -> Seq<char> {
    if t.1.positive {
        t.0 + " "@ + friendly_text(t.1.range)
    } else {
        t.0 + " outside "@ + friendly_text(t.1.range)
    }
}

/// A term of a learned incompatibility is phrased by what makes it true: it
/// reads `p R` only when it holds for exactly the versions in `R` and not for
/// an absent package, and `p outside R` only when it holds for exactly the
/// versions missing from `R` and for an absent package.
pub proof fn law_part_text_reads_term(p: Seq<char>, t: TermView, v: VersionView)
    ensures
        part_text((p, t)) == p + " "@ + friendly_text(t.range) || part_text((p, t)) == p + " outside "@
            + friendly_text(t.range),
        part_text((p, t)) == p + " "@ + friendly_text(t.range) ==> !holds(t, None) && (holds(t, Some(v))
            == segs_contain(t.range, v)),
        part_text((p, t)) == p + " outside "@ + friendly_text(t.range) ==> holds(t, None) && (holds(
            t,
            Some(v),
        ) == !segs_contain(t.range, v)),
{
    reveal_strlit(" ");
    reveal_strlit(" outside ");
    let f = friendly_text(t.range);
    assert((p + " "@ + f).len() != (p + " outside "@ + f).len());
}

/// The terms not about the root, each read as a requirement, in order.
pub open spec fn generic_parts(terms: Seq<NamedTerm>) -> Seq<Seq<char>>
    decreases terms.len(),
{
    if terms.len() == 0 {
        Seq::empty()
    } else {
        let r = generic_parts(terms.drop_last());
        if terms.last().0 == ROOT@ {
            r
        } else {
            r.push(part_text(terms.last()))
        }
    }
}

/// The phrasing of a learned incompatibility: its remaining terms read as a
/// joint requirement.
pub open spec fn generic_text(terms: Seq<NamedTerm>) -> Seq<char> {
    if terms.len() == 1 && terms[0].0 == ROOT@ {
        "the project's requirements are contradictory"@
    } else {
        let parts = generic_parts(terms);
        if parts.len() == 0 {
            "the requirements conflict"@
        } else if parts.len() == 1 {
            parts[0] + " cannot be used"@
        } else {
            join(parts, " and "@) + " cannot be chosen together"@
        }
    }
}

/// A one-clause description of what an incompatibility forbids, phrased as a
/// requirement wherever the shape allows.
pub open spec fn describe_text(inc: IncompatView) -> Seq<char> {
    match inc.cause {
        CauseView::Dependency { package, version, dep } => if package == ROOT@ {
            "the project depends on "@ + dep + " "@ + dep_range_text(inc, dep)
        } else {
            package + " "@ + version + " depends on "@ + dep + " "@ + dep_range_text(inc, dep)
        },
        CauseView::NoVersions { package } => "no version of "@ + package + " matches "@ + allowed_text(
            inc,
            package,
        ),
        CauseView::Root => "the project is being installed"@,
        CauseView::Derived(_, _) => generic_text(inc.terms),
    }
}

/// The line that concludes a derivation from its two premises.
pub open spec fn because_line(pa: Seq<char>, pb: Seq<char>, conclusion: Seq<char>) -> Seq<char> {
    "Because "@ + pa + " and "@ + pb + ", "@ + conclusion + "."@
}

/// A ranking of the incompatibilities under which every derivation names two
/// stored premises ranked below it.
pub open spec fn ranked(incs: Seq<IncompatView>, rank: spec_fn(int) -> nat) -> bool {
    forall|i: int|
        0 <= i < incs.len() ==> match (#[trigger] incs[i]).cause {
            CauseView::Derived(a, b) => a < incs.len() && b < incs.len() && rank(a as int) < rank(i) && rank(
                b as int,
            ) < rank(i),
            _ => true,
        }
}

/// Every derivation names stored premises, and none is derived, however
/// indirectly, from itself.
pub open spec fn derivations_well_founded(incs: Seq<IncompatView>) -> bool {
    exists|rank: spec_fn(int) -> nat| ranked(incs, rank)
}

/// A ranking of well-founded derivations.
pub open spec fn some_rank(incs: Seq<IncompatView>) -> spec_fn(int) -> nat {
    choose|rank: spec_fn(int) -> nat| ranked(incs, rank)
}

/// The explanation of incompatibility `id`, following premises down `rank`:
/// the phrase that names its conclusion, and the lines that derive it,
/// premises first.
pub open spec fn explanation_by(incs: Seq<IncompatView>, rank: spec_fn(int) -> nat, id: int) -> (
    Seq<char>,
    Seq<Seq<char>>,
)
    decreases rank(id),
{
    match incs[id].cause {
        CauseView::Derived(a, b) => if 0 <= a < incs.len() && 0 <= b < incs.len() && rank(a as int) < rank(id)
            && rank(b as int) < rank(id) {
            let (pa, la) = explanation_by(incs, rank, a as int);
            let (pb, lb) = explanation_by(incs, rank, b as int);
            let c = describe_text(incs[id]);
            (c, la + lb + seq![because_line(pa, pb, c)])
        } else {
            (describe_text(incs[id]), Seq::empty())
        },
        _ => (describe_text(incs[id]), Seq::empty()),
    }
}

/// The explanation of incompatibility `id`: the phrase that names its
/// conclusion, and the lines that derive it, premises first.
pub open spec fn explanation(incs: Seq<IncompatView>, id: int) -> (Seq<char>, Seq<Seq<char>>) {
    explanation_by(incs, some_rank(incs), id)
}

/// Any two rankings give the same explanation.
pub proof fn lemma_explanation_rank(
    incs: Seq<IncompatView>,
    r1: spec_fn(int) -> nat,
    r2: spec_fn(int) -> nat,
    id: int,
)
    requires
        ranked(incs, r1),
        ranked(incs, r2),
        0 <= id < incs.len(),
    ensures
        explanation_by(incs, r1, id) == explanation_by(incs, r2, id),
    decreases r1(id),
{
    if let CauseView::Derived(a, b) = incs[id].cause {
        assert(a < incs.len() && b < incs.len() && r1(a as int) < r1(id) && r1(b as int) < r1(id));
        assert(r2(a as int) < r2(id) && r2(b as int) < r2(id));
        lemma_explanation_rank(incs, r1, r2, a as int);
        lemma_explanation_rank(incs, r1, r2, b as int);
    }
}

/// Derivations that name earlier entries are well founded, ranked by index.
pub proof fn lemma_acyclic_well_founded(incs: Seq<IncompatView>)
    requires
        derivations_acyclic(incs),
    ensures
        derivations_well_founded(incs),
        ranked(incs, |i: int| i as nat),
{
    reveal(derivations_acyclic);
    let rank = |i: int| i as nat;
    assert forall|i: int| 0 <= i < incs.len() implies match (#[trigger] incs[i]).cause {
        CauseView::Derived(a, b) => a < incs.len() && b < incs.len() && rank(a as int) < rank(i) && rank(b as int)
            < rank(i),
        _ => true,
    } by {
        if let CauseView::Derived(a, b) = incs[i].cause {
            assert(a < i && b < i);
        }
    }
    assert(ranked(incs, rank));
}

/// The last line of every report.
pub open spec fn closing_line() -> Seq<char> {
    "So the project's dependencies cannot be satisfied."@
}

/// Line `i` of a report, numbered from 1.
pub open spec fn numbered_line(i: int, line: Seq<char>) -> Seq<char> {
    decimal((i + 1) as nat) + ". "@ + line
}

/// The lines numbered from 1 and joined by newlines.
pub open spec fn numbered(lines: Seq<Seq<char>>) -> Seq<char> {
    join(Seq::new(lines.len(), |i: int| numbered_line(i, lines[i])), "\n"@)
}

/// The full report for a terminal incompatibility.
pub open spec fn report_text(incs: Seq<IncompatView>, terminal: int) -> Seq<char> {
    numbered(explanation(incs, terminal).1.push(closing_line()))
}

/// Renders the derivation of `terminal` as numbered lines, ending with the
/// sentence that the project's dependencies cannot be satisfied.
pub fn report(incompats: &[Incompatibility], terminal: usize) -> (r: String)
    requires
        terminal < incompats@.len(),
        derivations_well_founded(incompat_views(incompats@)),
    ensures
        r@ == report_text(incompat_views(incompats@), terminal as int),
{
    let mut lines: Vec<String> = Vec::new();
    proof {
        assert(string_views(lines@) =~= Seq::<Seq<char>>::empty());
    }
    let ghost rank = some_rank(incompat_views(incompats@));
    visit(incompats, terminal, &mut lines, Ghost(rank));
    let ghost before = string_views(lines@);
    lines.push(string_of(chars_of("So the project's dependencies cannot be satisfied.").as_slice()));
    proof {
        assert(string_views(lines@) =~= before.push(closing_line()));
    }
    number(&lines)
}

/// Numbers the lines from 1 and joins them by newlines.
fn number(lines: &Vec<String>) -> (r: String)
    ensures
        r@ == numbered(string_views(lines@)),
{
    let ghost ls = string_views(lines@);
    let ghost ns = Seq::new(ls.len(), |i: int| numbered_line(i, ls[i]));
    let mut out = String::new();
    let mut i: usize = 0;
    proof {
        assert(ns.take(0) =~= Seq::<Seq<char>>::empty());
    }
    while i < lines.len()
        invariant
            i <= lines@.len(),
            ls == string_views(lines@),
            ns == Seq::new(ls.len(), |i: int| numbered_line(i, ls[i])),
            out@ == join(ns.take(i as int), "\n"@),
        decreases lines@.len() - i,
    {
        let ghost prev = out@;
        if i > 0 {
            out.push('\n');
        }
        push_decimal(&mut out, (i + 1) as u64);
        push_str(&mut out, ". ");
        push_str(&mut out, lines[i].as_str());
        proof {
            assert(ls[i as int] == lines@[i as int]@);
            assert(ns.take(i + 1).drop_last() =~= ns.take(i as int));
            assert(ns.take(i + 1).last() == ns[i as int]);
            if i == 0 {
                assert(out@ =~= ns[0]);
            } else {
                assert(out@ =~= prev + "\n"@ + ns[i as int]) by {
                    reveal_strlit("\n");
                }
            }
        }
        i = i + 1;
    }
    proof {
        assert(ns.take(ls.len() as int) =~= ns);
    }
    out
}

/// Returns the phrase naming the conclusion of incompatibility `id`, after
/// appending the lines that derive it.
fn visit(
    incompats: &[Incompatibility],
    id: usize,
    lines: &mut Vec<String>,
    Ghost(rank): Ghost<spec_fn(int) -> nat>,
) -> (r: String)
    requires
        id < incompats@.len(),
        ranked(incompat_views(incompats@), rank),
    ensures
        r@ == explanation_by(incompat_views(incompats@), rank, id as int).0,
        string_views(final(lines)@) == string_views(old(lines)@) + explanation_by(
            incompat_views(incompats@),
            rank,
            id as int,
        ).1,
    decreases rank(id as int),
{
    let ghost incs = incompat_views(incompats@);
    proof {
        assert(incs[id as int] == incompats@[id as int]@);
    }
    match &incompats[id].cause {
        Cause::Derived(a, b) => {
            proof {
                assert(incs[id as int].cause == CauseView::Derived(*a as nat, *b as nat));
            }
            let ghost l0 = string_views(lines@);
            let pa = visit(incompats, *a, lines, Ghost(rank));
            let pb = visit(incompats, *b, lines, Ghost(rank));
            let concl = describe(&incompats[id]);
            let mut line = String::new();
            push_str(&mut line, "Because ");
            push_str(&mut line, pa.as_str());
            push_str(&mut line, " and ");
            push_str(&mut line, pb.as_str());
            push_str(&mut line, ", ");
            push_str(&mut line, concl.as_str());
            push_str(&mut line, ".");
            let ghost l1 = string_views(lines@);
            lines.push(line);
            proof {
                assert(string_views(lines@) =~= l1.push(because_line(pa@, pb@, concl@)));
                assert(string_views(lines@) =~= l0 + explanation_by(incs, rank, id as int).1);
            }
            concl
        },
        _ => {
            proof {
                assert(!(incs[id as int].cause is Derived));
            }
            describe(&incompats[id])
        },
    }
}

/// The friendly range of the dependency term about `dep`, or `*`.
fn dep_range(inc: &Incompatibility, dep: &str) -> (r: String)
    ensures
        r@ == dep_range_text(inc@, dep@),
{
    match inc.term_for(dep) {
        Some(t) => t.range.friendly(),
        None => string_of(chars_of("*").as_slice()),
    }
}

/// The friendly set of versions that the term about `package` allows, or `*`.
fn allowed_range(inc: &Incompatibility, package: &str) -> (r: String)
    ensures
        r@ == allowed_text(inc@, package@),
{
    match inc.term_for(package) {
        Some(t) => t.allowed().friendly(),
        None => string_of(chars_of("*").as_slice()),
    }
}

/// A one-clause description of what an incompatibility forbids.
fn describe(inc: &Incompatibility) -> (r: String)
    ensures
        r@ == describe_text(inc@),
{
    let mut out = String::new();
    match &inc.cause {
        Cause::Dependency { package, version, dep } => {
            let range = dep_range(inc, dep.as_str());
            if str_eq(package.as_str(), ROOT) {
                push_str(&mut out, "the project depends on ");
            } else {
                push_str(&mut out, package.as_str());
                push_str(&mut out, " ");
                push_str(&mut out, version.as_str());
                push_str(&mut out, " depends on ");
            }
            push_str(&mut out, dep.as_str());
            push_str(&mut out, " ");
            push_str(&mut out, range.as_str());
            proof {
                if package@ == ROOT@ {
                    assert(out@ =~= describe_text(inc@));
                } else {
                    assert(out@ =~= describe_text(inc@));
                }
            }
        },
        Cause::NoVersions { package } => {
            let range = allowed_range(inc, package.as_str());
            push_str(&mut out, "no version of ");
            push_str(&mut out, package.as_str());
            push_str(&mut out, " matches ");
            push_str(&mut out, range.as_str());
            proof {
                assert(out@ =~= describe_text(inc@));
            }
        },
        Cause::Root => {
            push_str(&mut out, "the project is being installed");
            proof {
                assert(out@ =~= describe_text(inc@));
            }
        },
        Cause::Derived(_, _) => {
            return generic(inc);
        },
    }
    out
}

/// One term read as a requirement.
fn part(name: &String, t: &crate::term::Term) -> (r: Vec<char>)
    ensures
        r@ == part_text((name@, t@)),
{
    let mut out = String::new();
    push_str(&mut out, name.as_str());
    if t.positive {
        push_str(&mut out, " ");
    } else {
        push_str(&mut out, " outside ");
    }
    let range = t.range.friendly();
    push_str(&mut out, range.as_str());
    proof {
        assert(out@ =~= part_text((name@, t@)));
    }
    chars_of(out.as_str())
}

/// The phrasing of a learned incompatibility.
fn generic(inc: &Incompatibility) -> (r: String)
    ensures
        r@ == generic_text(inc@.terms),
{
    let ghost terms = inc@.terms;
    if inc.terms.len() == 1 && str_eq(inc.terms[0].0.as_str(), ROOT) {
        proof {
            assert(terms[0] == (inc.terms@[0].0@, inc.terms@[0].1@));
        }
        return string_of(chars_of("the project's requirements are contradictory").as_slice());
    }
    proof {
        if inc.terms@.len() == 1 {
            assert(terms[0] == (inc.terms@[0].0@, inc.terms@[0].1@));
        }
    }
    let mut parts: Vec<Vec<char>> = Vec::new();
    let mut i: usize = 0;
    proof {
        assert(terms.take(0) =~= Seq::<NamedTerm>::empty());
        assert(views(parts@) =~= Seq::<Seq<char>>::empty());
    }
    while i < inc.terms.len()
        invariant
            i <= inc.terms@.len(),
            terms == inc@.terms,
            views(parts@) == generic_parts(terms.take(i as int)),
        decreases inc.terms@.len() - i,
    {
        let (p, t) = &inc.terms[i];
        proof {
            assert(terms[i as int] == (p@, t@));
            assert(terms.take(i + 1).drop_last() =~= terms.take(i as int));
            assert(terms.take(i + 1).last() == terms[i as int]);
        }
        if !str_eq(p.as_str(), ROOT) {
            let ghost prev = views(parts@);
            let piece = part(p, t);
            parts.push(piece);
            proof {
                assert(views(parts@) =~= prev.push(part_text((p@, t@))));
            }
        }
        i = i + 1;
    }
    proof {
        assert(terms.take(inc.terms@.len() as int) =~= terms);
    }
    let mut out = String::new();
    if parts.len() == 0 {
        push_str(&mut out, "the requirements conflict");
        proof {
            assert(out@ =~= generic_text(terms));
        }
    } else if parts.len() == 1 {
        push_str(&mut out, string_of(parts[0].as_slice()).as_str());
        push_str(&mut out, " cannot be used");
        proof {
            assert(views(parts@)[0] == parts@[0]@);
            assert(out@ =~= generic_text(terms));
        }
    } else {
        let sep = chars_of(" and ");
        let joined = join_chars(&parts, sep.as_slice());
        push_str(&mut out, string_of(joined.as_slice()).as_str());
        push_str(&mut out, " cannot be chosen together");
        proof {
            assert(out@ =~= generic_text(terms));
        }
    }
    out
}

} // verus!
