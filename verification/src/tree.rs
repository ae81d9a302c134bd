//! The resolved dependency tree as text: the project on the first line, then
//! its direct dependencies and theirs, each under its parent, children sorted
//! by name. A package already shown is marked `(*)` and not expanded again, so
//! a shared dependency is printed once.
use vstd::prelude::*;
use crate::order::{Order, lex_compare, lemma_lex_flip, lemma_lex_trans};
use crate::pins::Pin;
use crate::range::Range;
use crate::registry::{DepView, Provider, Registry, RegistryView, dep_views, dependencies_of};
use crate::text::{compare_strs, push_str, str_eq};
use crate::version::{Version, VersionView, string_views, version_text};

verus! {

/// `s` with the name `x` inserted after every name not greater than it: one
/// step of a stable insertion sort.
pub open spec fn insert_name(s: Seq<Seq<char>>, x: Seq<char>) -> Seq<Seq<char>>
    decreases s.len(),
{
    if s.len() == 0 {
        seq![x]
    } else if lex_compare(s.last(), x) == Order::Greater {
        insert_name(s.drop_last(), x).push(s.last())
    } else {
        s.push(x)
    }
}

/// The names in ascending order.
pub open spec fn sort_names(s: Seq<Seq<char>>) -> Seq<Seq<char>>
    decreases s.len(),
{
    if s.len() == 0 {
        Seq::empty()
    } else {
        insert_name(sort_names(s.drop_last()), s.last())
    }
}

/// `s` with the dependency `x` inserted after every one whose name is not greater.
pub open spec fn insert_dep(s: Seq<DepView>, x: DepView) -> Seq<DepView>
    decreases s.len(),
{
    if s.len() == 0 {
        seq![x]
    } else if lex_compare(s.last().0, x.0) == Order::Greater {
        insert_dep(s.drop_last(), x).push(s.last())
    } else {
        s.push(x)
    }
}

/// The dependencies stably sorted by name.
pub open spec fn sort_deps(s: Seq<DepView>) -> Seq<DepView>
    decreases s.len(),
{
    if s.len() == 0 {
        Seq::empty()
    } else {
        insert_dep(sort_deps(s.drop_last()), s.last())
    }
}

/// Where `insert_name` puts `x`: after the last name from the end that is not
/// greater than it.
pub open spec fn name_slot(s: Seq<Seq<char>>, x: Seq<char>) -> int
    decreases s.len(),
{
    if s.len() == 0 {
        0
    } else if lex_compare(s.last(), x) == Order::Greater {
        name_slot(s.drop_last(), x)
    } else {
        s.len() as int
    }
}

/// Names in ascending order.
pub open spec fn names_sorted(s: Seq<Seq<char>>) -> bool {
    forall|i: int, j: int| 0 <= i < j < s.len() ==> lex_compare(s[i], s[j]) != Order::Greater
}

proof fn lemma_insert_name_at(s: Seq<Seq<char>>, x: Seq<char>)
    ensures
        0 <= name_slot(s, x) <= s.len(),
        insert_name(s, x) == s.take(name_slot(s, x)).push(x) + s.skip(name_slot(s, x)),
        forall|i: int| name_slot(s, x) <= i < s.len() ==> lex_compare(#[trigger] s[i], x) == Order::Greater,
        name_slot(s, x) > 0 ==> lex_compare(s[name_slot(s, x) - 1], x) != Order::Greater,
    decreases s.len(),
{
    if s.len() == 0 {
        assert(s.take(0).push(x) + s.skip(0) =~= seq![x]);
    } else if lex_compare(s.last(), x) == Order::Greater {
        let init = s.drop_last();
        lemma_insert_name_at(init, x);
        let m = name_slot(init, x);
        assert(s.take(m) =~= init.take(m));
        assert(s.skip(m) =~= init.skip(m).push(s.last()));
        assert(insert_name(s, x) =~= s.take(m).push(x) + s.skip(m));
        assert forall|i: int| m <= i < s.len() implies lex_compare(#[trigger] s[i], x) == Order::Greater by {
            if i < s.len() - 1 {
                assert(s[i] == init[i]);
            }
        }
        if m > 0 {
            assert(s[m - 1] == init[m - 1]);
        }
    } else {
        assert(s.take(s.len() as int) =~= s);
        assert(s.skip(s.len() as int) =~= Seq::<Seq<char>>::empty());
        assert(s.take(s.len() as int).push(x) + s.skip(s.len() as int) =~= s.push(x));
    }
}

proof fn lemma_insert_name_sorted(s: Seq<Seq<char>>, x: Seq<char>)
    requires
        names_sorted(s),
    ensures
        names_sorted(insert_name(s, x)),
        insert_name(s, x).to_multiset() == s.to_multiset().insert(x),
{
    lemma_insert_name_at(s, x);
    let m = name_slot(s, x);
    let a = s.take(m);
    let b = s.skip(m);
    let r = a.push(x) + b;
    assert forall|i: int, j: int| 0 <= i < j < r.len() implies lex_compare(r[i], r[j]) != Order::Greater by {
        if j < m {
            assert(r[i] == s[i] && r[j] == s[j]);
        } else if j == m {
            assert(r[i] == s[i] && r[j] == x);
            if i < m - 1 {
                lemma_lex_trans(s[i], s[m - 1], x);
            }
        } else if i < m {
            assert(r[i] == s[i] && r[j] == s[j - 1]);
        } else if i == m {
            assert(r[i] == x && r[j] == s[j - 1]);
            assert(lex_compare(s[j - 1], x) == Order::Greater);
            lemma_lex_flip(x, s[j - 1]);
        } else {
            assert(r[i] == s[i - 1] && r[j] == s[j - 1]);
        }
    }
    vstd::seq_lib::lemma_multiset_commutative(a.push(x), b);
    vstd::seq_lib::lemma_multiset_commutative(a, b);
    a.to_multiset_ensures();
    assert(a + b =~= s);
    assert(r.to_multiset() =~= s.to_multiset().insert(x));
}

/// `sort_names` sorts: its names come in ascending order and are the names
/// it was given, each as often.
pub proof fn law_sort_names(s: Seq<Seq<char>>)
    ensures
        names_sorted(sort_names(s)),
        sort_names(s).to_multiset() == s.to_multiset(),
    decreases s.len(),
{
    if s.len() == 0 {
        assert(s =~= Seq::<Seq<char>>::empty());
        assert(sort_names(s) == s);
    } else {
        let init = s.drop_last();
        law_sort_names(init);
        lemma_insert_name_sorted(sort_names(init), s.last());
        init.to_multiset_ensures();
        assert(init.push(s.last()) =~= s);
    }
}

/// Where `insert_dep` puts `x`: after the last dependency from the end whose
/// name is not greater than its name.
pub open spec fn dep_slot(s: Seq<DepView>, x: DepView) -> int
    decreases s.len(),
{
    if s.len() == 0 {
        0
    } else if lex_compare(s.last().0, x.0) == Order::Greater {
        dep_slot(s.drop_last(), x)
    } else {
        s.len() as int
    }
}

/// Dependencies in ascending order of name.
pub open spec fn deps_sorted(s: Seq<DepView>) -> bool {
    forall|i: int, j: int| 0 <= i < j < s.len() ==> lex_compare(s[i].0, s[j].0) != Order::Greater
}

proof fn lemma_insert_dep_at(s: Seq<DepView>, x: DepView)
    ensures
        0 <= dep_slot(s, x) <= s.len(),
        insert_dep(s, x) == s.take(dep_slot(s, x)).push(x) + s.skip(dep_slot(s, x)),
        forall|i: int| dep_slot(s, x) <= i < s.len() ==> lex_compare((#[trigger] s[i]).0, x.0) == Order::Greater,
        dep_slot(s, x) > 0 ==> lex_compare(s[dep_slot(s, x) - 1].0, x.0) != Order::Greater,
    decreases s.len(),
{
    if s.len() == 0 {
        assert(s.take(0).push(x) + s.skip(0) =~= seq![x]);
    } else if lex_compare(s.last().0, x.0) == Order::Greater {
        let init = s.drop_last();
        lemma_insert_dep_at(init, x);
        let m = dep_slot(init, x);
        assert(s.take(m) =~= init.take(m));
        assert(s.skip(m) =~= init.skip(m).push(s.last()));
        assert(insert_dep(s, x) =~= s.take(m).push(x) + s.skip(m));
        assert forall|i: int| m <= i < s.len() implies lex_compare((#[trigger] s[i]).0, x.0) == Order::Greater by {
            if i < s.len() - 1 {
                assert(s[i] == init[i]);
            }
        }
        if m > 0 {
            assert(s[m - 1] == init[m - 1]);
        }
    } else {
        assert(s.take(s.len() as int) =~= s);
        assert(s.skip(s.len() as int) =~= Seq::<DepView>::empty());
        assert(s.take(s.len() as int).push(x) + s.skip(s.len() as int) =~= s.push(x));
    }
}

proof fn lemma_insert_dep_sorted(s: Seq<DepView>, x: DepView)
    requires
        deps_sorted(s),
    ensures
        deps_sorted(insert_dep(s, x)),
        insert_dep(s, x).to_multiset() == s.to_multiset().insert(x),
{
    lemma_insert_dep_at(s, x);
    let m = dep_slot(s, x);
    let a = s.take(m);
    let b = s.skip(m);
    let r = a.push(x) + b;
    assert forall|i: int, j: int| 0 <= i < j < r.len() implies lex_compare(r[i].0, r[j].0) != Order::Greater by {
        if j < m {
            assert(r[i] == s[i] && r[j] == s[j]);
        } else if j == m {
            assert(r[i] == s[i] && r[j] == x);
            if i < m - 1 {
                lemma_lex_trans(s[i].0, s[m - 1].0, x.0);
            }
        } else if i < m {
            assert(r[i] == s[i] && r[j] == s[j - 1]);
        } else if i == m {
            assert(r[i] == x && r[j] == s[j - 1]);
            assert(lex_compare(s[j - 1].0, x.0) == Order::Greater);
            lemma_lex_flip(x.0, s[j - 1].0);
        } else {
            assert(r[i] == s[i - 1] && r[j] == s[j - 1]);
        }
    }
    vstd::seq_lib::lemma_multiset_commutative(a.push(x), b);
    vstd::seq_lib::lemma_multiset_commutative(a, b);
    a.to_multiset_ensures();
    assert(a + b =~= s);
    assert(r.to_multiset() =~= s.to_multiset().insert(x));
}

/// `sort_deps` sorts: its dependencies come in ascending order of name and
/// are the dependencies it was given, each as often.
pub proof fn law_sort_deps(s: Seq<DepView>)
    ensures
        deps_sorted(sort_deps(s)),
        sort_deps(s).to_multiset() == s.to_multiset(),
    decreases s.len(),
{
    if s.len() == 0 {
        assert(s =~= Seq::<DepView>::empty());
        assert(sort_deps(s) == s);
    } else {
        let init = s.drop_last();
        law_sort_deps(init);
        lemma_insert_dep_sorted(sort_deps(init), s.last());
        init.to_multiset_ensures();
        assert(init.push(s.last()) =~= s);
    }
}

/// A package still to print: its name, the prefix of its line, and whether it
/// is the last of its siblings.
pub type Frame = (Seq<char>, Seq<char>, bool);

/// The version the first pin of `name` holds.
pub open spec fn pin_of(pins: Seq<Pin>, name: Seq<char>) -> Option<VersionView>
    decreases pins.len(),
{
    if pins.len() == 0 {
        None
    } else if pins[0].0 == name {
        Some(pins[0].1)
    } else {
        pin_of(pins.drop_first(), name)
    }
}

/// How many pins name a package not yet shown.
pub open spec fn unseen(pins: Seq<Pin>, seen: Seq<Seq<char>>) -> nat
    decreases pins.len(),
{
    if pins.len() == 0 {
        0
    } else {
        unseen(pins.drop_last(), seen) + if seen.contains(pins.last().0) {
            0nat
        } else {
            1nat
        }
    }
}

/// The line for one package.
pub open spec fn node_line(f: Frame, version: Option<VersionView>, repeat: bool) -> Seq<char> {
    f.1 + (if f.2 {
        "└─ "@
    } else {
        "├─ "@
    }) + f.0 + " "@ + (match version {
        Some(v) => version_text(v),
        None => "?"@,
    }) + (if repeat {
        " (*)"@
    } else {
        Seq::empty()
    })
}

/// The frames for `names` under `prefix`, the first name on top.
pub open spec fn frames(names: Seq<Seq<char>>, prefix: Seq<char>) -> Seq<Frame> {
    Seq::new(
        names.len(),
        |j: int| (names[names.len() - 1 - j], prefix, names.len() - 1 - j == names.len() - 1),
    )
}

/// The names of the dependencies, in order.
pub open spec fn dep_names(ds: Seq<DepView>) -> Seq<Seq<char>> {
    ds.map_values(|d: DepView| d.0)
}

/// The prefix of a package's children.
pub open spec fn child_prefix(f: Frame) -> Seq<char> {
    f.1 + if f.2 {
        "   "@
    } else {
        "│  "@
    }
}

/// The dependencies the registry lists for `name` at `v`, sorted by name.
pub open spec fn children_of(reg: RegistryView, name: Seq<char>, v: VersionView) -> Seq<DepView> {
    sort_deps(
        match dependencies_of(reg, name, v) {
            Some(d) => d,
            None => Seq::empty(),
        },
    )
}

pub proof fn lemma_unseen_push(pins: Seq<Pin>, seen: Seq<Seq<char>>, x: Seq<char>)
    ensures
        unseen(pins, seen.push(x)) <= unseen(pins, seen),
        pin_of(pins, x) is Some && !seen.contains(x) ==> unseen(pins, seen.push(x)) < unseen(pins, seen),
    decreases pins.len(),
{
    if pins.len() > 0 {
        let init = pins.drop_last();
        lemma_unseen_push(init, seen, x);
        let y = pins.last().0;
        if seen.contains(y) {
            assert(seen.push(x).contains(y)) by {
                let i = choose|i: int| 0 <= i < seen.len() && seen[i] == y;
                assert(seen.push(x)[i] == y);
            }
        }
        if y == x {
            assert(seen.push(x)[seen.len() as int] == x);
        }
        if pin_of(pins, x) is Some && !seen.contains(x) && y != x {
            lemma_pin_of_init(pins, x);
        }
    }
}

/// A name pinned in a list is pinned in the list without its last pin, unless
/// that last pin is the name's.
pub proof fn lemma_pin_of_init(pins: Seq<Pin>, x: Seq<char>)
    requires
        pins.len() > 0,
        pin_of(pins, x) is Some,
        pins.last().0 != x,
    ensures
        pin_of(pins.drop_last(), x) is Some,
    decreases pins.len(),
{
    if pins[0].0 != x {
        assert(pin_of(pins, x) == pin_of(pins.drop_first(), x));
        assert(pins.drop_first().len() > 0);
        assert(pins.len() >= 2);
        assert(pins.drop_first().last() == pins.last());
        lemma_pin_of_init(pins.drop_first(), x);
        assert(pins.drop_last().drop_first() =~= pins.drop_first().drop_last());
    } else {
        assert(pins.drop_last()[0] == pins[0]);
    }
}

/// The lines printed for the frames on `stack`, top first, with `seen` the
/// packages already shown.
pub open spec fn walk(stack: Seq<Frame>, seen: Seq<Seq<char>>, pins: Seq<Pin>, reg: RegistryView) -> Seq<Seq<char>>
    decreases unseen(pins, seen), stack.len(),
{
    if stack.len() == 0 {
        Seq::empty()
    } else {
        let f = stack.last();
        let rest = stack.drop_last();
        let version = pin_of(pins, f.0);
        let repeat = seen.contains(f.0);
        let line = node_line(f, version, repeat);
        if repeat {
            seq![line] + walk(rest, seen, pins, reg)
        } else {
            proof {
                lemma_unseen_push(pins, seen, f.0);
            }
            match version {
                None => seq![line] + walk(rest, seen.push(f.0), pins, reg),
                Some(v) => seq![line] + walk(
                    rest + frames(dep_names(children_of(reg, f.0, v)), child_prefix(f)),
                    seen.push(f.0),
                    pins,
                    reg,
                ),
            }
        }
    }
}

/// A package with dependencies has its first child drawn right under it: the
/// child's line repeats the parent's prefix, then carries the parent's rail
/// (`│` while siblings of the parent are still to come, blank below the last
/// one), and puts its own branch glyph three columns right of the parent's:
/// the closing glyph `└` when it is the only child, `├` when siblings follow.
/// A package's own glyph is `└` exactly when it is the last of its siblings.
pub proof fn law_child_under_parent(
    stack: Seq<Frame>,
    seen: Seq<Seq<char>>,
    pins: Seq<Pin>,
    reg: RegistryView,
    v: VersionView,
)
    requires
        stack.len() > 0,
        !seen.contains(stack.last().0),
        pin_of(pins, stack.last().0) == Some(v),
        children_of(reg, stack.last().0, v).len() > 0,
    ensures
        ({
            let f = stack.last();
            let out = walk(stack, seen, pins, reg);
            let n = f.1.len() as int;
            &&& out.len() >= 2
            &&& out[0].take(n) == f.1
            &&& out[0][n] == (if f.2 {
                '└'
            } else {
                '├'
            })
            &&& out[1].take(n) == f.1
            &&& out[1][n] == (if f.2 {
                ' '
            } else {
                '│'
            })
            &&& out[1][n + 1] == ' '
            &&& out[1][n + 2] == ' '
            &&& out[1][n + 3] == (if children_of(reg, f.0, v).len() == 1 {
                '└'
            } else {
                '├'
            })
        }),
{
    reveal_strlit("└─ ");
    reveal_strlit("├─ ");
    reveal_strlit("   ");
    reveal_strlit("│  ");
    let f = stack.last();
    let n = f.1.len() as int;
    let kids = dep_names(children_of(reg, f.0, v));
    let cp = child_prefix(f);
    let fr = frames(kids, cp);
    let next = stack.drop_last() + fr;
    let seen2 = seen.push(f.0);
    lemma_unseen_push(pins, seen, f.0);
    assert(kids.len() > 0);
    assert(next.len() > 0);
    let g = next.last();
    assert(g == fr[fr.len() - 1]);
    assert(g.1 == cp);
    let out = walk(stack, seen, pins, reg);
    let line = node_line(f, Some(v), false);
    assert(out == seq![line] + walk(next, seen2, pins, reg));
    let rest_out = walk(next, seen2, pins, reg);
    let line2 = node_line(g, pin_of(pins, g.0), seen2.contains(g.0));
    assert(rest_out[0] == line2);
    assert(out[0] == line);
    assert(out[1] == line2);
    assert(line.take(n) =~= f.1);
    assert(line[n] == (if f.2 { "└─ "@ } else { "├─ "@ })[0]);
    assert(line2.take(n) =~= f.1);
    assert(line2[n] == cp[n]);
    assert(line2[n + 1] == cp[n + 1]);
    assert(line2[n + 2] == cp[n + 2]);
    assert(line2[n + 3] == (if g.2 { "└─ "@ } else { "├─ "@ })[0]);
}

/// The whole tree: the project's line, then every direct dependency in name
/// order with what it pulls in.
pub open spec fn tree_text(
    name: Seq<char>,
    version: VersionView,
    direct: Seq<Seq<char>>,
    pins: Seq<Pin>,
    reg: RegistryView,
) -> Seq<Seq<char>> {
    seq![name + " "@ + version_text(version)] + walk(frames(sort_names(direct), Seq::empty()), Seq::empty(), pins, reg)
}

/// Sorts names in ascending order.
pub fn sorted_names(v: &Vec<String>) -> (r: Vec<String>)
    ensures
        string_views(r@) == sort_names(string_views(v@)),
{
    let ghost sv = string_views(v@);
    let mut out: Vec<String> = Vec::new();
    let mut i: usize = 0;
    proof {
        assert(sv.take(0) =~= Seq::<Seq<char>>::empty());
        assert(string_views(out@) =~= Seq::<Seq<char>>::empty());
    }
    while i < v.len()
        invariant
            i <= v@.len(),
            sv == string_views(v@),
            string_views(out@) == sort_names(sv.take(i as int)),
        decreases v@.len() - i,
    {
        let x = &v[i];
        let ghost s = string_views(out@);
        let mut j: usize = out.len();
        proof {
            assert(s.take(j as int) =~= s);
            assert(s.skip(j as int) =~= Seq::<Seq<char>>::empty());
            assert(insert_name(s, x@) =~= insert_name(s.take(j as int), x@) + s.skip(j as int));
        }
        while j > 0 && compare_strs(out[j - 1].as_str(), x.as_str()) == Order::Greater
            invariant
                j <= out@.len(),
                s == string_views(out@),
                insert_name(s, x@) == insert_name(s.take(j as int), x@) + s.skip(j as int),
            decreases j,
        {
            proof {
                assert(s[j - 1] == out@[j - 1]@);
                assert(s.take(j as int).drop_last() =~= s.take(j - 1));
                assert(s.take(j as int).last() == s[j - 1]);
                assert(s.skip(j - 1) =~= seq![s[j - 1]] + s.skip(j as int));
                assert(insert_name(s.take(j - 1), x@).push(s[j - 1]) + s.skip(j as int) =~= insert_name(
                    s.take(j - 1),
                    x@,
                ) + s.skip(j - 1));
            }
            j = j - 1;
        }
        proof {
            if j > 0 {
                assert(s[j - 1] == out@[j - 1]@);
                assert(s.take(j as int).last() == s[j - 1]);
            }
        }
        out.insert(j, x.clone());
        proof {
            assert(string_views(out@) =~= s.take(j as int).push(x@) + s.skip(j as int));
            assert(sv[i as int] == x@);
            assert(sv.take(i + 1).drop_last() =~= sv.take(i as int));
            assert(sv.take(i + 1).last() == x@);
        }
        i = i + 1;
    }
    proof {
        assert(sv.take(v@.len() as int) =~= sv);
    }
    out
}

/// Sorts dependencies by name, keeping the order of equal names.
fn sorted_deps(v: &Vec<(String, Range)>) -> (r: Vec<(String, Range)>)
    ensures
        dep_views(r@) == sort_deps(dep_views(v@)),
{
    let ghost sv = dep_views(v@);
    let mut out: Vec<(String, Range)> = Vec::new();
    let mut i: usize = 0;
    proof {
        assert(sv.take(0) =~= Seq::<DepView>::empty());
        assert(dep_views(out@) =~= Seq::<DepView>::empty());
    }
    while i < v.len()
        invariant
            i <= v@.len(),
            sv == dep_views(v@),
            dep_views(out@) == sort_deps(sv.take(i as int)),
        decreases v@.len() - i,
    {
        let x = (v[i].0.clone(), v[i].1.clone());
        let ghost xv = (x.0@, x.1@);
        let ghost s = dep_views(out@);
        let mut j: usize = out.len();
        proof {
            assert(s.take(j as int) =~= s);
            assert(s.skip(j as int) =~= Seq::<DepView>::empty());
            assert(insert_dep(s, xv) =~= insert_dep(s.take(j as int), xv) + s.skip(j as int));
        }
        while j > 0 && compare_strs(out[j - 1].0.as_str(), x.0.as_str()) == Order::Greater
            invariant
                j <= out@.len(),
                s == dep_views(out@),
                xv == (x.0@, x.1@),
                insert_dep(s, xv) == insert_dep(s.take(j as int), xv) + s.skip(j as int),
            decreases j,
        {
            proof {
                assert(s[j - 1] == (out@[j - 1].0@, out@[j - 1].1@));
                assert(s.take(j as int).drop_last() =~= s.take(j - 1));
                assert(s.take(j as int).last() == s[j - 1]);
                assert(s.skip(j - 1) =~= seq![s[j - 1]] + s.skip(j as int));
                assert(insert_dep(s.take(j - 1), xv).push(s[j - 1]) + s.skip(j as int) =~= insert_dep(
                    s.take(j - 1),
                    xv,
                ) + s.skip(j - 1));
            }
            j = j - 1;
        }
        proof {
            if j > 0 {
                assert(s[j - 1] == (out@[j - 1].0@, out@[j - 1].1@));
                assert(s.take(j as int).last() == s[j - 1]);
            }
        }
        out.insert(j, x);
        proof {
            assert(dep_views(out@) =~= s.take(j as int).push(xv) + s.skip(j as int));
            assert(sv[i as int] == xv);
            assert(sv.take(i + 1).drop_last() =~= sv.take(i as int));
            assert(sv.take(i + 1).last() == xv);
        }
        i = i + 1;
    }
    proof {
        assert(sv.take(v@.len() as int) =~= sv);
    }
    out
}

/// The views of frames on the stack.
pub open spec fn frame_views(s: Seq<(String, String, bool)>) -> Seq<Frame> {
    s.map_values(|f: (String, String, bool)| (f.0@, f.1@, f.2))
}

/// The pinned versions as plain values.
pub open spec fn pin_list(pins: Seq<(String, Version)>) -> Seq<Pin> {
    pins.map_values(|p: (String, Version)| (p.0@, p.1@))
}

/// The version the first pin of `name` holds.
fn find_pin<'a>(pins: &'a Vec<(String, Version)>, name: &str) -> (r: Option<&'a Version>)
    ensures
        match r {
            Some(v) => pin_of(pin_list(pins@), name@) == Some(v@),
            None => pin_of(pin_list(pins@), name@) is None,
        },
{
    let ghost pv = pin_list(pins@);
    let mut i: usize = 0;
    proof {
        assert(pv.skip(0) =~= pv);
    }
    while i < pins.len()
        invariant
            i <= pins@.len(),
            pv == pin_list(pins@),
            pin_of(pv, name@) == pin_of(pv.skip(i as int), name@),
        decreases pins@.len() - i,
    {
        proof {
            assert(pv.skip(i as int)[0] == pv[i as int]);
            assert(pv.skip(i as int).drop_first() =~= pv.skip(i + 1));
            assert(pv[i as int] == (pins@[i as int].0@, pins@[i as int].1@));
        }
        if str_eq(pins[i].0.as_str(), name) {
            return Some(&pins[i].1);
        }
        i = i + 1;
    }
    proof {
        assert(pv.skip(pins@.len() as int) =~= Seq::<Pin>::empty());
    }
    None
}

fn seen_contains(seen: &Vec<String>, name: &String) -> (r: bool)
    ensures
        r == string_views(seen@).contains(name@),
{
    let mut i: usize = 0;
    while i < seen.len()
        invariant
            i <= seen@.len(),
            forall|j: int| 0 <= j < i ==> string_views(seen@)[j] != name@,
        decreases seen@.len() - i,
    {
        if str_eq(seen[i].as_str(), name.as_str()) {
            proof {
                assert(string_views(seen@)[i as int] == name@);
            }
            return true;
        }
        i = i + 1;
    }
    false
}

/// Pushes the frames of `names` under `prefix`, the first name last so that it
/// is on top.
fn push_frames(stack: &mut Vec<(String, String, bool)>, names: &Vec<(String, Range)>, prefix: &String)
    ensures
        frame_views(final(stack)@) == frame_views(old(stack)@) + frames(dep_names(dep_views(names@)), prefix@),
{
    let ghost base = frame_views(stack@);
    let ghost ns = dep_names(dep_views(names@));
    let n = names.len();
    let mut k: usize = n;
    proof {
        assert(frame_views(stack@) =~= base + frames(ns, prefix@).take(0));
    }
    while k > 0
        invariant
            k <= n,
            n == names@.len(),
            ns == dep_names(dep_views(names@)),
            frame_views(stack@) == base + frames(ns, prefix@).take((n - k) as int),
        decreases k,
    {
        let ghost prev = frame_views(stack@);
        stack.push((names[k - 1].0.clone(), prefix.clone(), k == n));
        proof {
            assert(ns[k - 1] == names@[k - 1].0@);
            assert(frames(ns, prefix@)[(n - k) as int] == (ns[k - 1], prefix@, k - 1 == n - 1));
            assert(frames(ns, prefix@).take((n - k + 1) as int) =~= frames(ns, prefix@).take((n - k) as int).push(
                frames(ns, prefix@)[(n - k) as int],
            ));
            assert(frame_views(stack@) =~= prev.push((names@[k - 1].0@, prefix@, k == n)));
        }
        k = k - 1;
    }
    proof {
        assert(frames(ns, prefix@).take(n as int) =~= frames(ns, prefix@));
    }
}

/// The lines of the resolved dependency tree of a project named `name` at
/// `version` with the direct dependencies `direct`, given the pinned versions
/// and the registry that lists what each version depends on.
pub fn tree_lines(
    name: &str,
    version: &Version,
    direct: &Vec<String>,
    pins: &Vec<(String, Version)>,
    registry: &Registry,
) -> (r: Vec<String>)
    ensures
        string_views(r@) == tree_text(name@, version@, string_views(direct@), pin_list(pins@), registry@),
{
    let ghost pv = pin_list(pins@);
    let ghost reg = registry@;
    let mut out: Vec<String> = Vec::new();
    let mut head = String::new();
    push_str(&mut head, name);
    push_str(&mut head, " ");
    let vt = version.to_string();
    push_str(&mut head, vt.as_str());
    out.push(head);
    let names = sorted_names(direct);
    let mut stack: Vec<(String, String, bool)> = Vec::new();
    let n = names.len();
    let mut k: usize = n;
    let ghost ns = string_views(names@);
    let ghost empty_prefix = Seq::<char>::empty();
    proof {
        assert(frame_views(stack@) =~= frames(ns, empty_prefix).take(0));
    }
    while k > 0
        invariant
            k <= n,
            n == names@.len(),
            ns == string_views(names@),
            empty_prefix == Seq::<char>::empty(),
            frame_views(stack@) == frames(ns, empty_prefix).take((n - k) as int),
        decreases k,
    {
        let ghost prev = frame_views(stack@);
        let blank = String::new();
        proof {
            assert(blank@ =~= empty_prefix);
        }
        stack.push((names[k - 1].clone(), blank, k == n));
        proof {
            assert(ns[k - 1] == names@[k - 1]@);
            assert(frames(ns, empty_prefix).take((n - k + 1) as int) =~= frames(ns, empty_prefix).take(
                (n - k) as int,
            ).push(frames(ns, empty_prefix)[(n - k) as int]));
            assert(frame_views(stack@) =~= prev.push((names@[k - 1]@, empty_prefix, k == n)));
        }
        k = k - 1;
    }
    let mut seen: Vec<String> = Vec::new();
    let ghost total = tree_text(name@, version@, string_views(direct@), pv, reg);
    proof {
        assert(frames(ns, empty_prefix).take(n as int) =~= frames(ns, empty_prefix));
        assert(string_views(seen@) =~= Seq::<Seq<char>>::empty());
        assert(string_views(out@) =~= seq![name@ + " "@ + version_text(version@)]);
    }
    while stack.len() > 0
        invariant
            pv == pin_list(pins@),
            reg == registry@,
            string_views(out@) + walk(frame_views(stack@), string_views(seen@), pv, reg) == total,
        decreases unseen(pv, string_views(seen@)), stack@.len(),
    {
        let ghost fs = frame_views(stack@);
        let ghost sv = string_views(seen@);
        let ghost before = string_views(out@);
        let (fname, prefix, last) = stack.pop().unwrap();
        let ghost f = (fname@, prefix@, last);
        proof {
            assert(fs.last() == f);
            assert(frame_views(stack@) =~= fs.drop_last());
        }
        let pinned = find_pin(pins, fname.as_str());
        let repeat = seen_contains(&seen, &fname);
        let mut line = String::new();
        push_str(&mut line, prefix.as_str());
        if last {
            push_str(&mut line, "└─ ");
        } else {
            push_str(&mut line, "├─ ");
        }
        push_str(&mut line, fname.as_str());
        push_str(&mut line, " ");
        match pinned {
            Some(v) => {
                let t = v.to_string();
                push_str(&mut line, t.as_str());
            },
            None => {
                push_str(&mut line, "?");
            },
        }
        if repeat {
            push_str(&mut line, " (*)");
        }
        proof {
            let vv = match pinned {
                Some(v) => Some(v@),
                None => None,
            };
            assert(vv == pin_of(pv, f.0));
            assert(line@ =~= node_line(f, vv, repeat));
        }
        out.push(line);
        proof {
            lemma_unseen_push(pv, sv, f.0);
        }
        if !repeat {
            seen.push(fname.clone());
            proof {
                assert(string_views(seen@) =~= sv.push(f.0));
            }
            match pinned {
                Some(v) => {
                    let deps = match registry.dependencies(fname.as_str(), v) {
                        Some(d) => d,
                        None => Vec::new(),
                    };
                    proof {
                        if dependencies_of(reg, f.0, v@) is None {
                            assert(dep_views(deps@) =~= Seq::<DepView>::empty());
                        }
                    }
                    let sorted = sorted_deps(&deps);
                    let mut cp = prefix.clone();
                    if last {
                        push_str(&mut cp, "   ");
                    } else {
                        push_str(&mut cp, "│  ");
                    }
                    push_frames(&mut stack, &sorted, &cp);
                    proof {
                        assert(dep_views(sorted@) == children_of(reg, f.0, v@));
                        assert(cp@ == child_prefix(f));
                    }
                },
                None => {},
            }
        }
        proof {
            assert(string_views(out@) =~= before.push(node_line(
                f,
                pin_of(pv, f.0),
                sv.contains(f.0),
            )));
            assert(string_views(out@) + walk(frame_views(stack@), string_views(seen@), pv, reg) =~= before + walk(
                fs,
                sv,
                pv,
                reg,
            ));
        }
    }
    proof {
        assert(string_views(out@) + Seq::<Seq<char>>::empty() =~= string_views(out@));
    }
    out
}

} // verus!
