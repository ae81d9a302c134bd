//! What `install` lays down for each resolved package: a small manifest,
//! `installed.qm`, holding the package's identity and its dependencies from the
//! registry. Writing the files is the caller's part.
use vstd::prelude::*;
use crate::constraint::parse_constraint;
use crate::error::ErrorView;
use crate::manifest::{ManifestState, lemma_require_line, lemma_name_line, lemma_version_line, manifest_line,
    manifest_lines, parse_manifest};
use crate::range::{Range, friendly_text, segs_wf, segs_contain, release_cut, lemma_friendly_ends,
    lemma_friendly_line_safe, law_friendly_text_reads_back};
use crate::text::{is_ws, lines, lines_text};
use crate::registry::{DepView, dep_views};
use crate::text::push_str;
use crate::version::{Version, VersionView, version_text};

verus! {

/// The `require` lines for the dependencies, in order.
pub open spec fn require_lines(deps: Seq<DepView>) -> Seq<char>
    decreases deps.len(),
{
    if deps.len() == 0 {
        Seq::empty()
    } else {
        require_lines(deps.drop_last()) + "require "@ + deps.last().0 + " "@ + friendly_text(deps.last().1)
            + "\n"@
    }
}

/// The text of an installed package's manifest: its name, its version, then one
/// `require` line per dependency.
pub open spec fn installed_text(name: Seq<char>, version: VersionView, deps: Seq<DepView>) -> Seq<char> {
    "name "@ + name + "\nversion "@ + version_text(version) + "\n"@ + require_lines(deps)
}

/// The `require` line of one dependency, without its line break.
pub open spec fn require_line(d: DepView) -> Seq<char> {
    "require "@ + d.0 + " "@ + friendly_text(d.1)
}

/// The dependencies as a manifest reads them back from their `require` lines.
pub open spec fn reread_deps(deps: Seq<DepView>) -> Seq<DepView> {
    deps.map_values(|d: DepView| (d.0, parse_constraint(friendly_text(d.1))->Ok_0))
}

/// A dependency that an installed manifest writes on a line of its own: a
/// name without whitespace or comment marker, and a nonempty well-formed
/// range whose finite ends sit at releases.
pub open spec fn writable_dep(d: DepView) -> bool {
    &&& d.0.len() > 0
    &&& forall|i: int| 0 <= i < d.0.len() ==> !is_ws(#[trigger] d.0[i]) && d.0[i] != '#'
    &&& segs_wf(d.1)
    &&& d.1.len() > 0
    &&& forall|i: int| 0 <= i < d.1.len() ==> release_cut(#[trigger] d.1[i].0) && release_cut(d.1[i].1)
}

/// The `require` lines are the dependencies' lines, each with its break.
proof fn lemma_require_lines(deps: Seq<DepView>)
    ensures
        require_lines(deps) == lines_text(deps.map_values(|d: DepView| require_line(d))),
    decreases deps.len(),
{
    reveal_strlit("\n");
    if deps.len() > 0 {
        let init = deps.drop_last();
        lemma_require_lines(init);
        let ls = deps.map_values(|d: DepView| require_line(d));
        assert(ls.drop_last() =~= init.map_values(|d: DepView| require_line(d)));
        assert(ls.last() == require_line(deps.last()));
        assert(require_lines(deps) =~= lines_text(ls));
    }
}

/// Each `require` line reads as the dependency's name and the range its
/// friendly text reads back as, and is kept whole on its line.
proof fn lemma_require_line_reads(st: ManifestState, d: DepView, n: nat)
    requires
        writable_dep(d),
    ensures
        manifest_line(st, require_line(d), n) == Ok::<ManifestState, ErrorView>(
            (st.0, st.1, st.2.push((d.0, parse_constraint(friendly_text(d.1))->Ok_0))),
        ),
        crate::text::free_of(require_line(d), '\n'),
        require_line(d).len() > 0,
        require_line(d).last() != '\r',
{
    reveal_strlit("require ");
    reveal_strlit(" ");
    let f = friendly_text(d.1);
    lemma_friendly_ends(d.1);
    lemma_friendly_line_safe(d.1);
    law_friendly_text_reads_back(d.1, crate::version::least_version());
    lemma_require_line(st, d.0, f, parse_constraint(f)->Ok_0, n);
    let t = require_line(d);
    assert(t.last() == f.last());
    assert forall|i: int| 0 <= i < t.len() implies #[trigger] t[i] != '\n' by {
        let k = 8 + d.0.len();
        if 8 <= i < k {
            assert(t[i] == d.0[i - 8]);
        } else if i > k {
            assert(t[i] == f[i - k - 1]);
        }
    }
}

/// After the name and version lines, the `require` lines read so far give the
/// dependencies read so far.
proof fn lemma_manifest_prefix(name: Seq<char>, v: VersionView, deps: Seq<DepView>, j: int)
    requires
        name.len() > 0,
        forall|i: int| 0 <= i < name.len() ==> !is_ws(#[trigger] name[i]) && name[i] != '#',
        crate::version::text_readable(v),
        crate::text::free_of(version_text(v), '#'),
        forall|k: int| 0 <= k < deps.len() ==> writable_dep(#[trigger] deps[k]),
        0 <= j <= deps.len(),
    ensures
        manifest_lines(
            (seq!["name "@ + name, "version "@ + version_text(v)] + deps.map_values(|d: DepView| require_line(d))).take(
                2 + j,
            ),
        ) == Ok::<ManifestState, ErrorView>((Some(name), Some(v), reread_deps(deps).take(j))),
    decreases j,
{
    let ls = seq!["name "@ + name, "version "@ + version_text(v)] + deps.map_values(|d: DepView| require_line(d));
    if j == 0 {
        let st0: ManifestState = (None, None, Seq::empty());
        lemma_name_line(st0, name, 1);
        lemma_version_line((Some(name), None, Seq::empty()), v, 2);
        assert(ls.take(2).drop_last() =~= ls.take(1));
        assert(ls.take(1).drop_last() =~= Seq::<Seq<char>>::empty());
        assert(ls.take(1).last() == "name "@ + name);
        assert(ls.take(2).last() == "version "@ + version_text(v));
        assert(manifest_lines(Seq::<Seq<char>>::empty()) == Ok::<ManifestState, ErrorView>(st0));
        assert(reread_deps(deps).take(0) =~= Seq::<DepView>::empty());
    } else {
        lemma_manifest_prefix(name, v, deps, j - 1);
        let d = deps[j - 1];
        assert(writable_dep(d));
        let st: ManifestState = (Some(name), Some(v), reread_deps(deps).take(j - 1));
        lemma_require_line_reads(st, d, (2 + j) as nat);
        assert(ls.take(2 + j).drop_last() =~= ls.take(2 + j - 1));
        assert(ls.take(2 + j).last() == ls[2 + j - 1]);
        assert(ls[2 + j - 1] == require_line(d));
        assert(reread_deps(deps).take(j - 1).push((d.0, parse_constraint(friendly_text(d.1))->Ok_0))
            =~= reread_deps(deps).take(j));
    }
}

/// An installed manifest's text is its name line, its version line and its
/// `require` lines, and reads back as those lines.
#[verifier::spinoff_prover]
proof fn lemma_installed_lines(name: Seq<char>, v: VersionView, deps: Seq<DepView>)
    requires
        name.len() > 0,
        forall|i: int| 0 <= i < name.len() ==> !is_ws(#[trigger] name[i]) && name[i] != '#',
        crate::version::text_readable(v),
        forall|k: int| 0 <= k < deps.len() ==> writable_dep(#[trigger] deps[k]),
    ensures
        lines(installed_text(name, v, deps)) == seq!["name "@ + name, "version "@ + version_text(v)]
            + deps.map_values(|d: DepView| require_line(d)),
{
    reveal_strlit("name ");
    reveal_strlit("\nversion ");
    reveal_strlit("version ");
    reveal_strlit("\n");
    let reqs = deps.map_values(|d: DepView| require_line(d));
    let nl = "name "@ + name;
    let vl = "version "@ + version_text(v);
    let head = seq![nl, vl];
    let ls = head + reqs;
    lemma_require_lines(deps);
    crate::text::lemma_lines_text_append(head, reqs);
    assert(head.drop_last() =~= seq![nl]);
    assert(seq![nl].drop_last() =~= Seq::<Seq<char>>::empty());
    assert(lines_text(Seq::<Seq<char>>::empty()) == Seq::<char>::empty());
    assert(seq![nl].last() == nl);
    assert(head.last() == vl);
    assert(lines_text(seq![nl]) =~= nl + seq!['\n']);
    assert(lines_text(head) == lines_text(seq![nl]) + vl + seq!['\n']);
    assert(installed_text(name, v, deps) =~= lines_text(ls));
    crate::version::lemma_version_text_ends(v);
    assert forall|k: int| 0 <= k < ls.len() implies crate::text::free_of(#[trigger] ls[k], '\n') && ls[k].len()
        > 0 && ls[k].last() != '\r' by {
        if k == 0 {
            assert(ls[k] == nl);
            assert(nl.last() == name.last());
            assert(name[name.len() - 1] == name.last());
            assert forall|i: int| 0 <= i < nl.len() implies #[trigger] nl[i] != '\n' by {
                if i >= 5 {
                    assert(nl[i] == name[i - 5]);
                }
            }
        } else if k == 1 {
            assert(ls[k] == vl);
            assert(vl.last() == version_text(v).last());
            assert forall|i: int| 0 <= i < vl.len() implies #[trigger] vl[i] != '\n' by {
                if i >= 8 {
                    assert(vl[i] == version_text(v)[i - 8]);
                }
            }
        } else {
            assert(ls[k] == require_line(deps[k - 2]));
            assert(writable_dep(deps[k - 2]));
            lemma_require_line_reads((None, None, Seq::empty()), deps[k - 2], 0);
        }
    }
    crate::text::lemma_lines_of_lines_text(ls);
}

/// An installed manifest reads back as the package it was written for: its
/// name, its version, and each dependency under its name with a range that
/// holds exactly the versions the written range holds.
pub proof fn law_installed_manifest_reads_back(
    name: Seq<char>,
    v: VersionView,
    deps: Seq<DepView>,
    w: VersionView,
)
    requires
        name.len() > 0,
        forall|i: int| 0 <= i < name.len() ==> !is_ws(#[trigger] name[i]) && name[i] != '#',
        crate::version::text_readable(v),
        crate::text::free_of(version_text(v), '#'),
        forall|k: int| 0 <= k < deps.len() ==> writable_dep(#[trigger] deps[k]),
    ensures
        parse_manifest(installed_text(name, v, deps)) matches Ok(m) && m.name == name && m.version == v
            && m.deps.len() == deps.len() && (forall|k: int|
            0 <= k < deps.len() ==> (#[trigger] m.deps[k]).0 == deps[k].0 && (segs_contain(m.deps[k].1, w)
                <==> segs_contain(deps[k].1, w))),
{
    let ls = seq!["name "@ + name, "version "@ + version_text(v)] + deps.map_values(|d: DepView| require_line(d));
    lemma_installed_lines(name, v, deps);
    lemma_manifest_prefix(name, v, deps, deps.len() as int);
    assert(ls.take(2 + deps.len() as int) =~= ls);
    let rd = reread_deps(deps);
    assert(rd.take(deps.len() as int) =~= rd);
    assert forall|k: int| 0 <= k < deps.len() implies (#[trigger] rd[k]).0 == deps[k].0 && (segs_contain(
        rd[k].1,
        w,
    ) <==> segs_contain(deps[k].1, w)) by {
        assert(writable_dep(deps[k]));
        law_friendly_text_reads_back(deps[k].1, w);
    }
}

/// The manifest written for an installed package.
pub fn installed_manifest(name: &str, version: &Version, deps: &Vec<(String, Range)>) -> (r: String)
    ensures
        r@ == installed_text(name@, version@, dep_views(deps@)),
{
    let ghost ds = dep_views(deps@);
    let mut out = String::new();
    push_str(&mut out, "name ");
    push_str(&mut out, name);
    push_str(&mut out, "\nversion ");
    let vt = version.to_string();
    push_str(&mut out, vt.as_str());
    push_str(&mut out, "\n");
    let ghost head = out@;
    let mut i: usize = 0;
    proof {
        assert(ds.take(0) =~= Seq::<DepView>::empty());
        assert(out@ =~= head + require_lines(ds.take(0)));
    }
    while i < deps.len()
        invariant
            i <= deps@.len(),
            ds == dep_views(deps@),
            out@ == head + require_lines(ds.take(i as int)),
        decreases deps@.len() - i,
    {
        let (dep, range) = &deps[i];
        let ghost prev = out@;
        push_str(&mut out, "require ");
        push_str(&mut out, dep.as_str());
        push_str(&mut out, " ");
        let f = range.friendly();
        push_str(&mut out, f.as_str());
        push_str(&mut out, "\n");
        proof {
            assert(ds[i as int] == (dep@, range@));
            assert(ds.take(i + 1).drop_last() =~= ds.take(i as int));
            assert(ds.take(i + 1).last() == ds[i as int]);
            assert(out@ =~= head + require_lines(ds.take(i + 1)));
        }
        i = i + 1;
    }
    proof {
        assert(ds.take(deps@.len() as int) =~= ds);
        assert(out@ =~= installed_text(name@, version@, ds));
    }
    out
}

} // verus!
