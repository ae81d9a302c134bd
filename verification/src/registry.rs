//! Where packages come from. The resolver asks two questions: which versions of a
//! package exist, and what a given version depends on. That is [`Provider`].
//! [`Registry`] is a plain in-memory implementation with a readable text format.
use vstd::prelude::*;
use crate::error::{Error, ErrorView, Result};
use crate::range::{Range, Seg};
use crate::version::{Version, VersionView, parse_version};
use crate::constraint::parse_constraint;
use crate::text::{
    chars_of, string_of, str_eq, split_once, split_once_char, trim, trim_chars, words, split_words,
    join, join_chars, lines, split_lines, views, is_ws, is_whitespace, decimal, push_decimal, push_str,
    push_chars, lemma_not_blank,
};

verus! {

/// One published package version and what it requires.
pub struct Package {
    pub version: Version,
    pub deps: Vec<(String, Range)>,
}

/// A dependency as plain values: the package name and the allowed intervals.
pub type DepView = (Seq<char>, Seq<Seg>);

pub open spec fn dep_views(d: Seq<(String, Range)>) -> Seq<DepView> {
    d.map_values(|p: (String, Range)| (p.0@, p.1@))
}

/// A published version as plain values.
pub struct PackageView {
    pub version: VersionView,
    pub deps: Seq<DepView>,
}

impl View for Package {
    type V = PackageView;

    open spec fn view(&self) -> PackageView {
        PackageView { version: self.version@, deps: dep_views(self.deps@) }
    }
}

/// A copy of a dependency list.
pub fn clone_deps(d: &Vec<(String, Range)>) -> (r: Vec<(String, Range)>)
    ensures
        dep_views(r@) == dep_views(d@),
{
    let mut out: Vec<(String, Range)> = Vec::new();
    let mut i: usize = 0;
    while i < d.len()
        invariant
            i <= d@.len(),
            dep_views(out@) == dep_views(d@).take(i as int),
        decreases d@.len() - i,
    {
        let ghost prev = out@;
        let item = (d[i].0.clone(), d[i].1.clone());
        out.push(item);
        proof {
            assert(dep_views(out@) =~= dep_views(prev).push((d@[i as int].0@, d@[i as int].1@)));
            assert(dep_views(d@).take(i + 1) =~= dep_views(d@).take(i as int).push(dep_views(d@)[i as int]));
        }
        i = i + 1;
    }
    proof {
        assert(dep_views(d@).take(d@.len() as int) =~= dep_views(d@));
    }
    out
}

impl Clone for Package {
    fn clone(&self) -> (r: Self)
        ensures
            r@ == self@,
    {
        Package { version: self.version.clone(), deps: clone_deps(&self.deps) }
    }
}

/// The two questions the resolver asks about packages. An implementation
/// answers each the same way every time it is asked: its answers are the
/// plain values `listed_versions` and `listed_dependencies` name. A verified
/// implementation states them; one that does not leaves them unknown.
pub trait Provider {
    /// The published versions of `name`, as plain values, in the order listed.
    closed spec fn listed_versions(&self, name: Seq<char>) -> Seq<VersionView> {
        arbitrary()
    }

    /// The dependencies of `name` at `version` as plain values; `None` when that
    /// version is not published.
    closed spec fn listed_dependencies(&self, name: Seq<char>, version: VersionView) -> Option<Seq<DepView>> {
        arbitrary()
    }

    /// All published versions of `name`, in any order (the resolver sorts).
    fn versions(&self, name: &str) -> (r: Vec<Version>)
        ensures
            r@.map_values(|v: Version| v@) == self.listed_versions(name@),
    ;

    /// The dependencies of a specific version, or `None` if it does not exist.
    fn dependencies(&self, name: &str, version: &Version) -> (r: Option<Vec<(String, Range)>>)
        ensures
            match r {
                Some(d) => self.listed_dependencies(name@, version@) == Some(dep_views(d@)),
                None => self.listed_dependencies(name@, version@) is None,
            },
    ;
}

/// The packages of a registry as plain values: names with their published versions.
pub type RegistryView = Seq<(Seq<char>, Seq<PackageView>)>;

/// Index of the entry for `name`, or the number of entries when there is none.
pub open spec fn entry_index(reg: RegistryView, name: Seq<char>) -> nat
    decreases reg.len(),
{
    if reg.len() == 0 {
        0
    } else if reg[0].0 == name {
        0
    } else {
        1 + entry_index(reg.drop_first(), name)
    }
}

proof fn lemma_entry_index(reg: RegistryView, name: Seq<char>, k: int)
    requires
        0 <= k <= reg.len(),
        forall|i: int| 0 <= i < k ==> (#[trigger] reg[i]).0 != name,
        k == reg.len() || reg[k].0 == name,
    ensures
        entry_index(reg, name) == k,
    decreases k,
{
    if k > 0 {
        assert forall|i: int| 0 <= i < k - 1 implies (#[trigger] reg.drop_first()[i]).0 != name by {
            assert(reg.drop_first()[i] == reg[i + 1]);
        }
        if k < reg.len() {
            assert(reg.drop_first()[k - 1] == reg[k]);
        }
        lemma_entry_index(reg.drop_first(), name, k - 1);
    }
}

/// The published versions of `name`, in the order they were added.
pub open spec fn published(reg: RegistryView, name: Seq<char>) -> Seq<PackageView> {
    let k = entry_index(reg, name) as int;
    if k < reg.len() {
        reg[k].1
    } else {
        Seq::empty()
    }
}

/// Index of the first package with version `v`, or the number of packages.
pub open spec fn package_index(ps: Seq<PackageView>, v: VersionView) -> nat
    decreases ps.len(),
{
    if ps.len() == 0 {
        0
    } else if ps[0].version == v {
        0
    } else {
        1 + package_index(ps.drop_first(), v)
    }
}

proof fn lemma_package_index(ps: Seq<PackageView>, v: VersionView, k: int)
    requires
        0 <= k <= ps.len(),
        forall|i: int| 0 <= i < k ==> (#[trigger] ps[i]).version != v,
        k == ps.len() || ps[k].version == v,
    ensures
        package_index(ps, v) == k,
    decreases k,
{
    if k > 0 {
        assert forall|i: int| 0 <= i < k - 1 implies (#[trigger] ps.drop_first()[i]).version != v by {
            assert(ps.drop_first()[i] == ps[i + 1]);
        }
        if k < ps.len() {
            assert(ps.drop_first()[k - 1] == ps[k]);
        }
        lemma_package_index(ps.drop_first(), v, k - 1);
    }
}

/// The dependencies of `name` at exactly `v`, when that version is published.
pub open spec fn dependencies_of(reg: RegistryView, name: Seq<char>, v: VersionView) -> Option<Seq<DepView>> {
    let ps = published(reg, name);
    let k = package_index(ps, v) as int;
    if k < ps.len() {
        Some(ps[k].deps)
    } else {
        None
    }
}

/// The registry with `p` published under `name`, after the versions it already has.
pub open spec fn publish(reg: RegistryView, name: Seq<char>, p: PackageView) -> RegistryView {
    let k = entry_index(reg, name) as int;
    if k < reg.len() {
        reg.update(k, (name, reg[k].1.push(p)))
    } else {
        reg.push((name, seq![p]))
    }
}

proof fn lemma_entry_index_props(reg: RegistryView, name: Seq<char>)
    ensures
        entry_index(reg, name) <= reg.len(),
        entry_index(reg, name) < reg.len() ==> reg[entry_index(reg, name) as int].0 == name,
        forall|i: int| 0 <= i < entry_index(reg, name) ==> (#[trigger] reg[i]).0 != name,
    decreases reg.len(),
{
    if reg.len() > 0 && reg[0].0 != name {
        let t = reg.drop_first();
        lemma_entry_index_props(t, name);
        assert forall|i: int| 0 <= i < entry_index(reg, name) implies (#[trigger] reg[i]).0 != name by {
            if i > 0 {
                assert(reg[i] == t[i - 1]);
            }
        }
        if entry_index(reg, name) < reg.len() {
            assert(reg[entry_index(reg, name) as int] == t[entry_index(t, name) as int]);
        }
    }
}

/// A registry reads back what was published: after publishing `p` under
/// `name`, the versions of `name` are the earlier ones followed by `p`, the
/// dependencies of `p`'s version are `p`'s unless an earlier version of `name`
/// is the same, and every other name is unchanged.
pub proof fn law_publish(reg: RegistryView, name: Seq<char>, p: PackageView, other: Seq<char>)
    ensures
        published(publish(reg, name, p), name) == published(reg, name).push(p),
        other != name ==> published(publish(reg, name, p), other) == published(reg, other),
        (forall|i: int| 0 <= i < published(reg, name).len() ==> (#[trigger] published(reg, name)[i]).version
            != p.version) ==> dependencies_of(publish(reg, name, p), name, p.version) == Some(p.deps),
{
    let k = entry_index(reg, name) as int;
    let n = publish(reg, name, p);
    lemma_entry_index_props(reg, name);
    lemma_entry_index_props(reg, other);
    if k < reg.len() {
        assert forall|i: int| 0 <= i < k implies (#[trigger] n[i]).0 != name by {
            assert(n[i] == reg[i]);
        }
        lemma_entry_index(n, name, k);
        if other != name {
            let j = entry_index(reg, other) as int;
            assert forall|i: int| 0 <= i < j implies (#[trigger] n[i]).0 != other by {
                if i != k {
                    assert(n[i] == reg[i]);
                }
            }
            if j < reg.len() {
                assert(n[j] == reg[j]);
            }
            lemma_entry_index(n, other, j);
        }
    } else {
        assert forall|i: int| 0 <= i < reg.len() implies (#[trigger] n[i]).0 != name by {
            assert(n[i] == reg[i]);
        }
        lemma_entry_index(n, name, reg.len() as int);
        assert(published(reg, name) =~= Seq::<PackageView>::empty());
        assert(seq![p] =~= Seq::<PackageView>::empty().push(p));
        if other != name {
            let j = entry_index(reg, other) as int;
            assert forall|i: int| 0 <= i < j implies (#[trigger] n[i]).0 != other by {
                assert(n[i] == reg[i]);
            }
            if j < reg.len() {
                assert(n[j] == reg[j]);
                lemma_entry_index(n, other, j);
            } else {
                assert(n[reg.len() as int].0 == name);
                lemma_entry_index(n, other, n.len() as int);
            }
        }
    }
    let ps = published(n, name);
    let old_ps = published(reg, name);
    if forall|i: int| 0 <= i < old_ps.len() ==> (#[trigger] old_ps[i]).version != p.version {
        assert forall|i: int| 0 <= i < old_ps.len() implies (#[trigger] ps[i]).version != p.version by {
            assert(ps[i] == old_ps[i]);
        }
        lemma_package_index(ps, p.version, old_ps.len() as int);
    }
}

pub struct Registry {
    packages: Vec<(String, Vec<Package>)>,
}

pub open spec fn package_views(ps: Seq<Package>) -> Seq<PackageView> {
    ps.map_values(|p: Package| p@)
}

pub open spec fn entry_views(es: Seq<(String, Vec<Package>)>) -> RegistryView {
    es.map_values(|e: (String, Vec<Package>)| (e.0@, package_views(e.1@)))
}

impl View for Registry {
    type V = RegistryView;

    closed spec fn view(&self) -> RegistryView {
        entry_views(self.packages@)
    }
}

fn find_entry(es: &Vec<(String, Vec<Package>)>, name: &str) -> (r: usize)
    ensures
        r == entry_index(entry_views(es@), name@),
        r <= es@.len(),
        r < es@.len() ==> entry_views(es@)[r as int].0 == name@,
{
    let ghost reg = entry_views(es@);
    let mut i: usize = 0;
    while i < es.len()
        invariant
            i <= es@.len(),
            reg == entry_views(es@),
            forall|j: int| 0 <= j < i ==> (#[trigger] reg[j]).0 != name@,
        decreases es@.len() - i,
    {
        proof {
            assert(reg[i as int].0 == es@[i as int].0@);
        }
        if str_eq(es[i].0.as_str(), name) {
            proof {
                lemma_entry_index(reg, name@, i as int);
            }
            return i;
        }
        i = i + 1;
    }
    proof {
        lemma_entry_index(reg, name@, i as int);
    }
    i
}

impl Registry {
    pub fn new() -> (r: Registry)
        ensures
            r@ == Seq::<(Seq<char>, Seq<PackageView>)>::empty(),
    {
        let r = Registry { packages: Vec::new() };
        proof {
            assert(r@ =~= Seq::<(Seq<char>, Seq<PackageView>)>::empty());
        }
        r
    }

    /// Publishes `p` under `name`.
    fn publish(&mut self, name: String, p: Package)
        ensures
            final(self)@ == publish(old(self)@, name@, p@),
    {
        let k = find_entry(&self.packages, name.as_str());
        let ghost reg = self@;
        let ghost pv = p@;
        if k < self.packages.len() {
            let mut entry = self.packages.remove(k);
            proof {
                assert(entry_views(old(self).packages@)[k as int] == (entry.0@, package_views(entry.1@)));
            }
            let ghost before = package_views(entry.1@);
            entry.1.push(p);
            proof {
                assert(package_views(entry.1@) =~= before.push(pv));
            }
            let ghost e2 = entry;
            self.packages.insert(k, entry);
            proof {
                assert(self.packages@ =~= old(self).packages@.update(k as int, e2));
                assert(entry_views(self.packages@) =~= entry_views(old(self).packages@).update(
                    k as int,
                    (e2.0@, package_views(e2.1@)),
                ));
                assert(self@ =~= publish(reg, name@, pv));
            }
        } else {
            let mut list: Vec<Package> = Vec::new();
            list.push(p);
            proof {
                assert(package_views(list@) =~= seq![pv]);
            }
            self.packages.push((name, list));
            proof {
                assert(self@ =~= publish(reg, name@, pv));
            }
        }
    }
}

impl Provider for Registry {
    open spec fn listed_versions(&self, name: Seq<char>) -> Seq<VersionView> {
        published(self@, name).map_values(|p: PackageView| p.version)
    }

    open spec fn listed_dependencies(&self, name: Seq<char>, version: VersionView) -> Option<Seq<DepView>> {
        dependencies_of(self@, name, version)
    }

    fn versions(&self, name: &str) -> (r: Vec<Version>)
        ensures
            r@.map_values(|v: Version| v@) == published(self@, name@).map_values(
                |p: PackageView| p.version,
            ),
    {
        let k = find_entry(&self.packages, name);
        let mut out: Vec<Version> = Vec::new();
        if k == self.packages.len() {
            proof {
                assert(out@.map_values(|v: Version| v@) =~= published(self@, name@).map_values(
                    |p: PackageView| p.version,
                ));
            }
            return out;
        }
        let list = &self.packages[k].1;
        let ghost ps = published(self@, name@);
        proof {
            assert(ps == package_views(list@));
        }
        let mut i: usize = 0;
        while i < list.len()
            invariant
                i <= list@.len(),
                ps == package_views(list@),
                out@.map_values(|v: Version| v@) == ps.map_values(|p: PackageView| p.version).take(
                    i as int,
                ),
            decreases list@.len() - i,
        {
            let ghost prev = out@;
            let v = list[i].version.clone();
            out.push(v);
            proof {
                assert(out@.map_values(|v: Version| v@) =~= prev.map_values(|v: Version| v@).push(
                    list@[i as int].version@,
                ));
                assert(ps.map_values(|p: PackageView| p.version).take(i + 1) =~= ps.map_values(
                    |p: PackageView| p.version,
                ).take(i as int).push(ps[i as int].version));
            }
            i = i + 1;
        }
        proof {
            assert(ps.map_values(|p: PackageView| p.version).take(list@.len() as int) =~= ps.map_values(
                |p: PackageView| p.version,
            ));
        }
        out
    }

    fn dependencies(&self, name: &str, version: &Version) -> (r: Option<Vec<(String, Range)>>)
        ensures
            match r {
                Some(d) => dependencies_of(self@, name@, version@) == Some(dep_views(d@)),
                None => dependencies_of(self@, name@, version@) is None,
            },
    {
        let k = find_entry(&self.packages, name);
        if k == self.packages.len() {
            return None;
        }
        let list = &self.packages[k].1;
        let ghost ps = published(self@, name@);
        proof {
            assert(ps == package_views(list@));
        }
        let mut i: usize = 0;
        while i < list.len()
            invariant
                i <= list@.len(),
                ps == package_views(list@),
                ps == published(self@, name@),
                forall|j: int| 0 <= j < i ==> (#[trigger] ps[j]).version != version@,
            decreases list@.len() - i,
        {
            proof {
                assert(ps[i as int] == list@[i as int]@);
            }
            if list[i].version.same_as(version) {
                proof {
                    lemma_package_index(ps, version@, i as int);
                }
                return Some(clone_deps(&list[i].deps));
            }
            i = i + 1;
        }
        proof {
            lemma_package_index(ps, version@, i as int);
        }
        None
    }
}


/// The code part of a line: everything before the first `#`.
pub open spec fn code_of(raw: Seq<char>) -> Seq<char> {
    match split_once(raw, '#') {
        Some((code, _)) => code,
        None => raw,
    }
}

/// An error about line `n` of a text, as `Error::Manifest`.
pub open spec fn line_error(n: nat, msg: Seq<char>) -> ErrorView {
    ErrorView::Manifest("line "@ + decimal(n) + ": "@ + msg)
}

/// A package stanza being read: its name, its version and its dependencies so far.
pub type StanzaView = (Seq<char>, VersionView, Seq<DepView>);

/// The registry with the stanza being read, if any, published.
pub open spec fn flush(reg: RegistryView, cur: Option<StanzaView>) -> RegistryView {
    match cur {
        Some((name, v, deps)) => publish(reg, name, PackageView { version: v, deps }),
        None => reg,
    }
}

/// Reads line `n` of a registry text: blank and comment-only lines change
/// nothing; an indented line adds a dependency (`name constraint`) to the
/// stanza being read; any other line publishes that stanza and starts a new one
/// (`name version`).
pub open spec fn registry_line(
    st: (RegistryView, Option<StanzaView>),
    raw: Seq<char>,
    n: nat,
) -> std::result::Result<(RegistryView, Option<StanzaView>), ErrorView> {
    let line = code_of(raw);
    if trim(line).len() == 0 {
        Ok(st)
    } else {
        let parts = words(line);
        if is_ws(line[0]) {
            if parts.len() == 0 {
                Err(line_error(n, "empty dependency"@))
            } else {
                let dep = parts[0];
                let constraint = join(parts.skip(1), " "@);
                if constraint.len() == 0 {
                    Err(line_error(n, "dependency '"@ + dep + "' has no version constraint"@))
                } else {
                    match parse_constraint(constraint) {
                        Err(m) => Err(ErrorView::Range(m)),
                        Ok(r) => match st.1 {
                            None => Err(line_error(n, "dependency before any package"@)),
                            Some((name, v, deps)) => Ok((st.0, Some((name, v, deps.push((dep, r)))))),
                        },
                    }
                }
            }
        } else {
            let name = parts[0];
            if parts.len() < 2 {
                Err(line_error(n, "package '"@ + name + "' has no version"@))
            } else {
                match parse_version(parts[1]) {
                    Err(m) => Err(ErrorView::Version(m)),
                    Ok(v) => Ok((flush(st.0, st.1), Some((name, v, Seq::empty())))),
                }
            }
        }
    }
}

/// Words joined by single spaces: a nonempty text each of whose characters is
/// a space or a character of one of the words.
proof fn lemma_join_chars(ws: Seq<Seq<char>>)
    requires
        ws.len() > 0,
        forall|k: int| 0 <= k < ws.len() ==> (#[trigger] ws[k]).len() > 0,
        forall|k: int, i: int|
            0 <= k < ws.len() && 0 <= i < ws[k].len() ==> !is_ws(#[trigger] ws[k][i]) && ws[k][i] != '#',
    ensures
        join(ws, seq![' ']).len() > 0,
        forall|i: int| 0 <= i < join(ws, seq![' ']).len() ==> #[trigger] join(ws, seq![' '])[i] != '#' && join(
            ws,
            seq![' '],
        )[i] != '\n',
    decreases ws.len(),
{
    let j = join(ws, seq![' ']);
    if ws.len() == 1 {
        assert forall|i: int| 0 <= i < j.len() implies #[trigger] j[i] != '#' && j[i] != '\n' by {
            assert(ws[0][i] != '#' && !is_ws(ws[0][i]));
        }
    } else {
        let init = ws.drop_last();
        assert forall|k: int| 0 <= k < init.len() implies (#[trigger] init[k]).len() > 0 by {
            assert(init[k] == ws[k]);
        }
        assert forall|k: int, i: int| 0 <= k < init.len() && 0 <= i < init[k].len() implies !is_ws(
            #[trigger] init[k][i],
        ) && init[k][i] != '#' by {
            assert(init[k] == ws[k]);
            assert(!is_ws(ws[k][i]) && ws[k][i] != '#');
        }
        lemma_join_chars(init);
        let h = join(init, seq![' ']);
        let l = ws.last();
        assert(j == h + seq![' '] + l);
        assert forall|i: int| 0 <= i < j.len() implies #[trigger] j[i] != '#' && j[i] != '\n' by {
            if i < h.len() {
                assert(j[i] == h[i]);
            } else if i > h.len() {
                assert(j[i] == l[i - h.len() - 1]);
                assert(ws[ws.len() - 1][i - h.len() - 1] != '#' && !is_ws(ws[ws.len() - 1][i - h.len() - 1]));
            }
        }
    }
}

/// A `#` starts a comment that runs to the end of the line: a line reads as
/// the text before its first `#`, and a line blank up to there changes nothing.
pub proof fn law_registry_comment(
    st: (RegistryView, Option<StanzaView>),
    code: Seq<char>,
    comment: Seq<char>,
    n: nat,
)
    requires
        crate::text::free_of(code, '#'),
    ensures
        registry_line(st, code + seq!['#'] + comment, n) == registry_line(st, code, n),
        trim(code).len() == 0 ==> registry_line(st, code + seq!['#'] + comment, n) == Ok::<
            (RegistryView, Option<StanzaView>),
            ErrorView,
        >(st),
{
    crate::text::lemma_split_once_at(code, comment, '#');
    crate::text::lemma_split_once_none(code, '#');
}

/// A dependency line carries its whole constraint: an indented line naming `d`
/// followed by a constraint written as words `ws` separated by single spaces
/// adds `d` with the range of the whole constraint text to the stanza being
/// read, or fails with that text's error, or, outside any stanza, with the
/// error that no package came first. A line naming `d` alone is refused for
/// its missing constraint.
pub proof fn law_dependency_line(
    st: (RegistryView, Option<StanzaView>),
    d: Seq<char>,
    ws: Seq<Seq<char>>,
    n: nat,
)
    requires
        d.len() > 0,
        forall|i: int| 0 <= i < d.len() ==> !is_ws(#[trigger] d[i]) && d[i] != '#',
        ws.len() > 0,
        forall|k: int| 0 <= k < ws.len() ==> (#[trigger] ws[k]).len() > 0,
        forall|k: int, i: int|
            0 <= k < ws.len() && 0 <= i < ws[k].len() ==> !is_ws(#[trigger] ws[k][i]) && ws[k][i] != '#',
    ensures
        ({
            let c = join(ws, " "@);
            let raw = "  "@ + d + " "@ + c;
            match parse_constraint(c) {
                Ok(r) => match st.1 {
                    Some((name, v, deps)) => registry_line(st, raw, n) == Ok::<
                        (RegistryView, Option<StanzaView>),
                        ErrorView,
                    >((st.0, Some((name, v, deps.push((d, r)))))),
                    None => registry_line(st, raw, n) == Err::<(RegistryView, Option<StanzaView>), ErrorView>(
                        line_error(n, "dependency before any package"@),
                    ),
                },
                Err(m) => registry_line(st, raw, n) == Err::<(RegistryView, Option<StanzaView>), ErrorView>(
                    ErrorView::Range(m),
                ),
            }
        }),
        registry_line(st, "  "@ + d, n) == Err::<(RegistryView, Option<StanzaView>), ErrorView>(
            line_error(n, "dependency '"@ + d + "' has no version constraint"@),
        ),
{
    reveal_strlit(" ");
    reveal_strlit("  ");
    let sp = seq![' '];
    assert(" "@ =~= sp);
    let c = join(ws, sp);
    let raw = "  "@ + d + " "@ + c;
    let lead = seq![' '] + seq![' '] + d;
    assert(raw =~= lead + seq![' '] + c);
    crate::text::lemma_words_join(ws);
    crate::text::lemma_words_concat(lead, c, ' ');
    crate::text::lemma_words_word(d);
    crate::text::lemma_words_concat(seq![' '], d, ' ');
    assert(words(seq![' ']) =~= Seq::<Seq<char>>::empty()) by {
        assert(seq![' '].drop_last() =~= Seq::<char>::empty());
        assert(words(Seq::<char>::empty()) =~= Seq::<Seq<char>>::empty());
        assert(seq![' '].last() == ' ');
    }
    assert(words(lead) =~= seq![d]);
    let parts = words(raw);
    assert(parts =~= seq![d] + ws);
    assert(parts.skip(1) =~= ws);
    assert(parts[0] == d);
    lemma_join_chars(ws);
    assert forall|i: int| 0 <= i < raw.len() implies #[trigger] raw[i] != '#' by {
        if i < 2 {
        } else if i < 2 + d.len() {
            assert(raw[i] == d[i - 2]);
        } else if i == 2 + d.len() {
        } else {
            assert(raw[i] == c[i - 3 - d.len()]);
        }
    }
    crate::text::lemma_split_once_none(raw, '#');
    assert(code_of(raw) == raw);
    assert(raw[0] == ' ');
    assert(raw[2] == d[0]);
    crate::text::lemma_trim_nonblank(raw, 2);
    assert(c.len() > 0);
    let bare = "  "@ + d;
    assert(bare =~= lead);
    assert forall|i: int| 0 <= i < bare.len() implies #[trigger] bare[i] != '#' by {
        if i >= 2 {
            assert(bare[i] == d[i - 2]);
        }
    }
    crate::text::lemma_split_once_none(bare, '#');
    assert(bare[2] == d[0]);
    crate::text::lemma_trim_nonblank(bare, 2);
    assert(seq![d].skip(1) =~= Seq::<Seq<char>>::empty());
    assert(join(Seq::<Seq<char>>::empty(), " "@) =~= Seq::<char>::empty());
}

/// Two lines joined by a line break read as those two lines.
proof fn lemma_two_lines(a: Seq<char>, b: Seq<char>)
    requires
        crate::text::free_of(a, '\n'),
        crate::text::free_of(b, '\n'),
        a.len() > 0,
        a.last() != '\r',
        b.len() > 0,
    ensures
        lines(a + "\n"@ + b) == seq![a, b],
{
    reveal_strlit("\n");
    let ls = seq![a, b];
    assert(ls.drop_last() =~= seq![a]);
    assert(join(seq![a], seq!['\n']) == a);
    assert(join(ls, seq!['\n']) == a + seq!['\n'] + b);
    assert(a + "\n"@ + b =~= a + seq!['\n'] + b);
    assert forall|k: int| 0 <= k < ls.len() implies crate::text::free_of(#[trigger] ls[k], '\n') by {
        if k == 0 {
            assert(ls[k] == a);
        } else {
            assert(ls[k] == b);
        }
    }
    crate::text::lemma_split_join(ls, '\n');
    assert(lines(a + "\n"@ + b) =~= ls);
}

/// A package line publishes the stanza being read and starts one for the
/// name and the version its second word reads as; the version's error when it
/// does not read; and a name alone is refused for its missing version.
pub proof fn law_package_line(st: (RegistryView, Option<StanzaView>), name: Seq<char>, t: Seq<char>, n: nat)
    requires
        name.len() > 0,
        forall|i: int| 0 <= i < name.len() ==> !is_ws(#[trigger] name[i]) && name[i] != '#',
        t.len() > 0,
        forall|i: int| 0 <= i < t.len() ==> !is_ws(#[trigger] t[i]) && t[i] != '#',
    ensures
        registry_line(st, name + " "@ + t, n) == match parse_version(t) {
            Ok(v) => Ok::<(RegistryView, Option<StanzaView>), ErrorView>(
                (flush(st.0, st.1), Some((name, v, Seq::<DepView>::empty()))),
            ),
            Err(m) => Err(ErrorView::Version(m)),
        },
        registry_line(st, name, n) == Err::<(RegistryView, Option<StanzaView>), ErrorView>(
            line_error(n, "package '"@ + name + "' has no version"@),
        ),
{
    reveal_strlit(" ");
    let head = name + " "@ + t;
    assert(head =~= name + seq![' '] + t);
    assert forall|i: int| 0 <= i < head.len() implies #[trigger] head[i] != '#' by {
        if i < name.len() {
            assert(head[i] == name[i]);
        } else if i > name.len() {
            assert(head[i] == t[i - name.len() - 1]);
        }
    }
    crate::text::lemma_split_once_none(head, '#');
    assert(code_of(head) == head);
    crate::text::lemma_trim_nonblank(head, 0);
    crate::text::lemma_words_word(name);
    crate::text::lemma_words_word(t);
    crate::text::lemma_words_concat(name, t, ' ');
    assert(words(head) =~= seq![name, t]);
    assert forall|i: int| 0 <= i < name.len() implies #[trigger] name[i] != '#' by {
        assert(name[i] != '#');
    }
    crate::text::lemma_split_once_none(name, '#');
    crate::text::lemma_trim_nonblank(name, 0);
}

/// A package line `name version` starts a stanza for that version.
proof fn lemma_package_line(name: Seq<char>, v: VersionView)
    requires
        name.len() > 0,
        forall|i: int| 0 <= i < name.len() ==> !is_ws(#[trigger] name[i]) && name[i] != '#',
        crate::version::text_readable(v),
        crate::text::free_of(crate::version::version_text(v), '#'),
    ensures
        registry_line(
            (Seq::empty(), None),
            name + " "@ + crate::version::version_text(v),
            1,
        ) == Ok::<(RegistryView, Option<StanzaView>), ErrorView>(
            (Seq::empty(), Some((name, v, Seq::<DepView>::empty()))),
        ),
{
    let vt = crate::version::version_text(v);
    crate::version::lemma_version_text_ends(v);
    crate::version::law_version_text_parses(v);
    law_package_line((Seq::empty(), None), name, vt, 1);
    assert(flush(Seq::empty(), None) == Seq::<(Seq<char>, Seq<PackageView>)>::empty());
}

/// The text of a package line and a dependency line is those two lines.
proof fn lemma_registry_two_lines(name: Seq<char>, v: VersionView, d: Seq<char>, ws: Seq<Seq<char>>)
    requires
        name.len() > 0,
        forall|i: int| 0 <= i < name.len() ==> !is_ws(#[trigger] name[i]) && name[i] != '#',
        crate::version::text_readable(v),
        d.len() > 0,
        forall|i: int| 0 <= i < d.len() ==> !is_ws(#[trigger] d[i]) && d[i] != '#',
        ws.len() > 0,
        forall|k: int| 0 <= k < ws.len() ==> (#[trigger] ws[k]).len() > 0,
        forall|k: int, i: int|
            0 <= k < ws.len() && 0 <= i < ws[k].len() ==> !is_ws(#[trigger] ws[k][i]) && ws[k][i] != '#',
    ensures
        lines(name + " "@ + crate::version::version_text(v) + "\n"@ + ("  "@ + d + " "@ + join(ws, seq![' '])))
            == seq![name + " "@ + crate::version::version_text(v), "  "@ + d + " "@ + join(ws, seq![' '])],
{
    reveal_strlit(" ");
    reveal_strlit("  ");
    let vt = crate::version::version_text(v);
    crate::version::lemma_version_text_ends(v);
    let c = join(ws, seq![' ']);
    let head = name + " "@ + vt;
    let dep = "  "@ + d + " "@ + c;
    lemma_join_chars(ws);
    assert forall|i: int| 0 <= i < head.len() implies #[trigger] head[i] != '\n' by {
        if i < name.len() {
            assert(head[i] == name[i]);
        } else if i > name.len() {
            assert(head[i] == vt[i - name.len() - 1]);
        }
    }
    assert forall|i: int| 0 <= i < dep.len() implies #[trigger] dep[i] != '\n' by {
        if 2 <= i < 2 + d.len() {
            assert(dep[i] == d[i - 2]);
        } else if i > 2 + d.len() {
            assert(dep[i] == c[i - 3 - d.len()]);
        }
    }
    assert(head.last() == vt.last());
    lemma_two_lines(head, dep);
}

/// A registry text of one package version with one dependency line publishes
/// that dependency with the range of the whole rest of its line, however many
/// words the constraint spans; a constraint that does not read is the error.
#[verifier::spinoff_prover]
pub proof fn law_registry_dependency(
    name: Seq<char>,
    v: VersionView,
    d: Seq<char>,
    ws: Seq<Seq<char>>,
)
    requires
        name.len() > 0,
        forall|i: int| 0 <= i < name.len() ==> !is_ws(#[trigger] name[i]) && name[i] != '#',
        crate::version::text_readable(v),
        crate::text::free_of(crate::version::version_text(v), '#'),
        d.len() > 0,
        forall|i: int| 0 <= i < d.len() ==> !is_ws(#[trigger] d[i]) && d[i] != '#',
        ws.len() > 0,
        forall|k: int| 0 <= k < ws.len() ==> (#[trigger] ws[k]).len() > 0,
        forall|k: int, i: int|
            0 <= k < ws.len() && 0 <= i < ws[k].len() ==> !is_ws(#[trigger] ws[k][i]) && ws[k][i] != '#',
    ensures
        ({
            let c = join(ws, " "@);
            let text = name + " "@ + crate::version::version_text(v) + "\n"@ + "  "@ + d + " "@ + c;
            match parse_constraint(c) {
                Ok(r) => parse_registry(text) matches Ok(reg) && dependencies_of(reg, name, v) == Some(
                    seq![(d, r)],
                ),
                Err(m) => parse_registry(text) == Err::<RegistryView, ErrorView>(ErrorView::Range(m)),
            }
        }),
{
    reveal_strlit(" ");
    let vt = crate::version::version_text(v);
    let sp = seq![' '];
    assert(" "@ =~= sp);
    let c = join(ws, sp);
    let head = name + " "@ + vt;
    let dep = "  "@ + d + " "@ + c;
    let text = head + "\n"@ + dep;
    assert(name + " "@ + vt + "\n"@ + "  "@ + d + " "@ + c =~= text);
    lemma_registry_two_lines(name, v, d, ws);
    assert(lines(text) == seq![head, dep]);
    assert(seq![head, dep].drop_last() =~= seq![head]);
    assert(seq![head, dep].last() == dep);
    lemma_package_line(name, v);
    let st0: (RegistryView, Option<StanzaView>) = (Seq::empty(), None);
    let st1: (RegistryView, Option<StanzaView>) = (Seq::empty(), Some((name, v, Seq::<DepView>::empty())));
    assert(registry_lines(Seq::<Seq<char>>::empty()) == Ok::<(RegistryView, Option<StanzaView>), ErrorView>(st0));
    assert(seq![head].drop_last() =~= Seq::<Seq<char>>::empty());
    assert(registry_lines(seq![head]) == Ok::<(RegistryView, Option<StanzaView>), ErrorView>(st1));
    law_dependency_line(st1, d, ws, 2);
    match parse_constraint(c) {
        Ok(r) => {
            let p = PackageView { version: v, deps: Seq::<DepView>::empty().push((d, r)) };
            assert(Seq::<DepView>::empty().push((d, r)) =~= seq![(d, r)]);
            law_publish(Seq::empty(), name, p, name);
        },
        Err(m) => {},
    }
}

/// The first lines of a registry text read in turn, from an empty registry.
pub open spec fn registry_lines(ls: Seq<Seq<char>>) -> std::result::Result<
    (RegistryView, Option<StanzaView>),
    ErrorView,
>
    decreases ls.len(),
{
    if ls.len() == 0 {
        Ok((Seq::empty(), None))
    } else {
        match registry_lines(ls.drop_last()) {
            Err(e) => Err(e),
            Ok(st) => registry_line(st, ls.last(), ls.len()),
        }
    }
}

/// The registry a text describes, or the error of its first bad line.
pub open spec fn parse_registry(text: Seq<char>) -> std::result::Result<RegistryView, ErrorView> {
    match registry_lines(lines(text)) {
        Err(e) => Err(e),
        Ok((reg, cur)) => Ok(flush(reg, cur)),
    }
}

/// The dependency list parsed in order, or the message of the first bad constraint.
pub open spec fn parse_deps(ds: Seq<(Seq<char>, Seq<char>)>) -> std::result::Result<Seq<DepView>, Seq<char>>
    decreases ds.len(),
{
    if ds.len() == 0 {
        Ok(Seq::empty())
    } else {
        match parse_deps(ds.drop_last()) {
            Err(m) => Err(m),
            Ok(prev) => match parse_constraint(ds.last().1) {
                Err(m) => Err(m),
                Ok(r) => Ok(prev.push((ds.last().0, r))),
            },
        }
    }
}

pub open spec fn str_pairs(ds: Seq<(&str, &str)>) -> Seq<(Seq<char>, Seq<char>)> {
    ds.map_values(|p: (&str, &str)| (p.0@, p.1@))
}

/// The text "line `n`: `msg`" as a manifest error.
fn line_err(n: usize, msg: &[char]) -> (e: Error)
    ensures
        e@ == line_error(n as nat, msg@),
{
    let mut m = String::new();
    push_str(&mut m, "line ");
    push_decimal(&mut m, n as u64);
    push_str(&mut m, ": ");
    push_chars(&mut m, msg);
    Error::Manifest(m)
}

/// The code part of a line.
fn code_part(raw: &[char]) -> (r: Vec<char>)
    ensures
        r@ == code_of(raw@),
{
    match split_once_char(raw, '#') {
        Some((code, _)) => code,
        None => crate::text::copy_range(raw, 0, raw.len()),
    }
}

/// A stanza being read as plain values.
pub open spec fn stanza_view(cur: Option<(String, Version, Vec<(String, Range)>)>) -> Option<StanzaView> {
    match cur {
        Some((name, v, deps)) => Some((name@, v@, dep_views(deps@))),
        None => None,
    }
}

impl Registry {
    /// Publishes a package version given as text: `version` and each
    /// dependency's constraint are parsed; the first that fails is the error and
    /// the registry is left unchanged.
    pub fn add(&mut self, name: &str, version: &str, deps: &[(&str, &str)]) -> (r: Result<()>)
        ensures
            match parse_version(version@) {
                Err(m) => r matches Err(e) && e@ == ErrorView::Version(m) && final(self)@ == old(self)@,
                Ok(v) => match parse_deps(str_pairs(deps@)) {
                    Err(m) => r matches Err(e) && e@ == ErrorView::Range(m) && final(self)@ == old(self)@,
                    Ok(ds) => r is Ok && final(self)@ == publish(
                        old(self)@,
                        name@,
                        PackageView { version: v, deps: ds },
                    ),
                },
            },
    {
        let ver = match Version::parse(version) {
            Ok(v) => v,
            Err(e) => {
                return Err(e);
            },
        };
        let ghost ds = str_pairs(deps@);
        let mut parsed: Vec<(String, Range)> = Vec::new();
        let mut i: usize = 0;
        proof {
            assert(ds.take(0) =~= Seq::<(Seq<char>, Seq<char>)>::empty());
            assert(dep_views(parsed@) =~= Seq::<DepView>::empty());
        }
        while i < deps.len()
            invariant
                i <= deps@.len(),
                ds == str_pairs(deps@),
                parse_deps(ds.take(i as int)) == Ok::<Seq<DepView>, Seq<char>>(dep_views(parsed@)),
                parse_version(version@) == Ok::<VersionView, Seq<char>>(ver@),
                self@ == old(self)@,
            decreases deps@.len() - i,
        {
            let (dn, dc) = deps[i];
            proof {
                assert(ds[i as int] == (dn@, dc@));
                assert(ds.take(i + 1).drop_last() =~= ds.take(i as int));
                assert(ds.take(i + 1).last() == ds[i as int]);
            }
            let r = match crate::constraint::parse(dc) {
                Ok(r) => r,
                Err(e) => {
                    proof {
                        lemma_parse_deps_prefix_err(ds, i + 1);
                    }
                    return Err(e);
                },
            };
            let ghost prev = dep_views(parsed@);
            parsed.push((string_of(chars_of(dn).as_slice()), r));
            proof {
                assert(dep_views(parsed@) =~= prev.push((dn@, r@)));
            }
            i = i + 1;
        }
        proof {
            assert(ds.take(deps@.len() as int) =~= ds);
        }
        let package = Package { version: ver, deps: parsed };
        self.publish(string_of(chars_of(name).as_slice()), package);
        Ok(())
    }

    /// Parses the text registry format. One package version per stanza:
    /// ```text
    /// foo 1.2.0
    ///   bar ^1.0
    ///   baz >=2.0, <3.0
    /// foo 1.3.0
    ///   bar ^1.2
    /// ```
    /// A line with no leading whitespace starts a package version; indented
    /// lines are its dependencies (`name constraint`). Blank lines and `#`
    /// comments are ignored.
    pub fn parse(text: &str) -> (r: Result<Registry>)
        ensures
            match r {
                Ok(reg) => parse_registry(text@) == Ok::<RegistryView, ErrorView>(reg@),
                Err(e) => parse_registry(text@) == Err::<RegistryView, ErrorView>(e@),
            },
    {
        let cs = chars_of(text);
        let ls = split_lines(cs.as_slice());
        let ghost lv = views(ls@);
        let mut reg = Registry::new();
        let mut current: Option<(String, Version, Vec<(String, Range)>)> = None;
        let mut i: usize = 0;
        proof {
            assert(lv.take(0) =~= Seq::<Seq<char>>::empty());
        }
        while i < ls.len()
            invariant
                i <= ls@.len(),
                lv == views(ls@),
                lv == lines(text@),
                registry_lines(lv.take(i as int)) == Ok::<(RegistryView, Option<StanzaView>), ErrorView>(
                    (reg@, stanza_view(current)),
                ),
            decreases ls@.len() - i,
        {
            proof {
                assert(lv[i as int] == ls@[i as int]@);
                assert(lv.take(i + 1).drop_last() =~= lv.take(i as int));
                assert(lv.take(i + 1).last() == lv[i as int]);
            }
            match read_registry_line(&mut reg, &mut current, ls[i].as_slice(), i + 1) {
                Ok(()) => {},
                Err(e) => {
                    proof {
                        lemma_registry_lines_err(lv, i + 1);
                    }
                    return Err(e);
                },
            }
            i = i + 1;
        }
        proof {
            assert(lv.take(ls@.len() as int) =~= lv);
        }
        flush_stanza(&mut reg, current);
        Ok(reg)
    }
}

proof fn lemma_parse_deps_prefix_err(ds: Seq<(Seq<char>, Seq<char>)>, k: int)
    requires
        0 <= k <= ds.len(),
        parse_deps(ds.take(k)) is Err,
    ensures
        parse_deps(ds.take(k)) == parse_deps(ds),
    decreases ds.len() - k,
{
    if k < ds.len() {
        assert(ds.take(k + 1).drop_last() =~= ds.take(k));
        lemma_parse_deps_prefix_err(ds, k + 1);
    } else {
        assert(ds.take(k) =~= ds);
    }
}

proof fn lemma_registry_lines_err(ls: Seq<Seq<char>>, k: int)
    requires
        0 <= k <= ls.len(),
        registry_lines(ls.take(k)) is Err,
    ensures
        registry_lines(ls) == registry_lines(ls.take(k)),
    decreases ls.len() - k,
{
    if k < ls.len() {
        assert(ls.take(k + 1).drop_last() =~= ls.take(k));
        lemma_registry_lines_err(ls, k + 1);
    } else {
        assert(ls.take(k) =~= ls);
    }
}

/// Publishes the stanza being read, if any.
fn flush_stanza(reg: &mut Registry, cur: Option<(String, Version, Vec<(String, Range)>)>)
    ensures
        final(reg)@ == flush(old(reg)@, stanza_view(cur)),
{
    match cur {
        Some((name, version, deps)) => {
            let p = Package { version, deps };
            reg.publish(name, p);
        },
        None => {},
    }
}

/// Reads line `n` of a registry text into the registry and the stanza being read.
fn read_registry_line(
    reg: &mut Registry,
    current: &mut Option<(String, Version, Vec<(String, Range)>)>,
    raw: &[char],
    n: usize,
) -> (r: Result<()>)
    ensures
        match r {
            Ok(()) => registry_line((old(reg)@, stanza_view(*old(current))), raw@, n as nat) == Ok::<
                (RegistryView, Option<StanzaView>),
                ErrorView,
            >((final(reg)@, stanza_view(*final(current)))),
            Err(e) => registry_line((old(reg)@, stanza_view(*old(current))), raw@, n as nat) == Err::<
                (RegistryView, Option<StanzaView>),
                ErrorView,
            >(e@),
        },
{
    let line = code_part(raw);
    let t = trim_chars(line.as_slice());
    if t.len() == 0 {
        return Ok(());
    }
    proof {
        lemma_not_blank(line@);
    }
    let parts = split_words(line.as_slice());
    proof {
        assert(views(parts@)[0] == parts@[0]@);
    }
    if is_whitespace(line[0]) {
        let dep = &parts[0];
        let mut rest: Vec<Vec<char>> = Vec::new();
        let mut k: usize = 1;
        proof {
            assert(views(rest@) =~= views(parts@).skip(1).take(0));
        }
        while k < parts.len()
            invariant
                1 <= k <= parts@.len(),
                views(rest@) == views(parts@).skip(1).take(k - 1),
            decreases parts@.len() - k,
        {
            let ghost prev = views(rest@);
            rest.push(crate::text::copy_range(parts[k].as_slice(), 0, parts[k].len()));
            proof {
                assert(parts@[k as int]@.subrange(0, parts@[k as int]@.len() as int) =~= parts@[k as int]@);
                assert(views(rest@) =~= prev.push(views(parts@)[k as int]));
                assert(views(parts@).skip(1).take(k as int) =~= views(parts@).skip(1).take(k - 1).push(
                    views(parts@)[k as int],
                ));
            }
            k = k + 1;
        }
        proof {
            assert(views(parts@).skip(1).take(parts@.len() - 1) =~= views(parts@).skip(1));
        }
        let sep = chars_of(" ");
        let constraint = join_chars(&rest, sep.as_slice());
        if constraint.len() == 0 {
            let mut msg: Vec<char> = chars_of("dependency '");
            let mut i: usize = 0;
            let ghost m0 = msg@;
            while i < dep.len()
                invariant
                    i <= dep@.len(),
                    msg@ == m0 + dep@.take(i as int),
                decreases dep@.len() - i,
            {
                msg.push(dep[i]);
                proof {
                    assert(dep@.take(i + 1) =~= dep@.take(i as int).push(dep@[i as int]));
                }
                i = i + 1;
            }
            let tail = chars_of("' has no version constraint");
            let mut j: usize = 0;
            let ghost m1 = msg@;
            while j < tail.len()
                invariant
                    j <= tail@.len(),
                    msg@ == m1 + tail@.take(j as int),
                decreases tail@.len() - j,
            {
                msg.push(tail[j]);
                proof {
                    assert(tail@.take(j + 1) =~= tail@.take(j as int).push(tail@[j as int]));
                }
                j = j + 1;
            }
            proof {
                assert(dep@.take(dep@.len() as int) =~= dep@);
                assert(tail@.take(tail@.len() as int) =~= tail@);
                assert(msg@ =~= "dependency '"@ + dep@ + "' has no version constraint"@);
            }
            return Err(line_err(n, msg.as_slice()));
        }
        let text = string_of(constraint.as_slice());
        let r = match crate::constraint::parse(text.as_str()) {
            Ok(r) => r,
            Err(e) => {
                return Err(e);
            },
        };
        match current {
            None => {
                return Err(line_err(n, chars_of("dependency before any package").as_slice()));
            },
            Some((_, _, deps)) => {
                let ghost before = dep_views(deps@);
                deps.push((string_of(dep.as_slice()), r));
                proof {
                    assert(dep_views(deps@) =~= before.push((parts@[0]@, r@)));
                }
            },
        }
        Ok(())
    } else {
        let name = &parts[0];
        if parts.len() < 2 {
            let mut msg = String::new();
            push_str(&mut msg, "package '");
            push_chars(&mut msg, name.as_slice());
            push_str(&mut msg, "' has no version");
            let m = chars_of(msg.as_str());
            return Err(line_err(n, m.as_slice()));
        }
        proof {
            assert(views(parts@)[1] == parts@[1]@);
        }
        let ver_text = string_of(parts[1].as_slice());
        let version = match Version::parse(ver_text.as_str()) {
            Ok(v) => v,
            Err(e) => {
                return Err(e);
            },
        };
        let mut prev: Option<(String, Version, Vec<(String, Range)>)> = None;
        std::mem::swap(&mut prev, current);
        flush_stanza(reg, prev);
        let deps: Vec<(String, Range)> = Vec::new();
        proof {
            assert(dep_views(deps@) =~= Seq::<DepView>::empty());
        }
        *current = Some((string_of(name.as_slice()), version, deps));
        Ok(())
    }
}

} // verus!
