//! Semantic versions: `major.minor.patch` with an optional dot-separated
//! prerelease tag. Numeric fields compare numerically, a prerelease is lower than
//! its release, and prerelease identifiers compare per SemVer 2.0: numeric ones
//! numerically, numeric before alphanumeric, alphanumeric lexically.
use vstd::prelude::*;
use std::cmp::Ordering;
use crate::error::{Error, ErrorView, Result};
use crate::order::{
    Order, compare_int, then, flip, preorder_laws, lex_compare, lemma_lex_refl, lemma_lex_flip,
    lemma_lex_trans, compare_u64, compare_usize, compare_chars,
};
use crate::text::{
    chars_of, trim, trim_chars, split_once, split_once_char, trim_end_char, trim_end_matching,
    split, split_char, lemma_split_nonempty, parse_u64, parse_u64_chars, views, copy_range,
    push_str, push_chars, push_decimal, decimal, join, join_chars, string_of, free_of, is_ws,
    lemma_split_join, lemma_split_once_at, lemma_split_once_none, lemma_trim_same, lemma_decimal_parses,
};

verus! {

#[derive(Debug, Eq)]
pub struct Version {
    pub major: u64,
    pub minor: u64,
    pub patch: u64,
    /// Prerelease identifiers, e.g. `1.0.0-rc.1` has `["rc", "1"]`. Empty for a
    /// normal release.
    pub pre: Vec<String>,
}

/// A version as plain values.
pub struct VersionView {
    pub major: u64,
    pub minor: u64,
    pub patch: u64,
    pub pre: Seq<Seq<char>>,
}

/// The character sequences of a list of strings.
pub open spec fn string_views(v: Seq<String>) -> Seq<Seq<char>> {
    v.map_values(|s: String| s@)
}

impl View for Version {
    type V = VersionView;

    open spec fn view(&self) -> VersionView {
        VersionView {
            major: self.major,
            minor: self.minor,
            patch: self.patch,
            pre: string_views(self.pre@),
        }
    }
}

/// How two prerelease identifiers compare: numerically when both are numeric,
/// a numeric one below an alphanumeric one, lexically otherwise.
pub open spec fn compare_ident(x: Seq<char>, y: Seq<char>) -> Order {
    match (parse_u64(x), parse_u64(y)) {
        (Some(a), Some(b)) => compare_int(a as int, b as int),
        (Some(_), None) => Order::Less,
        (None, Some(_)) => Order::Greater,
        (None, None) => lex_compare(x, y),
    }
}

/// Identifier lists compared position by position, then by length.
pub open spec fn compare_idents(a: Seq<Seq<char>>, b: Seq<Seq<char>>) -> Order
    decreases a.len(),
{
    if a.len() == 0 || b.len() == 0 {
        compare_int(a.len() as int, b.len() as int)
    } else {
        then(compare_ident(a[0], b[0]), compare_idents(a.drop_first(), b.drop_first()))
    }
}

/// Prerelease tags compared: no tag ranks above any tag.
pub open spec fn compare_pre(a: Seq<Seq<char>>, b: Seq<Seq<char>>) -> Order {
    if a.len() == 0 && b.len() == 0 {
        Order::Equal
    } else if a.len() == 0 {
        Order::Greater
    } else if b.len() == 0 {
        Order::Less
    } else {
        compare_idents(a, b)
    }
}

/// The semver order of two versions.
pub open spec fn version_compare(a: VersionView, b: VersionView) -> Order {
    then(
        compare_int(a.major as int, b.major as int),
        then(
            compare_int(a.minor as int, b.minor as int),
            then(compare_int(a.patch as int, b.patch as int), compare_pre(a.pre, b.pre)),
        ),
    )
}

/// The least version there is: 0.0.0 with the least prerelease tag, `0`.
pub open spec fn least_version() -> VersionView {
    VersionView { major: 0, minor: 0, patch: 0, pre: seq![decimal(0)] }
}

/// No version sorts below the least version.
pub proof fn law_least_version(v: VersionView)
    ensures
        version_compare(least_version(), v) != Order::Greater,
{
    lemma_decimal_parses(0);
    let a = least_version().pre;
    if v.pre.len() > 0 {
        assert(a.drop_first() =~= Seq::<Seq<char>>::empty());
        assert(compare_ident(a[0], v.pre[0]) != Order::Greater);
        assert(compare_idents(a.drop_first(), v.pre.drop_first()) != Order::Greater);
    }
}

proof fn lemma_ident_laws(x: Seq<char>, y: Seq<char>, z: Seq<char>)
    ensures
        compare_ident(x, x) == Order::Equal,
        compare_ident(x, y) == flip(compare_ident(y, x)),
        preorder_laws(compare_ident(x, y), compare_ident(y, z), compare_ident(x, z)),
{
    lemma_lex_refl(x);
    lemma_lex_flip(x, y);
    lemma_lex_trans(x, y, z);
}

proof fn lemma_idents_laws(a: Seq<Seq<char>>, b: Seq<Seq<char>>, c: Seq<Seq<char>>)
    ensures
        compare_idents(a, a) == Order::Equal,
        compare_idents(a, b) == flip(compare_idents(b, a)),
        preorder_laws(compare_idents(a, b), compare_idents(b, c), compare_idents(a, c)),
    decreases a.len(),
{
    if a.len() > 0 && b.len() > 0 && c.len() > 0 {
        lemma_ident_laws(a[0], b[0], c[0]);
        lemma_ident_laws(b[0], c[0], a[0]);
        lemma_idents_laws(a.drop_first(), b.drop_first(), c.drop_first());
    } else if a.len() > 0 && b.len() > 0 {
        lemma_ident_laws(a[0], b[0], a[0]);
        lemma_idents_laws(a.drop_first(), b.drop_first(), b.drop_first());
    } else if a.len() > 0 {
        lemma_ident_laws(a[0], a[0], a[0]);
        lemma_idents_laws(a.drop_first(), a.drop_first(), a.drop_first());
    }
}

/// The semver order is a total preorder: reflexive, antisymmetric in its answer, transitive.
pub proof fn version_order_laws(a: VersionView, b: VersionView, c: VersionView)
    ensures
        version_compare(a, a) == Order::Equal,
        version_compare(a, b) == flip(version_compare(b, a)),
        preorder_laws(version_compare(a, b), version_compare(b, c), version_compare(a, c)),
{
    lemma_idents_laws(a.pre, b.pre, c.pre);
    lemma_idents_laws(b.pre, a.pre, c.pre);
}

/// A prerelease sorts below its release, and above every release of a lower
/// `major.minor.patch`.
pub proof fn law_prerelease_below_release(v: VersionView, w: VersionView)
    requires
        v.pre.len() > 0,
    ensures
        version_compare(v, VersionView { pre: Seq::empty(), ..v }) == Order::Less,
        w.pre.len() == 0 && version_compare(
            VersionView { pre: Seq::empty(), ..w },
            VersionView { pre: Seq::empty(), ..v },
        ) == Order::Less ==> version_compare(w, v) == Order::Less,
{
}

/// `version '<s>'` followed by the rest of a version error message.
pub open spec fn version_message(s: Seq<char>, tail: Seq<char>) -> Seq<char> {
    "version '"@ + s + tail
}

/// What `Version::parse` makes of a text: the version, or the error message.
pub open spec fn parse_version(input: Seq<char>) -> std::result::Result<VersionView, Seq<char>> {
    let s = trim(input);
    let (core0, pre) = match split_once(s, '-') {
        Some((c, p)) => (c, Some(p)),
        None => (s, None),
    };
    let parts = split(trim_end_char(core0, '.'), '.');
    if parse_u64(parts[0]) is None {
        Err(version_message(s, "' has a non-numeric "@ + "major"@))
    } else if parts.len() < 2 {
        Err(version_message(s, "' is missing the "@ + "minor"@))
    } else if parse_u64(parts[1]) is None {
        Err(version_message(s, "' has a non-numeric "@ + "minor"@))
    } else if parts.len() < 3 {
        Err(version_message(s, "' is missing the "@ + "patch"@))
    } else if parse_u64(parts[2]) is None {
        Err(version_message(s, "' has a non-numeric "@ + "patch"@))
    } else if parts.len() > 3 {
        Err(version_message(s, "' has too many parts"@))
    } else {
        let core = VersionView {
            major: parse_u64(parts[0])->0,
            minor: parse_u64(parts[1])->0,
            patch: parse_u64(parts[2])->0,
            pre: Seq::empty(),
        };
        match pre {
            None => Ok(core),
            Some(p) => if p.len() == 0 {
                Err(version_message(s, "' has an empty prerelease"@))
            } else {
                Ok(VersionView { pre: split(p, '.'), ..core })
            },
        }
    }
}

/// A version as `Display` writes it: `major.minor.patch`, then `-` and the
/// prerelease identifiers joined by dots, if any.
pub open spec fn version_text(v: VersionView) -> Seq<char> {
    let core = core_text(v);
    if v.pre.len() == 0 {
        core
    } else {
        core + seq!['-'] + join(v.pre, seq!['.'])
    }
}

fn version_error(s: &[char], mid: &str, what: &str) -> (e: Error)
    ensures
        e@ == ErrorView::Version(version_message(s@, mid@ + what@)),
{
    let mut m = String::new();
    push_str(&mut m, "version '");
    push_chars(&mut m, s);
    push_str(&mut m, mid);
    push_str(&mut m, what);
    proof {
        assert(m@ =~= version_message(s@, mid@ + what@));
    }
    Error::Version(m)
}

fn strings_of(parts: &Vec<Vec<char>>) -> (r: Vec<String>)
    ensures
        string_views(r@) == views(parts@),
{
    let mut out: Vec<String> = Vec::new();
    let mut i: usize = 0;
    while i < parts.len()
        invariant
            i <= parts@.len(),
            string_views(out@) == views(parts@).take(i as int),
        decreases parts@.len() - i,
    {
        let s = string_of(parts[i].as_slice());
        let ghost old_out = out@;
        let ghost sv = s@;
        out.push(s);
        proof {
            assert(string_views(out@) =~= string_views(old_out).push(sv));
            assert(views(parts@).take(i + 1) =~= views(parts@).take(i as int).push(parts@[i as int]@));
        }
        i = i + 1;
    }
    proof {
        assert(views(parts@).take(parts@.len() as int) =~= views(parts@));
    }
    out
}

fn string_chars(ss: &Vec<String>) -> (r: Vec<Vec<char>>)
    ensures
        views(r@) == string_views(ss@),
{
    let mut out: Vec<Vec<char>> = Vec::new();
    let mut i: usize = 0;
    while i < ss.len()
        invariant
            i <= ss@.len(),
            views(out@) == string_views(ss@).take(i as int),
        decreases ss@.len() - i,
    {
        let cs = chars_of(ss[i].as_str());
        let ghost old_out = out@;
        let ghost cv = cs@;
        out.push(cs);
        proof {
            assert(views(out@) =~= views(old_out).push(cv));
            assert(string_views(ss@).take(i + 1) =~= string_views(ss@).take(i as int).push(ss@[i as int]@));
        }
        i = i + 1;
    }
    proof {
        assert(string_views(ss@).take(ss@.len() as int) =~= string_views(ss@));
    }
    out
}

impl Clone for Version {
    fn clone(&self) -> (r: Self)
        ensures
            r@ == self@,
    {
        let mut pre: Vec<String> = Vec::new();
        let mut i: usize = 0;
        while i < self.pre.len()
            invariant
                i <= self.pre@.len(),
                string_views(pre@) == string_views(self.pre@).take(i as int),
            decreases self.pre@.len() - i,
        {
            let c = self.pre[i].clone();
            let ghost old_pre = pre@;
            pre.push(c);
            proof {
                assert(string_views(pre@) =~= string_views(old_pre).push(self.pre@[i as int]@));
                assert(string_views(self.pre@).take(i + 1) =~= string_views(self.pre@).take(i as int).push(self.pre@[i as int]@));
                assert(string_views(pre@) =~= string_views(self.pre@).take(i + 1));
            }
            i = i + 1;
        }
        proof {
            assert(string_views(self.pre@).take(self.pre@.len() as int) =~= string_views(self.pre@));
        }
        Version { major: self.major, minor: self.minor, patch: self.patch, pre }
    }
}

/// How two prerelease identifiers compare.
fn compare_identifiers(x: &String, y: &String) -> (r: Order)
    ensures
        r == compare_ident(x@, y@),
{
    let xc = chars_of(x.as_str());
    let yc = chars_of(y.as_str());
    match (parse_u64_chars(xc.as_slice()), parse_u64_chars(yc.as_slice())) {
        (Some(a), Some(b)) => compare_u64(a, b),
        (Some(_), None) => Order::Less,
        (None, Some(_)) => Order::Greater,
        (None, None) => compare_chars(xc.as_slice(), yc.as_slice()),
    }
}

fn compare_prerelease(a: &Vec<String>, b: &Vec<String>) -> (r: Order)
    ensures
        r == compare_pre(string_views(a@), string_views(b@)),
{
    let ghost av = string_views(a@);
    let ghost bv = string_views(b@);
    if a.len() == 0 && b.len() == 0 {
        return Order::Equal;
    } else if a.len() == 0 {
        return Order::Greater;
    } else if b.len() == 0 {
        return Order::Less;
    }
    let mut i: usize = 0;
    proof {
        assert(av.skip(0) =~= av);
        assert(bv.skip(0) =~= bv);
    }
    while i < a.len() && i < b.len()
        invariant
            i <= a@.len(),
            i <= b@.len(),
            av == string_views(a@),
            bv == string_views(b@),
            compare_idents(av, bv) == compare_idents(av.skip(i as int), bv.skip(i as int)),
        decreases a@.len() - i,
    {
        let o = compare_identifiers(&a[i], &b[i]);
        proof {
            assert(av.skip(i as int)[0] == a@[i as int]@);
            assert(bv.skip(i as int)[0] == b@[i as int]@);
            assert(av.skip(i as int).drop_first() =~= av.skip(i + 1));
            assert(bv.skip(i as int).drop_first() =~= bv.skip(i + 1));
        }
        if o != Order::Equal {
            return o;
        }
        i = i + 1;
    }
    compare_usize(a.len() - i, b.len() - i)
}

impl Version {
    pub fn new(major: u64, minor: u64, patch: u64) -> (r: Version)
        ensures
            r@ == (VersionView { major, minor, patch, pre: Seq::empty() }),
    {
        let r = Version { major, minor, patch, pre: Vec::new() };
        proof {
            assert(r@.pre =~= Seq::<Seq<char>>::empty());
        }
        r
    }

    /// The least version there is: 0.0.0 with the least prerelease tag, `0`.
    pub fn least() -> (r: Version)
        ensures
            r@ == least_version(),
    {
        let mut pre: Vec<String> = Vec::new();
        pre.push(string_of(chars_of("0").as_slice()));
        let r = Version { major: 0, minor: 0, patch: 0, pre };
        proof {
            reveal_strlit("0");
            assert(decimal(0) =~= seq!['0']);
            assert(r@.pre.len() == 1);
            assert(r@.pre[0] == r.pre@[0]@);
            assert(r.pre@[0]@ =~= decimal(0));
            assert(r@.pre =~= seq![decimal(0)]);
        }
        r
    }

    /// True for a normal release (no prerelease tag).
    pub fn is_stable(&self) -> (r: bool)
        ensures
            r == (self@.pre.len() == 0),
    {
        self.pre.len() == 0
    }

    /// The semver comparison of two versions.
    pub fn compare(&self, other: &Version) -> (r: Order)
        ensures
            r == version_compare(self@, other@),
    {
        let o = compare_u64(self.major, other.major);
        if o != Order::Equal {
            return o;
        }
        let o = compare_u64(self.minor, other.minor);
        if o != Order::Equal {
            return o;
        }
        let o = compare_u64(self.patch, other.patch);
        if o != Order::Equal {
            return o;
        }
        compare_prerelease(&self.pre, &other.pre)
    }

    /// Whether two versions are the same, field by field.
    pub fn same_as(&self, other: &Version) -> (r: bool)
        ensures
            r == (self@ == other@),
    {
        if self.major != other.major || self.minor != other.minor || self.patch != other.patch
            || self.pre.len() != other.pre.len() {
            proof {
                if self.pre.len() != other.pre.len() {
                    assert(self@.pre.len() != other@.pre.len());
                }
            }
            return false;
        }
        let mut i: usize = 0;
        while i < self.pre.len()
            invariant
                i <= self.pre@.len(),
                self.pre@.len() == other.pre@.len(),
                forall|j: int| 0 <= j < i ==> self.pre@[j]@ == other.pre@[j]@,
            decreases self.pre@.len() - i,
        {
            if self.pre[i] != other.pre[i] {
                proof {
                    assert(self@.pre[i as int] != other@.pre[i as int]);
                }
                return false;
            }
            i = i + 1;
        }
        proof {
            assert(self@.pre =~= other@.pre);
        }
        true
    }

    /// Reads a version such as `1.2.3` or `1.0.0-rc.1`. Surrounding whitespace and
    /// trailing dots on the numeric part are tolerated.
    pub fn parse(s: &str) -> (r: Result<Version>)
        ensures
            match r {
                Ok(v) => parse_version(s@) == Ok::<VersionView, Seq<char>>(v@),
                Err(e) => parse_version(s@) matches Err(m) && e@ == ErrorView::Version(m),
            },
    {
        let input = chars_of(s);
        let t = trim_chars(input.as_slice());
        let (core0, pre) = match split_once_char(t.as_slice(), '-') {
            Some((c, p)) => (c, Some(p)),
            None => (copy_range(t.as_slice(), 0, t.len()), None),
        };
        proof {
            assert(t@.subrange(0, t@.len() as int) =~= t@);
        }
        let core = trim_end_matching(core0.as_slice(), '.');
        let parts = split_char(core.as_slice(), '.');
        proof {
            lemma_split_nonempty(core@, '.');
            assert(views(parts@)[0] == parts@[0]@);
        }
        let major = match parse_u64_chars(parts[0].as_slice()) {
            Some(n) => n,
            None => {
                return Err(version_error(t.as_slice(), "' has a non-numeric ", "major"));
            },
        };
        if parts.len() < 2 {
            return Err(version_error(t.as_slice(), "' is missing the ", "minor"));
        }
        proof {
            assert(views(parts@)[1] == parts@[1]@);
        }
        let minor = match parse_u64_chars(parts[1].as_slice()) {
            Some(n) => n,
            None => {
                return Err(version_error(t.as_slice(), "' has a non-numeric ", "minor"));
            },
        };
        if parts.len() < 3 {
            return Err(version_error(t.as_slice(), "' is missing the ", "patch"));
        }
        proof {
            assert(views(parts@)[2] == parts@[2]@);
        }
        let patch = match parse_u64_chars(parts[2].as_slice()) {
            Some(n) => n,
            None => {
                return Err(version_error(t.as_slice(), "' has a non-numeric ", "patch"));
            },
        };
        if parts.len() > 3 {
            let mut m = String::new();
            push_str(&mut m, "version '");
            push_chars(&mut m, t.as_slice());
            push_str(&mut m, "' has too many parts");
            return Err(Error::Version(m));
        }
        match pre {
            None => Ok(Version::new(major, minor, patch)),
            Some(p) => {
                if p.len() == 0 {
                    let mut m = String::new();
                    push_str(&mut m, "version '");
                    push_chars(&mut m, t.as_slice());
                    push_str(&mut m, "' has an empty prerelease");
                    return Err(Error::Version(m));
                }
                let ids = split_char(p.as_slice(), '.');
                let pre = strings_of(&ids);
                Ok(Version { major, minor, patch, pre })
            },
        }
    }

    /// The version as `Display` writes it.
    pub fn to_string(&self) -> (r: String)
        ensures
            r@ == version_text(self@),
    {
        let mut out = String::new();
        push_decimal(&mut out, self.major);
        out.push('.');
        push_decimal(&mut out, self.minor);
        out.push('.');
        push_decimal(&mut out, self.patch);
        let ghost core = out@;
        proof {
            assert(core =~= decimal(self.major as nat) + seq!['.'] + decimal(self.minor as nat) + seq!['.'] + decimal(self.patch as nat));
        }
        if self.pre.len() > 0 {
            out.push('-');
            let ids = string_chars(&self.pre);
            let dot: Vec<char> = vec!['.'];
            proof {
                assert(dot@ =~= seq!['.']);
            }
            let joined = join_chars(&ids, dot.as_slice());
            push_chars(&mut out, joined.as_slice());
            proof {
                assert(out@ =~= version_text(self@));
            }
        }
        out
    }
}

/// A prerelease identifier that reads back from a version's text: no dot and
/// no whitespace.
pub open spec fn plain_ident(id: Seq<char>) -> bool {
    free_of(id, '.') && forall|i: int| 0 <= i < id.len() ==> !is_ws(#[trigger] id[i])
}

/// A version whose text reads back: its prerelease identifiers are plain, and
/// its prerelease is not one empty identifier.
pub open spec fn text_readable(v: VersionView) -> bool {
    &&& forall|k: int| 0 <= k < v.pre.len() ==> plain_ident(#[trigger] v.pre[k])
    &&& !(v.pre.len() == 1 && v.pre[0].len() == 0)
}

proof fn lemma_join_dots_last(pre: Seq<Seq<char>>)
    requires
        pre.len() >= 1,
        forall|k: int| 0 <= k < pre.len() ==> plain_ident(#[trigger] pre[k]),
        !(pre.len() == 1 && pre[0].len() == 0),
    ensures
        join(pre, seq!['.']).len() > 0,
        !is_ws(join(pre, seq!['.']).last()),
{
    let j = join(pre, seq!['.']);
    let last = pre[pre.len() - 1];
    assert(plain_ident(last));
    if pre.len() == 1 {
        assert(j == pre[0]);
        assert(!is_ws(last[last.len() - 1]));
    } else {
        let head = join(pre.drop_last(), seq!['.']);
        assert(j == head + seq!['.'] + pre.last());
        if last.len() > 0 {
            assert(j.last() == last[last.len() - 1]);
            assert(!is_ws(last[last.len() - 1]));
        } else {
            assert(j.last() == '.');
        }
    }
}

/// The `major.minor.patch` part of a version's text.
pub open spec fn core_text(v: VersionView) -> Seq<char> {
    decimal(v.major as nat) + seq!['.'] + decimal(v.minor as nat) + seq!['.'] + decimal(v.patch as nat)
}

pub proof fn lemma_core_text(v: VersionView)
    ensures
        core_text(v).len() > 0,
        !is_ws(core_text(v)[0]),
        !is_ws(core_text(v).last()),
        free_of(core_text(v), '-'),
        split(crate::text::trim_end_char(core_text(v), '.'), '.') == seq![
            decimal(v.major as nat),
            decimal(v.minor as nat),
            decimal(v.patch as nat),
        ],
        parse_u64(decimal(v.major as nat)) == Some(v.major),
        parse_u64(decimal(v.minor as nat)) == Some(v.minor),
        parse_u64(decimal(v.patch as nat)) == Some(v.patch),
{
    let d1 = decimal(v.major as nat);
    let d2 = decimal(v.minor as nat);
    let d3 = decimal(v.patch as nat);
    lemma_decimal_parses(v.major);
    lemma_decimal_parses(v.minor);
    lemma_decimal_parses(v.patch);
    let core = core_text(v);
    let ds = seq![d1, d2, d3];
    let sep = seq!['.'];
    assert(ds.drop_last() =~= seq![d1, d2]);
    assert(seq![d1, d2].drop_last() =~= seq![d1]);
    assert(join(seq![d1], sep) == d1);
    assert(join(seq![d1, d2], sep) == join(seq![d1], sep) + sep + d2);
    assert(join(ds, sep) == join(seq![d1, d2], sep) + sep + d3);
    assert(join(ds, sep) =~= core);
    lemma_split_join(ds, '.');
    assert forall|i: int| 0 <= i < core.len() implies #[trigger] core[i] != '-' by {
        if i < d1.len() {
            assert(core[i] == d1[i]);
        } else if i == d1.len() {
        } else if i < d1.len() + 1 + d2.len() {
            assert(core[i] == d2[i - d1.len() - 1]);
        } else if i == d1.len() + 1 + d2.len() {
        } else {
            assert(core[i] == d3[i - d1.len() - 2 - d2.len()]);
        }
    }
    assert(core[0] == d1[0]);
    assert(core.last() == d3.last());
    assert(crate::text::trim_end_char(core, '.') =~= core);
}

/// A release's text is three decimal numbers joined by dots.
pub proof fn lemma_release_text_chars(v: VersionView)
    requires
        v.pre.len() == 0,
    ensures
        version_text(v).len() >= 5,
        forall|i: int|
            0 <= i < version_text(v).len() ==> crate::text::is_digit(#[trigger] version_text(v)[i])
                || version_text(v)[i] == '.',
{
    let core = core_text(v);
    crate::text::lemma_decimal(v.major as nat);
    crate::text::lemma_decimal(v.minor as nat);
    crate::text::lemma_decimal(v.patch as nat);
    let d1 = decimal(v.major as nat);
    let d2 = decimal(v.minor as nat);
    let d3 = decimal(v.patch as nat);
    assert forall|i: int| 0 <= i < core.len() implies crate::text::is_digit(#[trigger] core[i]) || core[i]
        == '.' by {
        if i < d1.len() {
            assert(core[i] == d1[i]);
        } else if i == d1.len() {
        } else if i < d1.len() + 1 + d2.len() {
            assert(core[i] == d2[i - d1.len() - 1]);
        } else if i == d1.len() + 1 + d2.len() {
        } else {
            assert(core[i] == d3[i - d1.len() - 2 - d2.len()]);
        }
    }
}

/// A readable version's text is nonempty, begins with a digit and neither
/// begins nor ends with whitespace.
pub proof fn lemma_version_text_ends(v: VersionView)
    requires
        text_readable(v),
    ensures
        version_text(v).len() > 0,
        !is_ws(version_text(v)[0]),
        !is_ws(version_text(v).last()),
        forall|i: int| 0 <= i < version_text(v).len() ==> !is_ws(#[trigger] version_text(v)[i]),
{
    lemma_core_text(v);
    let core = core_text(v);
    lemma_decimal_parses(v.major);
    lemma_decimal_parses(v.minor);
    lemma_decimal_parses(v.patch);
    crate::text::lemma_decimal(v.major as nat);
    crate::text::lemma_decimal(v.minor as nat);
    crate::text::lemma_decimal(v.patch as nat);
    let d1 = decimal(v.major as nat);
    let d2 = decimal(v.minor as nat);
    let d3 = decimal(v.patch as nat);
    assert forall|i: int| 0 <= i < core.len() implies !is_ws(#[trigger] core[i]) by {
        if i < d1.len() {
            assert(core[i] == d1[i]);
            assert(crate::text::is_digit(d1[i]));
        } else if i == d1.len() {
        } else if i < d1.len() + 1 + d2.len() {
            assert(core[i] == d2[i - d1.len() - 1]);
            assert(crate::text::is_digit(d2[i - d1.len() - 1]));
        } else if i == d1.len() + 1 + d2.len() {
        } else {
            assert(core[i] == d3[i - d1.len() - 2 - d2.len()]);
            assert(crate::text::is_digit(d3[i - d1.len() - 2 - d2.len()]));
        }
    }
    if v.pre.len() > 0 {
        let p = join(v.pre, seq!['.']);
        lemma_join_dots_last(v.pre);
        lemma_join_no_ws(v.pre);
        let s = core + seq!['-'] + p;
        assert forall|i: int| 0 <= i < s.len() implies !is_ws(#[trigger] s[i]) by {
            if i < core.len() {
                assert(s[i] == core[i]);
            } else if i > core.len() {
                assert(s[i] == p[i - core.len() - 1]);
            }
        }
        assert(s[0] == core[0]);
    }
}

proof fn lemma_join_no_ws(pre: Seq<Seq<char>>)
    requires
        forall|k: int| 0 <= k < pre.len() ==> plain_ident(#[trigger] pre[k]),
    ensures
        forall|i: int| 0 <= i < join(pre, seq!['.']).len() ==> !is_ws(#[trigger] join(pre, seq!['.'])[i]),
    decreases pre.len(),
{
    if pre.len() == 1 {
        assert(plain_ident(pre[0]));
    } else if pre.len() > 1 {
        let init = pre.drop_last();
        assert forall|k: int| 0 <= k < init.len() implies plain_ident(#[trigger] init[k]) by {
            assert(init[k] == pre[k]);
        }
        lemma_join_no_ws(init);
        let h = join(init, seq!['.']);
        let last = pre.last();
        assert(plain_ident(pre[pre.len() - 1]));
        let j = join(pre, seq!['.']);
        assert(j == h + seq!['.'] + last);
        assert forall|i: int| 0 <= i < j.len() implies !is_ws(#[trigger] j[i]) by {
            if i < h.len() {
                assert(j[i] == h[i]);
            } else if i > h.len() {
                assert(j[i] == last[i - h.len() - 1]);
            }
        }
    }
}

/// What `to_string` writes, `parse` reads back, for every version whose
/// prerelease identifiers are plain.
pub proof fn law_version_text_parses(v: VersionView)
    requires
        text_readable(v),
    ensures
        parse_version(version_text(v)) == Ok::<VersionView, Seq<char>>(v),
{
    lemma_core_text(v);
    let core = core_text(v);
    let s = version_text(v);
    let cv = VersionView { major: v.major, minor: v.minor, patch: v.patch, pre: Seq::empty() };
    if v.pre.len() == 0 {
        assert(s == core);
        lemma_trim_same(core);
        lemma_split_once_none(core, '-');
        assert(cv.pre =~= v.pre);
        assert(cv == v);
    } else {
        let p = join(v.pre, seq!['.']);
        lemma_join_dots_last(v.pre);
        assert(s == core + seq!['-'] + p);
        assert(s[0] == core[0]);
        assert(s.last() == p.last());
        lemma_trim_same(s);
        lemma_split_once_at(core, p, '-');
        assert forall|k: int| 0 <= k < v.pre.len() implies free_of(#[trigger] v.pre[k], '.') by {
            assert(plain_ident(v.pre[k]));
        }
        lemma_split_join(v.pre, '.');
        assert(VersionView { pre: split(p, '.'), ..cv } == v);
    }
}

/// Two versions are equal when every field is: `1.0.0-01` and `1.0.0-1` sort
/// the same but are not equal.
impl PartialEq for Version {
    fn eq(&self, other: &Version) -> (r: bool) {
        self.same_as(other)
    }
}

impl vstd::std_specs::cmp::PartialEqSpecImpl for Version {
    open spec fn obeys_eq_spec() -> bool {
        true
    }

    open spec fn eq_spec(&self, other: &Version) -> bool {
        self@ == other@
    }
}

/// The semver order as a std `Ordering`.
pub open spec fn version_ordering(a: VersionView, b: VersionView) -> Ordering {
    match version_compare(a, b) {
        Order::Less => Ordering::Less,
        Order::Equal => Ordering::Equal,
        Order::Greater => Ordering::Greater,
    }
}

/// Versions are ordered by semver precedence.
impl PartialOrd for Version {
    fn partial_cmp(&self, other: &Version) -> (r: Option<Ordering>) {
        match self.compare(other) {
            Order::Less => Some(Ordering::Less),
            Order::Equal => Some(Ordering::Equal),
            Order::Greater => Some(Ordering::Greater),
        }
    }
}

impl vstd::std_specs::cmp::PartialOrdSpecImpl for Version {
    open spec fn obeys_partial_cmp_spec() -> bool {
        true
    }

    open spec fn partial_cmp_spec(&self, other: &Version) -> Option<Ordering> {
        Some(version_ordering(self@, other@))
    }
}

} // verus!
