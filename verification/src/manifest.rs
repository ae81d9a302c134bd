//! The project manifest: the file that names a project and lists its direct
//! dependencies, one `key value` pair per line:
//!
//! ```text
//! name    myapp
//! version 1.0.0
//! require foo ^1.0
//! require bar >=2.0, <3.0
//! ```
use vstd::prelude::*;
use crate::constraint::parse_constraint;
use crate::error::{Error, ErrorView, Result};
use crate::range::Range;
use crate::registry::{DepView, code_of, dep_views, line_error};
use crate::text::{chars_are, chars_of, push_chars, push_decimal, push_str, split_lines, split_once_ws,
    split_once_whitespace, string_of, trim, trim_chars, views, lines};
use crate::version::{Version, VersionView, parse_version};

verus! {

pub struct Manifest {
    pub name: String,
    pub version: Version,
    pub deps: Vec<(String, Range)>,
}

/// A manifest as plain values.
pub struct ManifestView {
    pub name: Seq<char>,
    pub version: VersionView,
    pub deps: Seq<DepView>,
}

impl View for Manifest {
    type V = ManifestView;

    open spec fn view(&self) -> ManifestView {
        ManifestView { name: self.name@, version: self.version@, deps: dep_views(self.deps@) }
    }
}

/// What the lines read so far hold: the name and version last given, and the
/// dependencies in order.
pub type ManifestState = (Option<Seq<char>>, Option<VersionView>, Seq<DepView>);

/// Reads line `n` of a manifest. Blank and comment-only lines change nothing;
/// otherwise the line is a key and a value: `name`, `version` (a later one
/// replaces an earlier one) or `require` (a name and a constraint).
pub open spec fn manifest_line(st: ManifestState, raw: Seq<char>, n: nat) -> std::result::Result<
    ManifestState,
    ErrorView,
> {
    let line = trim(code_of(raw));
    if line.len() == 0 {
        Ok(st)
    } else {
        match split_once_ws(line) {
            None => Err(line_error(n, "expected 'key value'"@)),
            Some((key, rest0)) => {
                let rest = trim(rest0);
                if key == "name"@ {
                    Ok((Some(rest), st.1, st.2))
                } else if key == "version"@ {
                    match parse_version(rest) {
                        Err(m) => Err(ErrorView::Version(m)),
                        Ok(v) => Ok((st.0, Some(v), st.2)),
                    }
                } else if key == "require"@ {
                    match split_once_ws(rest) {
                        None => Err(line_error(n, "'require' needs a name and a constraint"@)),
                        Some((dep, c)) => match parse_constraint(trim(c)) {
                            Err(m) => Err(ErrorView::Range(m)),
                            Ok(r) => Ok((st.0, st.1, st.2.push((trim(dep), r)))),
                        },
                    }
                } else {
                    Err(line_error(n, "unknown key '"@ + key + "'"@))
                }
            },
        }
    }
}

/// The first lines of a manifest read in turn.
pub open spec fn manifest_lines(ls: Seq<Seq<char>>) -> std::result::Result<ManifestState, ErrorView>
    decreases ls.len(),
{
    if ls.len() == 0 {
        Ok((None, None, Seq::empty()))
    } else {
        match manifest_lines(ls.drop_last()) {
            Err(e) => Err(e),
            Ok(st) => manifest_line(st, ls.last(), ls.len()),
        }
    }
}

/// The manifest a text describes, or the error of its first bad line, or the
/// error for a missing name or version.
pub open spec fn parse_manifest(text: Seq<char>) -> std::result::Result<ManifestView, ErrorView> {
    match manifest_lines(lines(text)) {
        Err(e) => Err(e),
        Ok((name, version, deps)) => match name {
            None => Err(ErrorView::Manifest("missing 'name'"@)),
            Some(nm) => match version {
                None => Err(ErrorView::Manifest("missing 'version'"@)),
                Some(v) => Ok(ManifestView { name: nm, version: v, deps }),
            },
        },
    }
}

/// A `#` starts a comment that runs to the end of the line: a line reads as
/// the text before its first `#`, and a line blank up to there changes nothing.
pub proof fn law_manifest_comment(st: ManifestState, code: Seq<char>, comment: Seq<char>, n: nat)
    requires
        crate::text::free_of(code, '#'),
    ensures
        manifest_line(st, code + seq!['#'] + comment, n) == manifest_line(st, code, n),
        trim(code).len() == 0 ==> manifest_line(st, code + seq!['#'] + comment, n) == Ok::<ManifestState, ErrorView>(
            st,
        ),
{
    crate::text::lemma_split_once_at(code, comment, '#');
    crate::text::lemma_split_once_none(code, '#');
}

/// A line `key value`, with a key and a value that start and end with
/// visible characters and hold no comment marker, reads as that key and value.
proof fn lemma_key_value(key: Seq<char>, val: Seq<char>)
    requires
        key.len() > 0,
        forall|i: int| 0 <= i < key.len() ==> !crate::text::is_ws(#[trigger] key[i]) && key[i] != '#',
        val.len() > 0,
        !crate::text::is_ws(val[0]),
        !crate::text::is_ws(val.last()),
        crate::text::free_of(val, '#'),
    ensures
        trim(code_of(key + seq![' '] + val)) == key + seq![' '] + val,
        split_once_ws(key + seq![' '] + val) == Some((key, val)),
        trim(val) == val,
{
    let line = key + seq![' '] + val;
    assert forall|i: int| 0 <= i < line.len() implies #[trigger] line[i] != '#' by {
        if i < key.len() {
            assert(line[i] == key[i]);
        } else if i > key.len() {
            assert(line[i] == val[i - key.len() - 1]);
        }
    }
    crate::text::lemma_split_once_none(line, '#');
    assert(line[0] == key[0]);
    assert(line.last() == val.last());
    crate::text::lemma_trim_same(line);
    assert forall|i: int| 0 <= i < key.len() implies !crate::text::is_ws(#[trigger] line[i]) by {
        assert(line[i] == key[i]);
    }
    assert(line[key.len() as int] == ' ');
    crate::text::lemma_first_ws_at(line, key.len() as int);
    assert(line.take(key.len() as int) =~= key);
    assert(line.skip(key.len() as int + 1) =~= val);
    crate::text::lemma_trim_same(val);
}

/// A `name` line sets the name.
pub proof fn lemma_name_line(st: ManifestState, name: Seq<char>, n: nat)
    requires
        name.len() > 0,
        forall|i: int| 0 <= i < name.len() ==> !crate::text::is_ws(#[trigger] name[i]) && name[i] != '#',
    ensures
        manifest_line(st, "name "@ + name, n) == Ok::<ManifestState, ErrorView>((Some(name), st.1, st.2)),
{
    reveal_strlit("name ");
    reveal_strlit("name");
    let key = "name"@;
    assert("name "@ + name =~= key + seq![' '] + name);
    assert(name[name.len() - 1] == name.last());
    lemma_key_value(key, name);
}

/// A `version` line sets the version its text reads as.
pub proof fn lemma_version_line(st: ManifestState, v: VersionView, n: nat)
    requires
        crate::version::text_readable(v),
        crate::text::free_of(crate::version::version_text(v), '#'),
    ensures
        manifest_line(st, "version "@ + crate::version::version_text(v), n) == Ok::<ManifestState, ErrorView>(
            (st.0, Some(v), st.2),
        ),
{
    reveal_strlit("version ");
    reveal_strlit("version");
    reveal_strlit("name");
    let key = "version"@;
    let vt = crate::version::version_text(v);
    crate::version::lemma_version_text_ends(v);
    crate::version::law_version_text_parses(v);
    assert("version "@ + vt =~= key + seq![' '] + vt);
    lemma_key_value(key, vt);
    assert(key != "name"@) by {
        assert(key[0] != "name"@[0]);
    }
}

/// A `require` line adds the dependency with the range its constraint reads as.
pub proof fn lemma_require_line(st: ManifestState, d: Seq<char>, c: Seq<char>, r: Seq<crate::range::Seg>, n: nat)
    requires
        d.len() > 0,
        forall|i: int| 0 <= i < d.len() ==> !crate::text::is_ws(#[trigger] d[i]) && d[i] != '#',
        c.len() > 0,
        !crate::text::is_ws(c[0]),
        !crate::text::is_ws(c.last()),
        crate::text::free_of(c, '#'),
        parse_constraint(c) == Ok::<Seq<crate::range::Seg>, Seq<char>>(r),
    ensures
        manifest_line(st, "require "@ + d + " "@ + c, n) == Ok::<ManifestState, ErrorView>(
            (st.0, st.1, st.2.push((d, r))),
        ),
{
    reveal_strlit("require ");
    reveal_strlit("require");
    reveal_strlit("version");
    reveal_strlit("name");
    reveal_strlit(" ");
    let key = "require"@;
    let val = d + seq![' '] + c;
    assert("require "@ + d + " "@ + c =~= key + seq![' '] + val);
    assert(val[0] == d[0]);
    assert(val.last() == c.last());
    assert forall|i: int| 0 <= i < val.len() implies #[trigger] val[i] != '#' by {
        if i < d.len() {
            assert(val[i] == d[i]);
        } else if i > d.len() {
            assert(val[i] == c[i - d.len() - 1]);
        }
    }
    lemma_key_value(key, val);
    lemma_key_value(d, c);
    assert(d[d.len() - 1] == d.last());
    crate::text::lemma_trim_same(d);
    assert(key != "name"@) by {
        assert(key[0] != "name"@[0]);
    }
    assert(key != "version"@) by {
        assert(key[0] != "version"@[0]);
    }
}

proof fn lemma_manifest_lines_err(ls: Seq<Seq<char>>, k: int)
    requires
        0 <= k <= ls.len(),
        manifest_lines(ls.take(k)) is Err,
    ensures
        manifest_lines(ls) == manifest_lines(ls.take(k)),
    decreases ls.len() - k,
{
    if k < ls.len() {
        assert(ls.take(k + 1).drop_last() =~= ls.take(k));
        lemma_manifest_lines_err(ls, k + 1);
    } else {
        assert(ls.take(k) =~= ls);
    }
}

/// The manifest error "line `n`: `msg`".
fn line_err(n: usize, msg: &str) -> (e: Error)
    ensures
        e@ == line_error(n as nat, msg@),
{
    let mut m = String::new();
    push_str(&mut m, "line ");
    push_decimal(&mut m, n as u64);
    push_str(&mut m, ": ");
    push_str(&mut m, msg);
    Error::Manifest(m)
}

/// The state of a manifest being read, as exec values.
pub open spec fn state_view(name: Option<String>, version: Option<Version>, deps: Seq<(String, Range)>) -> ManifestState {
    (
        match name {
            Some(n) => Some(n@),
            None => None,
        },
        match version {
            Some(v) => Some(v@),
            None => None,
        },
        dep_views(deps),
    )
}

/// Reads one line of a manifest into the state.
fn read_manifest_line(
    name: &mut Option<String>,
    version: &mut Option<Version>,
    deps: &mut Vec<(String, Range)>,
    raw: &[char],
    n: usize,
) -> (r: Result<()>)
    ensures
        match r {
            Ok(()) => manifest_line(state_view(*old(name), *old(version), old(deps)@), raw@, n as nat)
                == Ok::<ManifestState, ErrorView>(state_view(*final(name), *final(version), final(deps)@)),
            Err(e) => manifest_line(state_view(*old(name), *old(version), old(deps)@), raw@, n as nat)
                == Err::<ManifestState, ErrorView>(e@),
        },
{
    let code = match crate::text::split_once_char(raw, '#') {
        Some((c, _)) => c,
        None => crate::text::copy_range(raw, 0, raw.len()),
    };
    proof {
        assert(raw@.subrange(0, raw@.len() as int) =~= raw@);
    }
    let line = trim_chars(code.as_slice());
    if line.len() == 0 {
        return Ok(());
    }
    let (key, rest0) = match split_once_whitespace(line.as_slice()) {
        Some(p) => p,
        None => {
            return Err(line_err(n, "expected 'key value'"));
        },
    };
    let rest = trim_chars(rest0.as_slice());
    if chars_are(key.as_slice(), "name") {
        *name = Some(string_of(rest.as_slice()));
        Ok(())
    } else if chars_are(key.as_slice(), "version") {
        let text = string_of(rest.as_slice());
        match Version::parse(text.as_str()) {
            Ok(v) => {
                *version = Some(v);
                Ok(())
            },
            Err(e) => Err(e),
        }
    } else if chars_are(key.as_slice(), "require") {
        let (dep, c) = match split_once_whitespace(rest.as_slice()) {
            Some(p) => p,
            None => {
                return Err(line_err(n, "'require' needs a name and a constraint"));
            },
        };
        let ctext = string_of(trim_chars(c.as_slice()).as_slice());
        let r = match crate::constraint::parse(ctext.as_str()) {
            Ok(r) => r,
            Err(e) => {
                return Err(e);
            },
        };
        let dname = string_of(trim_chars(dep.as_slice()).as_slice());
        let ghost before = dep_views(deps@);
        deps.push((dname, r));
        proof {
            assert(dep_views(deps@) =~= before.push((trim(dep@), r@)));
        }
        Ok(())
    } else {
        let mut m = String::new();
        push_str(&mut m, "line ");
        push_decimal(&mut m, n as u64);
        push_str(&mut m, ": unknown key '");
        push_chars(&mut m, key.as_slice());
        push_str(&mut m, "'");
        proof {
            assert(m@ =~= "line "@ + crate::text::decimal(n as nat) + ": "@ + ("unknown key '"@ + key@ + "'"@)) by {
                reveal_strlit(": unknown key '");
                reveal_strlit(": ");
                reveal_strlit("unknown key '");
            }
        }
        Err(Error::Manifest(m))
    }
}

impl Manifest {
    /// Parses a manifest; the first bad line is the error, then a missing
    /// `name`, then a missing `version`.
    pub fn parse(text: &str) -> (r: Result<Manifest>)
        ensures
            match r {
                Ok(m) => parse_manifest(text@) == Ok::<ManifestView, ErrorView>(m@),
                Err(e) => parse_manifest(text@) == Err::<ManifestView, ErrorView>(e@),
            },
    {
        let cs = chars_of(text);
        let ls = split_lines(cs.as_slice());
        let ghost lv = views(ls@);
        let mut name: Option<String> = None;
        let mut version: Option<Version> = None;
        let mut deps: Vec<(String, Range)> = Vec::new();
        let mut i: usize = 0;
        proof {
            assert(lv.take(0) =~= Seq::<Seq<char>>::empty());
            assert(dep_views(deps@) =~= Seq::<DepView>::empty());
        }
        while i < ls.len()
            invariant
                i <= ls@.len(),
                lv == views(ls@),
                lv == lines(text@),
                manifest_lines(lv.take(i as int)) == Ok::<ManifestState, ErrorView>(
                    state_view(name, version, deps@),
                ),
            decreases ls@.len() - i,
        {
            proof {
                assert(lv[i as int] == ls@[i as int]@);
                assert(lv.take(i + 1).drop_last() =~= lv.take(i as int));
                assert(lv.take(i + 1).last() == lv[i as int]);
            }
            match read_manifest_line(&mut name, &mut version, &mut deps, ls[i].as_slice(), i + 1) {
                Ok(()) => {},
                Err(e) => {
                    proof {
                        lemma_manifest_lines_err(lv, i + 1);
                    }
                    return Err(e);
                },
            }
            i = i + 1;
        }
        proof {
            assert(lv.take(ls@.len() as int) =~= lv);
        }
        let name = match name {
            Some(n) => n,
            None => {
                return Err(Error::Manifest(string_of(chars_of("missing 'name'").as_slice())));
            },
        };
        let version = match version {
            Some(v) => v,
            None => {
                return Err(Error::Manifest(string_of(chars_of("missing 'version'").as_slice())));
            },
        };
        Ok(Manifest { name, version, deps })
    }
}

} // verus!
