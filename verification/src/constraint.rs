//! Constraint strings parsed into ranges. The grammar, loosely npm-flavoured:
//!
//! ```text
//! union        := intersection ( "||" intersection )*
//! intersection := comparator ( ("," | whitespace) comparator )*
//! comparator   := ("^" | "~" | ">=" | ">" | "<=" | "<" | "=")? partial-version | "*"
//! ```
use vstd::prelude::*;
use crate::error::{Error, ErrorView, Result};
use crate::range::{Range, Seg, CutView, before, segs_union, segs_intersect, cut_lt};
use crate::text::{
    chars_of, trim, trim_chars, split_bars, split_on_bars, replace_char, replace_chars, words,
    split_words, strip_prefix, strip_prefix_chars, split, split_char, lemma_split_nonempty,
    parse_u64, parse_u64_chars, views, push_str, push_chars, chars_are, copy_range,
};
use crate::version::{Version, VersionView, least_version, version_compare};
use crate::order::Order;

verus! {

/// A release version with no prerelease tag.
pub open spec fn plain(major: u64, minor: u64, patch: u64) -> VersionView {
    VersionView { major, minor, patch, pre: Seq::empty() }
}

/// The intervals of `>= low, < high`.
pub open spec fn between_segs(low: VersionView, high: VersionView) -> Seq<Seg> {
    if cut_lt(before(low), before(high)) {
        seq![(before(low), before(high))]
    } else {
        Seq::empty()
    }
}

/// A partial version: a major number with an optional minor and patch.
struct Partial {
    pub major: u64,
    pub minor: Option<u64>,
    pub patch: Option<u64>,
}

/// `'<s>'` followed by the rest of a constraint error message.
pub open spec fn quoted(s: Seq<char>, tail: Seq<char>) -> Seq<char> {
    "'"@ + s + tail
}

/// What a partial version text reads as, or the error message. Trailing dots
/// are a harmless typo and are dropped first.
pub open spec fn parse_partial_spec(s: Seq<char>) -> std::result::Result<(u64, Option<u64>, Option<u64>), Seq<char>> {
    let parts = split(crate::text::trim_end_char(s, '.'), '.');
    let minor = if parts.len() >= 2 { parse_u64(parts[1]) } else { Some(0u64) };
    let patch = if parts.len() >= 3 { parse_u64(parts[2]) } else { Some(0u64) };
    if parse_u64(parts[0]) is None {
        Err(quoted(s, "' has a non-numeric "@ + "major"@))
    } else if minor is None {
        Err(quoted(s, "' has a non-numeric "@ + "minor"@))
    } else if patch is None {
        Err(quoted(s, "' has a non-numeric "@ + "patch"@))
    } else if parts.len() > 3 {
        Err(quoted(s, "' has too many version parts"@))
    } else {
        Ok((
            parse_u64(parts[0])->0,
            if parts.len() >= 2 { Some(parse_u64(parts[1])->0) } else { None },
            if parts.len() >= 3 { Some(parse_u64(parts[2])->0) } else { None },
        ))
    }
}

/// The message for a bound that would not fit in a version number.
pub open spec fn overflow_message(s: Seq<char>) -> Seq<char> {
    quoted(s, "' is too large to bound"@)
}

/// The value of an optional part, zero when it is absent.
pub open spec fn or_zero(o: Option<u64>) -> u64 {
    match o {
        Some(n) => n,
        None => 0,
    }
}

/// `^p`: up to, but excluding, the next version that changes the leftmost nonzero part.
pub open spec fn caret_spec(s: Seq<char>, p: (u64, Option<u64>, Option<u64>)) -> std::result::Result<Seq<Seg>, Seq<char>> {
    let (major, minor, patch) = p;
    let low = plain(major, or_zero(minor), or_zero(patch));
    if major > 0 {
        if major == u64::MAX {
            Err(overflow_message(s))
        } else {
            Ok(between_segs(low, plain((major + 1) as u64, 0, 0)))
        }
    } else if or_zero(minor) > 0 {
        if or_zero(minor) == u64::MAX {
            Err(overflow_message(s))
        } else {
            Ok(between_segs(low, plain(0, (or_zero(minor) + 1) as u64, 0)))
        }
    } else if or_zero(patch) == u64::MAX {
        Err(overflow_message(s))
    } else {
        Ok(between_segs(low, plain(0, 0, (or_zero(patch) + 1) as u64)))
    }
}

/// `~p`: patch-level changes when a minor is given, minor-level otherwise.
pub open spec fn tilde_spec(s: Seq<char>, p: (u64, Option<u64>, Option<u64>)) -> std::result::Result<Seq<Seg>, Seq<char>> {
    let (major, minor, patch) = p;
    let low = plain(major, or_zero(minor), or_zero(patch));
    match minor {
        Some(m) => if m == u64::MAX {
            Err(overflow_message(s))
        } else {
            Ok(between_segs(low, plain(major, (m + 1) as u64, 0)))
        },
        None => if major == u64::MAX {
            Err(overflow_message(s))
        } else {
            Ok(between_segs(low, plain((major + 1) as u64, 0, 0)))
        },
    }
}

/// A bare partial version: exact when complete, otherwise every version it prefixes.
pub open spec fn x_range_spec(s: Seq<char>, p: (u64, Option<u64>, Option<u64>)) -> std::result::Result<Seq<Seg>, Seq<char>> {
    let (major, minor, patch) = p;
    match (minor, patch) {
        (Some(m), Some(pt)) => Ok(seq![(before(plain(major, m, pt)), crate::range::after(plain(major, m, pt)))]),
        (Some(m), None) => if m == u64::MAX {
            Err(overflow_message(s))
        } else {
            Ok(between_segs(plain(major, m, 0), plain(major, (m + 1) as u64, 0)))
        },
        (None, _) => if major == u64::MAX {
            Err(overflow_message(s))
        } else {
            Ok(between_segs(plain(major, 0, 0), plain((major + 1) as u64, 0, 0)))
        },
    }
}

/// A partial version with missing parts read as zero.
pub open spec fn loose(p: (u64, Option<u64>, Option<u64>)) -> VersionView {
    plain(p.0, or_zero(p.1), or_zero(p.2))
}

/// What `*` reads as: every version from the least up. It holds every version
/// there is, yet is not the whole line, so depending on it still requires the
/// package.
pub open spec fn star_segs() -> Seq<Seg> {
    seq![(before(least_version()), CutView::PosInf)]
}

/// `*` holds every version, and is not the whole line.
pub proof fn law_star_holds_every_version(v: VersionView)
    ensures
        parse_comparator_spec("*"@) == Ok::<Seq<Seg>, Seq<char>>(star_segs()),
        crate::range::segs_contain(star_segs(), v),
        star_segs() != seq![(CutView::NegInf, CutView::PosInf)],
{
    crate::version::law_least_version(v);
    reveal(crate::range::cut_compare);
    assert(crate::range::in_seg(star_segs()[0], v));
}

/// A partial version that reads starts with a digit or a plus sign, so it
/// cannot extend an operator into a longer one.
proof fn lemma_partial_head(s: Seq<char>)
    requires
        parse_partial_spec(s) is Ok,
    ensures
        s.len() > 0,
        crate::text::is_digit(s[0]) || s[0] == '+',
{
    let t = crate::text::trim_end_char(s, '.');
    crate::text::lemma_split_first(t, '.');
    let part = split(t, '.')[0];
    assert(parse_u64(part) is Some);
    assert(part.len() > 0);
    assert(part[0] == t[0]);
    crate::text::lemma_trail_char_bound(s, '.');
    assert(t[0] == s[0]);
    if !(part.len() > 1 && part[0] == '+') {
        assert(crate::text::unsigned_body(part) == part);
        assert(crate::text::is_digit(part[0]));
    }
}

/// The interval of a comparison holds exactly the versions that the comparison
/// admits: `v` lies in `seq![g]` when `in_seg(g, v)`, and otherwise nowhere.
proof fn lemma_one_seg(g: Seg, v: VersionView)
    ensures
        crate::range::segs_contain(seq![g], v) == crate::range::in_seg(g, v),
{
    if crate::range::in_seg(g, v) {
        assert(crate::range::in_seg(seq![g][0], v));
    }
}

/// The text of a release reads back, as a partial version, as all three of its parts.
pub proof fn lemma_release_text_partial(v: VersionView)
    requires
        v.pre.len() == 0,
    ensures
        parse_partial_spec(crate::version::version_text(v)) == Ok::<(u64, Option<u64>, Option<u64>), Seq<char>>(
            (v.major, Some(v.minor), Some(v.patch)),
        ),
        loose((v.major, Some(v.minor), Some(v.patch))) == v,
{
    crate::version::lemma_core_text(v);
    assert(loose((v.major, Some(v.minor), Some(v.patch))).pre =~= v.pre);
}

/// A comparator written with `^`, with `~`, or as a bare partial version reads
/// by its own rule, whatever the other operators are.
pub proof fn lemma_shorthand_comparators(s: Seq<char>, p: (u64, Option<u64>, Option<u64>))
    requires
        parse_partial_spec(s) == Ok::<(u64, Option<u64>, Option<u64>), Seq<char>>(p),
    ensures
        parse_comparator_spec("^"@ + s) == caret_spec(s, p),
        parse_comparator_spec("~"@ + s) == tilde_spec(s, p),
        parse_comparator_spec(s) == x_range_spec(s, p),
{
    lemma_partial_head(s);
    reveal_strlit("*");
    reveal_strlit("x");
    reveal_strlit("X");
    reveal_strlit(">=");
    reveal_strlit("<=");
    reveal_strlit(">");
    reveal_strlit("<");
    reveal_strlit("=");
    reveal_strlit("^");
    reveal_strlit("~");
    let ca = "^"@ + s;
    let ti = "~"@ + s;
    assert(ca.take(1) =~= "^"@);
    assert(ca.skip(1) =~= s);
    assert(ti.take(1) =~= "~"@);
    assert(ti.skip(1) =~= s);
    assert(ca.len() >= 2 && ti.len() >= 2);
    assert(ca.take(2)[0] == '^' && ca.take(1)[0] == '^');
    assert(ti.take(2)[0] == '~' && ti.take(1)[0] == '~');
    assert(ca.take(2) != ">="@ && ca.take(2) != "<="@ && ca.take(1) != ">"@ && ca.take(1) != "<"@ && ca.take(1)
        != "="@) by {
        assert(">="@[0] == '>' && "<="@[0] == '<' && ">"@[0] == '>' && "<"@[0] == '<' && "="@[0] == '=');
    }
    assert(ti.take(2) != ">="@ && ti.take(2) != "<="@ && ti.take(1) != ">"@ && ti.take(1) != "<"@ && ti.take(1)
        != "="@ && ti.take(1) != "^"@) by {
        assert(">="@[0] == '>' && "<="@[0] == '<' && ">"@[0] == '>' && "<"@[0] == '<' && "="@[0] == '=' && "^"@[0]
            == '^');
    }
    assert(s != "*"@ && s != "x"@ && s != "X"@) by {
        assert("*"@[0] == '*' && "x"@[0] == 'x' && "X"@[0] == 'X');
    }
    if s.len() >= 2 {
        assert(s.take(2)[0] == s[0]);
        assert(s.take(2) != ">="@ && s.take(2) != "<="@) by {
            assert(">="@[0] == '>' && "<="@[0] == '<');
        }
    }
    assert(s.take(1)[0] == s[0]);
    assert(s.take(1) != ">"@ && s.take(1) != "<"@ && s.take(1) != "="@ && s.take(1) != "^"@ && s.take(1) != "~"@)
        by {
        assert(">"@[0] == '>' && "<"@[0] == '<' && "="@[0] == '=' && "^"@[0] == '^' && "~"@[0] == '~');
    }
}

/// Whether comparator `c` reads as a range that holds `v` exactly when `b`.
pub open spec fn holds_exactly_when(c: Seq<char>, v: VersionView, b: bool) -> bool {
    parse_comparator_spec(c) matches Ok(g) && crate::range::segs_contain(g, v) == b
}

/// The intervals of `>= low, < high` hold exactly the versions from `low` up
/// to, not including, `high`.
proof fn lemma_between_contains(low: VersionView, high: VersionView, v: VersionView)
    requires
        version_compare(low, high) == Order::Less,
    ensures
        crate::range::segs_wf(between_segs(low, high)),
        crate::range::segs_contain(between_segs(low, high), v) <==> (version_compare(v, low) != Order::Less
            && version_compare(v, high) == Order::Less),
{
    reveal(crate::range::cut_compare);
    crate::version::version_order_laws(v, low, v);
    crate::version::version_order_laws(v, high, v);
    crate::version::version_order_laws(low, high, low);
    lemma_one_seg((before(low), before(high)), v);
}

/// The shorthands mean what the constraint table says, for a partial version
/// `s` read as `p` with `L` its version (missing parts zero). `^s` holds the
/// versions from `L` up to, not including, the next release that raises the
/// leftmost nonzero part (`^1.2.3` is `>=1.2.3, <2.0.0`, `^0.2.3` is
/// `>=0.2.3, <0.3.0`); `~s` those from `L` up to the next minor release when a
/// minor is given, else the next major (`~1.2.3` is `>=1.2.3, <1.3.0`); a bare
/// complete version holds just `L`, and a bare partial one every version it
/// prefixes. Where the next release would not fit a part, the text is refused.
pub proof fn law_shorthands(s: Seq<char>, p: (u64, Option<u64>, Option<u64>), v: VersionView)
    requires
        parse_partial_spec(s) == Ok::<(u64, Option<u64>, Option<u64>), Seq<char>>(p),
    ensures
        p.0 > 0 && p.0 < u64::MAX ==> holds_exactly_when(
            "^"@ + s,
            v,
            version_compare(v, loose(p)) != Order::Less && version_compare(v, plain((p.0 + 1) as u64, 0, 0))
                == Order::Less,
        ),
        p.0 == 0 && 0 < or_zero(p.1) < u64::MAX ==> holds_exactly_when(
            "^"@ + s,
            v,
            version_compare(v, loose(p)) != Order::Less && version_compare(
                v,
                plain(0, (or_zero(p.1) + 1) as u64, 0),
            ) == Order::Less,
        ),
        p.0 == 0 && or_zero(p.1) == 0 && or_zero(p.2) < u64::MAX ==> holds_exactly_when(
            "^"@ + s,
            v,
            version_compare(v, loose(p)) != Order::Less && version_compare(
                v,
                plain(0, 0, (or_zero(p.2) + 1) as u64),
            ) == Order::Less,
        ),
        p.1 is Some && or_zero(p.1) < u64::MAX ==> holds_exactly_when(
            "~"@ + s,
            v,
            version_compare(v, loose(p)) != Order::Less && version_compare(
                v,
                plain(p.0, (or_zero(p.1) + 1) as u64, 0),
            ) == Order::Less,
        ),
        p.1 is None && p.0 < u64::MAX ==> holds_exactly_when(
            "~"@ + s,
            v,
            version_compare(v, loose(p)) != Order::Less && version_compare(v, plain((p.0 + 1) as u64, 0, 0))
                == Order::Less,
        ),
        p.1 is Some && p.2 is Some ==> holds_exactly_when(s, v, version_compare(v, loose(p)) == Order::Equal),
        p.1 is Some && p.2 is None && or_zero(p.1) < u64::MAX ==> holds_exactly_when(
            s,
            v,
            version_compare(v, loose(p)) != Order::Less && version_compare(
                v,
                plain(p.0, (or_zero(p.1) + 1) as u64, 0),
            ) == Order::Less,
        ),
        p.1 is None && p.0 < u64::MAX ==> holds_exactly_when(
            s,
            v,
            version_compare(v, loose(p)) != Order::Less && version_compare(v, plain((p.0 + 1) as u64, 0, 0))
                == Order::Less,
        ),
        p.0 == u64::MAX && p.1 is None ==> parse_comparator_spec("~"@ + s) is Err && parse_comparator_spec(s) is Err,
        p.0 == u64::MAX ==> parse_comparator_spec("^"@ + s) is Err,
{
    lemma_shorthand_comparators(s, p);
    lemma_partial_shape(s, p);
    let l = loose(p);
    let (major, minor, patch) = p;
    if major > 0 && major < u64::MAX {
        lemma_between_contains(l, plain((major + 1) as u64, 0, 0), v);
    }
    if major == 0 && 0 < or_zero(minor) < u64::MAX {
        lemma_between_contains(l, plain(0, (or_zero(minor) + 1) as u64, 0), v);
    }
    if major == 0 && or_zero(minor) == 0 && or_zero(patch) < u64::MAX {
        lemma_between_contains(l, plain(0, 0, (or_zero(patch) + 1) as u64), v);
    }
    if minor is Some && or_zero(minor) < u64::MAX {
        lemma_between_contains(l, plain(major, (or_zero(minor) + 1) as u64, 0), v);
    }
    if minor is None && major < u64::MAX {
        lemma_between_contains(l, plain((major + 1) as u64, 0, 0), v);
    }
    if minor is Some && patch is Some {
        lemma_one_seg((before(l), crate::range::after(l)), v);
        reveal(crate::range::cut_compare);
        crate::version::version_order_laws(v, l, v);
    }
    if minor is Some && patch is None && or_zero(minor) < u64::MAX {
        assert(plain(major, or_zero(minor), 0) == l);
        lemma_between_contains(l, plain(major, (or_zero(minor) + 1) as u64, 0), v);
    }
    if minor is None && major < u64::MAX {
        assert(plain(major, 0, 0) == l);
    }
}

/// A partial version gives a patch only with a minor.
proof fn lemma_partial_shape(s: Seq<char>, p: (u64, Option<u64>, Option<u64>))
    requires
        parse_partial_spec(s) == Ok::<(u64, Option<u64>, Option<u64>), Seq<char>>(p),
    ensures
        p.2 is Some ==> p.1 is Some,
{
}

/// The relational comparators mean what they say. For any partial version `s`
/// that reads as `p`, with `L` the version `p` names (missing parts zero):
/// `>=s` holds exactly the versions at or above `L`, `>s` those above it,
/// `<=s` those at or below it (so `L` itself), `<s` those below it, and `=s`
/// those that sort equal to it. Each reads as a well-formed range.
pub proof fn law_comparators(s: Seq<char>, p: (u64, Option<u64>, Option<u64>), v: VersionView)
    requires
        parse_partial_spec(s) == Ok::<(u64, Option<u64>, Option<u64>), Seq<char>>(p),
    ensures
        parse_comparator_spec(">="@ + s) matches Ok(g) && crate::range::segs_wf(g) && (
            crate::range::segs_contain(g, v)
            <==> version_compare(v, loose(p)) != Order::Less),
        parse_comparator_spec(">"@ + s) matches Ok(g) && crate::range::segs_wf(g) && (
            crate::range::segs_contain(g, v)
            <==> version_compare(v, loose(p)) == Order::Greater),
        parse_comparator_spec("<="@ + s) matches Ok(g) && crate::range::segs_wf(g) && (
            crate::range::segs_contain(g, v)
            <==> version_compare(v, loose(p)) != Order::Greater),
        parse_comparator_spec("<"@ + s) matches Ok(g) && crate::range::segs_wf(g) && (
            crate::range::segs_contain(g, v)
            <==> version_compare(v, loose(p)) == Order::Less),
        parse_comparator_spec("="@ + s) matches Ok(g) && crate::range::segs_wf(g) && (
            crate::range::segs_contain(g, v)
            <==> version_compare(v, loose(p)) == Order::Equal),
        parse_comparator_spec("<="@ + s) matches Ok(g) && crate::range::segs_contain(g, loose(p)),
{
    lemma_partial_head(s);
    reveal_strlit("*");
    reveal_strlit("x");
    reveal_strlit("X");
    reveal_strlit(">=");
    reveal_strlit("<=");
    reveal_strlit(">");
    reveal_strlit("<");
    reveal_strlit("=");
    reveal(crate::range::cut_compare);
    let l = loose(p);
    crate::version::version_order_laws(v, l, v);
    crate::version::version_order_laws(l, l, l);
    let ge = ">="@ + s;
    let gt = ">"@ + s;
    let le = "<="@ + s;
    let lt = "<"@ + s;
    let eq = "="@ + s;
    assert(ge.take(2) =~= ">="@);
    assert(ge.skip(2) =~= s);
    assert(le.take(2) =~= "<="@);
    assert(le.skip(2) =~= s);
    assert(le.take(2) != ">="@) by {
        assert(le.take(2)[0] != ">="@[0]);
    }
    assert(gt.take(1) =~= ">"@);
    assert(gt.skip(1) =~= s);
    assert(gt.take(2) != ">="@ && gt.take(2) != "<="@) by {
        assert(gt.take(2)[1] == s[0]);
        assert(gt.take(2)[0] != "<="@[0]);
    }
    assert(lt.take(1) =~= "<"@);
    assert(lt.skip(1) =~= s);
    assert(lt.take(2) != ">="@ && lt.take(2) != "<="@ && lt.take(1) != ">"@) by {
        assert(lt.take(2)[1] == s[0]);
        assert(lt.take(2)[0] != ">="@[0]);
        assert(lt.take(1)[0] != ">"@[0]);
    }
    assert(eq.take(1) =~= "="@);
    assert(eq.skip(1) =~= s);
    assert(eq.take(2) != ">="@ && eq.take(2) != "<="@ && eq.take(1) != ">"@ && eq.take(1) != "<"@) by {
        assert(eq.take(2)[0] != ">="@[0]);
        assert(eq.take(2)[0] != "<="@[0]);
        assert(eq.take(1)[0] != ">"@[0]);
        assert(eq.take(1)[0] != "<"@[0]);
    }
    assert(ge.len() >= 2 && le.len() >= 2 && gt.len() >= 2 && lt.len() >= 2 && eq.len() >= 2);
    lemma_one_seg((before(l), CutView::PosInf), v);
    lemma_one_seg((crate::range::after(l), CutView::PosInf), v);
    lemma_one_seg((CutView::NegInf, crate::range::after(l)), v);
    lemma_one_seg((CutView::NegInf, before(l)), v);
    lemma_one_seg((before(l), crate::range::after(l)), v);
    lemma_one_seg((CutView::NegInf, crate::range::after(l)), l);
}

/// What one comparator reads as.
pub open spec fn parse_comparator_spec(c: Seq<char>) -> std::result::Result<Seq<Seg>, Seq<char>> {
    if c == "*"@ || c == "x"@ || c == "X"@ {
        Ok(star_segs())
    } else if let Some(rest) = strip_prefix(c, ">="@) {
        match parse_partial_spec(rest) {
            Ok(p) => Ok(seq![(before(loose(p)), CutView::PosInf)]),
            Err(m) => Err(m),
        }
    } else if let Some(rest) = strip_prefix(c, "<="@) {
        match parse_partial_spec(rest) {
            Ok(p) => Ok(seq![(CutView::NegInf, crate::range::after(loose(p)))]),
            Err(m) => Err(m),
        }
    } else if let Some(rest) = strip_prefix(c, ">"@) {
        match parse_partial_spec(rest) {
            Ok(p) => Ok(seq![(crate::range::after(loose(p)), CutView::PosInf)]),
            Err(m) => Err(m),
        }
    } else if let Some(rest) = strip_prefix(c, "<"@) {
        match parse_partial_spec(rest) {
            Ok(p) => Ok(seq![(CutView::NegInf, before(loose(p)))]),
            Err(m) => Err(m),
        }
    } else if let Some(rest) = strip_prefix(c, "="@) {
        match parse_partial_spec(rest) {
            Ok(p) => Ok(seq![(before(loose(p)), crate::range::after(loose(p)))]),
            Err(m) => Err(m),
        }
    } else if let Some(rest) = strip_prefix(c, "^"@) {
        match parse_partial_spec(rest) {
            Ok(p) => caret_spec(rest, p),
            Err(m) => Err(m),
        }
    } else if let Some(rest) = strip_prefix(c, "~"@) {
        match parse_partial_spec(rest) {
            Ok(p) => tilde_spec(rest, p),
            Err(m) => Err(m),
        }
    } else {
        match parse_partial_spec(c) {
            Ok(p) => x_range_spec(c, p),
            Err(m) => Err(m),
        }
    }
}

/// Whether a token is a comparison operator written apart from its version.
pub open spec fn is_operator(t: Seq<char>) -> bool {
    t == ">="@ || t == ">"@ || t == "<="@ || t == "<"@ || t == "="@
}

/// The comparators of a token list, each lone operator glued to the token after it.
pub open spec fn glue(toks: Seq<Seq<char>>) -> std::result::Result<Seq<Seq<char>>, Seq<char>>
    decreases toks.len(),
{
    if toks.len() == 0 {
        Ok(Seq::empty())
    } else if is_operator(toks[0]) {
        if toks.len() < 2 {
            Err("operator '"@ + toks[0] + "' with no version"@)
        } else {
            match glue(toks.skip(2)) {
                Ok(rest) => Ok(seq![toks[0] + toks[1]] + rest),
                Err(m) => Err(m),
            }
        }
    } else {
        match glue(toks.skip(1)) {
            Ok(rest) => Ok(seq![toks[0]] + rest),
            Err(m) => Err(m),
        }
    }
}

/// The intersection of the comparators' ranges, from the left; the first failing
/// comparator's message otherwise.
pub open spec fn intersect_all(cs: Seq<Seq<char>>) -> std::result::Result<Seq<Seg>, Seq<char>>
    decreases cs.len(),
{
    if cs.len() == 0 {
        Ok(seq![(CutView::NegInf, CutView::PosInf)])
    } else {
        match intersect_all(cs.drop_last()) {
            Err(m) => Err(m),
            Ok(acc) => match parse_comparator_spec(cs.last()) {
                Err(m) => Err(m),
                Ok(r) => Ok(segs_intersect(acc, r)),
            },
        }
    }
}

/// What one `||`-alternative reads as.
pub open spec fn parse_intersection_spec(s: Seq<char>) -> std::result::Result<Seq<Seg>, Seq<char>> {
    let toks = words(replace_char(s, ',', ' '));
    if toks.len() == 0 {
        Err("empty constraint segment in '"@ + s + "'"@)
    } else {
        match glue(toks) {
            Err(m) => Err(m),
            Ok(cs) => intersect_all(cs),
        }
    }
}

/// The union of the alternatives' ranges, from the left; the first failing
/// alternative's message otherwise.
pub open spec fn union_all(alts: Seq<Seq<char>>) -> std::result::Result<Seq<Seg>, Seq<char>>
    decreases alts.len(),
{
    if alts.len() == 0 {
        Ok(Seq::empty())
    } else if alts.len() == 1 {
        parse_intersection_spec(trim(alts[0]))
    } else {
        match union_all(alts.drop_last()) {
            Err(m) => Err(m),
            Ok(acc) => match parse_intersection_spec(trim(alts.last())) {
                Err(m) => Err(m),
                Ok(r) => Ok(segs_union(acc, r)),
            },
        }
    }
}

/// What a constraint string reads as: its range, or the error message.
pub open spec fn parse_constraint(input: Seq<char>) -> std::result::Result<Seq<Seg>, Seq<char>> {
    let s = trim(input);
    if s.len() == 0 {
        Err("empty constraint"@)
    } else {
        union_all(split_bars(s))
    }
}


/// A comparator written as one token: nonempty, no operator by itself, and
/// free of whitespace, commas and bars.
pub open spec fn plain_token(t: Seq<char>) -> bool {
    &&& t.len() > 0
    &&& !is_operator(t)
    &&& forall|i: int| 0 <= i < t.len() ==> !crate::text::is_ws(#[trigger] t[i]) && t[i] != ',' && t[i] != '|'
}

/// A text with no bar is a single alternative.
pub proof fn lemma_no_bars(s: Seq<char>)
    requires
        forall|i: int| 0 <= i < s.len() ==> #[trigger] s[i] != '|',
    ensures
        split_bars(s) == seq![s],
{
    assert forall|i: int| 0 <= i < s.len() implies !crate::text::bars_at(s, i) by {
        assert(s[i] != '|');
    }
    crate::text::lemma_first_bars_at(s, s.len() as int);
}

/// A single plain comparator reads as its own range.
pub proof fn lemma_token_reads(t: Seq<char>)
    requires
        plain_token(t),
    ensures
        parse_constraint(t) == intersect_all(seq![t]),
{
    crate::text::lemma_trim_same(t);
    lemma_no_bars(t);
    let r = replace_char(t, ',', ' ');
    assert(r =~= t);
    crate::text::lemma_words_word(t);
    assert(seq![t].skip(1) =~= Seq::<Seq<char>>::empty());
    assert(glue(Seq::<Seq<char>>::empty()) == Ok::<Seq<Seq<char>>, Seq<char>>(Seq::<Seq<char>>::empty()));
    assert(seq![t][0] == t);
    assert(!is_operator(seq![t][0]));
    assert(glue(seq![t]) == Ok::<Seq<Seq<char>>, Seq<char>>(seq![t] + Seq::<Seq<char>>::empty()));
    assert(seq![t] + Seq::<Seq<char>>::empty() =~= seq![t]);
}

/// Two plain comparators separated by a comma and a space read as their
/// intersection.
pub proof fn lemma_pair_reads(a: Seq<char>, b: Seq<char>)
    requires
        plain_token(a),
        plain_token(b),
    ensures
        parse_constraint(a + ", "@ + b) == intersect_all(seq![a, b]),
{
    reveal_strlit(", ");
    let s = a + ", "@ + b;
    assert(s =~= a + seq![','] + seq![' '] + b);
    assert(s[0] == a[0]);
    assert(s.last() == b.last());
    crate::text::lemma_trim_same(s);
    assert forall|i: int| 0 <= i < s.len() implies #[trigger] s[i] != '|' by {
        if i < a.len() {
            assert(s[i] == a[i]);
        } else if i >= a.len() + 2 {
            assert(s[i] == b[i - a.len() - 2]);
        }
    }
    lemma_no_bars(s);
    let r = replace_char(s, ',', ' ');
    assert(r =~= a + seq![' '] + (Seq::<char>::empty() + seq![' '] + b)) by {
        assert forall|i: int| 0 <= i < a.len() implies r[i] == a[i] by {
            assert(s[i] == a[i]);
        }
        assert forall|i: int| 0 <= i < b.len() implies r[i + a.len() + 2] == b[i] by {
            assert(s[i + a.len() + 2] == b[i]);
        }
    }
    crate::text::lemma_words_word(a);
    crate::text::lemma_words_word(b);
    crate::text::lemma_words_concat(Seq::<char>::empty(), b, ' ');
    crate::text::lemma_words_concat(a, Seq::<char>::empty() + seq![' '] + b, ' ');
    assert(words(Seq::<char>::empty()) =~= Seq::<Seq<char>>::empty());
    let toks = seq![a, b];
    assert(words(r) =~= toks);
    assert(toks.skip(1) =~= seq![b]);
    assert(seq![b].skip(1) =~= Seq::<Seq<char>>::empty());
    assert(glue(Seq::<Seq<char>>::empty()) == Ok::<Seq<Seq<char>>, Seq<char>>(Seq::<Seq<char>>::empty()));
    assert(seq![b][0] == b);
    assert(!is_operator(seq![b][0]));
    assert(glue(seq![b]) == Ok::<Seq<Seq<char>>, Seq<char>>(seq![b] + Seq::<Seq<char>>::empty()));
    assert(seq![b] + Seq::<Seq<char>>::empty() =~= seq![b]);
    assert(seq![a] + seq![b] =~= toks);
}

fn quoted_error(s: &[char], tail: &str) -> (e: Error)
    ensures
        e@ == ErrorView::Range(quoted(s@, tail@)),
{
    let mut m = String::new();
    push_str(&mut m, "'");
    push_chars(&mut m, s);
    push_str(&mut m, tail);
    Error::Range(m)
}

fn non_numeric(s: &[char], what: &str) -> (e: Error)
    ensures
        e@ == ErrorView::Range(quoted(s@, "' has a non-numeric "@ + what@)),
{
    let mut m = String::new();
    push_str(&mut m, "'");
    push_chars(&mut m, s);
    push_str(&mut m, "' has a non-numeric ");
    push_str(&mut m, what);
    proof {
        assert(m@ =~= quoted(s@, "' has a non-numeric "@ + what@));
    }
    Error::Range(m)
}

fn parse_partial(s: &[char]) -> (r: Result<Partial>)
    ensures
        match r {
            Ok(p) => parse_partial_spec(s@) == Ok::<(u64, Option<u64>, Option<u64>), Seq<char>>(
                (p.major, p.minor, p.patch),
            ),
            Err(e) => parse_partial_spec(s@) matches Err(m) && e@ == ErrorView::Range(m),
        },
{
    let core = crate::text::trim_end_matching(s, '.');
    let parts = split_char(core.as_slice(), '.');
    proof {
        lemma_split_nonempty(core@, '.');
        assert(views(parts@)[0] == parts@[0]@);
        if parts@.len() >= 2 {
            assert(views(parts@)[1] == parts@[1]@);
        }
        if parts@.len() >= 3 {
            assert(views(parts@)[2] == parts@[2]@);
        }
    }
    let major = match parse_u64_chars(parts[0].as_slice()) {
        Some(n) => n,
        None => {
            return Err(non_numeric(s, "major"));
        },
    };
    let minor = if parts.len() >= 2 {
        match parse_u64_chars(parts[1].as_slice()) {
            Some(n) => Some(n),
            None => {
                return Err(non_numeric(s, "minor"));
            },
        }
    } else {
        None
    };
    let patch = if parts.len() >= 3 {
        match parse_u64_chars(parts[2].as_slice()) {
            Some(n) => Some(n),
            None => {
                return Err(non_numeric(s, "patch"));
            },
        }
    } else {
        None
    };
    if parts.len() > 3 {
        return Err(quoted_error(s, "' has too many version parts"));
    }
    Ok(Partial { major, minor, patch })
}

fn zero_if_none(o: Option<u64>) -> (r: u64)
    ensures
        r == or_zero(o),
{
    match o {
        Some(n) => n,
        None => 0,
    }
}

fn between_plain(low: (u64, u64, u64), high: (u64, u64, u64)) -> (r: Range)
    ensures
        r@ == between_segs(plain(low.0, low.1, low.2), plain(high.0, high.1, high.2)),
{
    Range::between(Version::new(low.0, low.1, low.2), Version::new(high.0, high.1, high.2))
}

fn caret(s: &[char], p: &Partial) -> (r: Result<Range>)
    ensures
        match r {
            Ok(rg) => caret_spec(s@, (p.major, p.minor, p.patch)) == Ok::<Seq<Seg>, Seq<char>>(rg@),
            Err(e) => caret_spec(s@, (p.major, p.minor, p.patch)) matches Err(m) && e@
                == ErrorView::Range(m),
        },
{
    let low = (p.major, zero_if_none(p.minor), zero_if_none(p.patch));
    if p.major > 0 {
        if p.major == u64::MAX {
            return Err(quoted_error(s, "' is too large to bound"));
        }
        Ok(between_plain(low, (p.major + 1, 0, 0)))
    } else if zero_if_none(p.minor) > 0 {
        let m = zero_if_none(p.minor);
        if m == u64::MAX {
            return Err(quoted_error(s, "' is too large to bound"));
        }
        Ok(between_plain(low, (0, m + 1, 0)))
    } else {
        let pt = zero_if_none(p.patch);
        if pt == u64::MAX {
            return Err(quoted_error(s, "' is too large to bound"));
        }
        Ok(between_plain(low, (0, 0, pt + 1)))
    }
}

fn tilde(s: &[char], p: &Partial) -> (r: Result<Range>)
    ensures
        match r {
            Ok(rg) => tilde_spec(s@, (p.major, p.minor, p.patch)) == Ok::<Seq<Seg>, Seq<char>>(rg@),
            Err(e) => tilde_spec(s@, (p.major, p.minor, p.patch)) matches Err(m) && e@
                == ErrorView::Range(m),
        },
{
    let low = (p.major, zero_if_none(p.minor), zero_if_none(p.patch));
    match p.minor {
        Some(m) => {
            if m == u64::MAX {
                return Err(quoted_error(s, "' is too large to bound"));
            }
            Ok(between_plain(low, (p.major, m + 1, 0)))
        },
        None => {
            if p.major == u64::MAX {
                return Err(quoted_error(s, "' is too large to bound"));
            }
            Ok(between_plain(low, (p.major + 1, 0, 0)))
        },
    }
}

fn x_range(s: &[char], p: &Partial) -> (r: Result<Range>)
    ensures
        match r {
            Ok(rg) => x_range_spec(s@, (p.major, p.minor, p.patch)) == Ok::<Seq<Seg>, Seq<char>>(rg@),
            Err(e) => x_range_spec(s@, (p.major, p.minor, p.patch)) matches Err(m) && e@
                == ErrorView::Range(m),
        },
{
    match (p.minor, p.patch) {
        (Some(m), Some(pt)) => Ok(Range::exact(Version::new(p.major, m, pt))),
        (Some(m), None) => {
            if m == u64::MAX {
                return Err(quoted_error(s, "' is too large to bound"));
            }
            Ok(between_plain((p.major, m, 0), (p.major, m + 1, 0)))
        },
        (None, _) => {
            if p.major == u64::MAX {
                return Err(quoted_error(s, "' is too large to bound"));
            }
            Ok(between_plain((p.major, 0, 0), (p.major + 1, 0, 0)))
        },
    }
}

fn loose_version(p: &Partial) -> (v: Version)
    ensures
        v@ == loose((p.major, p.minor, p.patch)),
{
    Version::new(p.major, zero_if_none(p.minor), zero_if_none(p.patch))
}

fn parse_comparator(c: &[char]) -> (r: Result<Range>)
    ensures
        match r {
            Ok(rg) => parse_comparator_spec(c@) == Ok::<Seq<Seg>, Seq<char>>(rg@),
            Err(e) => parse_comparator_spec(c@) matches Err(m) && e@ == ErrorView::Range(m),
        },
{
    if chars_are(c, "*") || chars_are(c, "x") || chars_are(c, "X") {
        return Ok(Range::at_least(Version::least()));
    }
    if let Some(rest) = strip_prefix_chars(c, ">=") {
        let p = parse_partial(rest.as_slice())?;
        return Ok(Range::at_least(loose_version(&p)));
    }
    if let Some(rest) = strip_prefix_chars(c, "<=") {
        let p = parse_partial(rest.as_slice())?;
        return Ok(Range::at_most(loose_version(&p)));
    }
    if let Some(rest) = strip_prefix_chars(c, ">") {
        let p = parse_partial(rest.as_slice())?;
        return Ok(Range::greater(loose_version(&p)));
    }
    if let Some(rest) = strip_prefix_chars(c, "<") {
        let p = parse_partial(rest.as_slice())?;
        return Ok(Range::less(loose_version(&p)));
    }
    if let Some(rest) = strip_prefix_chars(c, "=") {
        let p = parse_partial(rest.as_slice())?;
        return Ok(Range::exact(loose_version(&p)));
    }
    if let Some(rest) = strip_prefix_chars(c, "^") {
        let p = parse_partial(rest.as_slice())?;
        return caret(rest.as_slice(), &p);
    }
    if let Some(rest) = strip_prefix_chars(c, "~") {
        let p = parse_partial(rest.as_slice())?;
        return tilde(rest.as_slice(), &p);
    }
    let p = parse_partial(c)?;
    x_range(c, &p)
}


/// `out` placed before a glued result.
pub open spec fn prepend(out: Seq<Seq<char>>, r: std::result::Result<Seq<Seq<char>>, Seq<char>>) -> std::result::Result<Seq<Seq<char>>, Seq<char>> {
    match r {
        Ok(rest) => Ok(out + rest),
        Err(m) => Err(m),
    }
}

fn is_operator_token(t: &[char]) -> (r: bool)
    ensures
        r == is_operator(t@),
{
    chars_are(t, ">=") || chars_are(t, ">") || chars_are(t, "<=") || chars_are(t, "<") || chars_are(
        t,
        "=",
    )
}

fn glue_tokens(toks: &Vec<Vec<char>>) -> (r: Result<Vec<Vec<char>>>)
    ensures
        match r {
            Ok(cs) => glue(views(toks@)) == Ok::<Seq<Seq<char>>, Seq<char>>(views(cs@)),
            Err(e) => glue(views(toks@)) matches Err(m) && e@ == ErrorView::Range(m),
        },
{
    let ghost t = views(toks@);
    let mut out: Vec<Vec<char>> = Vec::new();
    let mut i: usize = 0;
    proof {
        assert(t.skip(0) =~= t);
        assert(prepend(views(out@), glue(t)) =~= glue(t)) by {
            assert(views(out@) =~= Seq::<Seq<char>>::empty());
            match glue(t) {
                Ok(rest) => {
                    assert(Seq::<Seq<char>>::empty() + rest =~= rest);
                },
                Err(_) => {},
            }
        }
    }
    while i < toks.len()
        invariant
            i <= toks@.len(),
            t == views(toks@),
            glue(t) == prepend(views(out@), glue(t.skip(i as int))),
        decreases toks@.len() - i,
    {
        let ghost rest = t.skip(i as int);
        let ghost prev = views(out@);
        proof {
            assert(rest[0] == toks@[i as int]@);
        }
        if is_operator_token(toks[i].as_slice()) {
            if i + 1 >= toks.len() {
                let mut m = String::new();
                push_str(&mut m, "operator '");
                push_chars(&mut m, toks[i].as_slice());
                push_str(&mut m, "' with no version");
                return Err(Error::Range(m));
            }
            let mut joined = copy_range(toks[i].as_slice(), 0, toks[i].len());
            let mut k: usize = 0;
            let next = &toks[i + 1];
            while k < next.len()
                invariant
                    k <= next@.len(),
                    joined@ == toks@[i as int]@ + next@.take(k as int),
                decreases next@.len() - k,
            {
                joined.push(next[k]);
                proof {
                    assert(next@.take(k + 1) =~= next@.take(k as int).push(next@[k as int]));
                }
                k = k + 1;
            }
            proof {
                assert(next@.take(next@.len() as int) =~= next@);
                assert(rest[1] == toks@[i + 1]@);
                assert(rest.skip(2) =~= t.skip(i + 2));
            }
            let ghost piece = joined@;
            out.push(joined);
            proof {
                assert(views(out@) =~= prev.push(piece));
                match glue(t.skip(i + 2)) {
                    Ok(r2) => {
                        assert(prev + (seq![piece] + r2) =~= views(out@) + r2);
                    },
                    Err(_) => {},
                }
            }
            i = i + 2;
        } else {
            let piece = copy_range(toks[i].as_slice(), 0, toks[i].len());
            proof {
                assert(piece@ =~= rest[0]);
                assert(rest.skip(1) =~= t.skip(i + 1));
            }
            let ghost pv = piece@;
            out.push(piece);
            proof {
                assert(views(out@) =~= prev.push(pv));
                match glue(t.skip(i + 1)) {
                    Ok(r2) => {
                        assert(prev + (seq![pv] + r2) =~= views(out@) + r2);
                    },
                    Err(_) => {},
                }
            }
            i = i + 1;
        }
    }
    proof {
        assert(t.skip(i as int) =~= Seq::<Seq<char>>::empty());
        assert(views(out@) + Seq::<Seq<char>>::empty() =~= views(out@));
    }
    Ok(out)
}

proof fn lemma_intersect_all_err(cs: Seq<Seq<char>>, k: int)
    requires
        0 <= k <= cs.len(),
        intersect_all(cs.take(k)) is Err,
    ensures
        intersect_all(cs) == intersect_all(cs.take(k)),
    decreases cs.len() - k,
{
    if k < cs.len() {
        assert(cs.take(k + 1).drop_last() =~= cs.take(k));
        lemma_intersect_all_err(cs, k + 1);
    } else {
        assert(cs.take(k) =~= cs);
    }
}

proof fn lemma_union_all_err(alts: Seq<Seq<char>>, k: int)
    requires
        1 <= k <= alts.len(),
        union_all(alts.take(k)) is Err,
    ensures
        union_all(alts) == union_all(alts.take(k)),
    decreases alts.len() - k,
{
    if k < alts.len() {
        assert(alts.take(k + 1).drop_last() =~= alts.take(k));
        lemma_union_all_err(alts, k + 1);
    } else {
        assert(alts.take(k) =~= alts);
    }
}

fn parse_intersection(s: &[char]) -> (r: Result<Range>)
    ensures
        match r {
            Ok(rg) => parse_intersection_spec(s@) == Ok::<Seq<Seg>, Seq<char>>(rg@),
            Err(e) => parse_intersection_spec(s@) matches Err(m) && e@ == ErrorView::Range(m),
        },
{
    let normalized = replace_chars(s, ',', ' ');
    let toks = split_words(normalized.as_slice());
    if toks.len() == 0 {
        let mut m = String::new();
        push_str(&mut m, "empty constraint segment in '");
        push_chars(&mut m, s);
        push_str(&mut m, "'");
        return Err(Error::Range(m));
    }
    let cs = glue_tokens(&toks)?;
    let ghost cv = views(cs@);
    let mut acc = Range::any();
    let mut k: usize = 0;
    proof {
        assert(cv.take(0) =~= Seq::<Seq<char>>::empty());
    }
    while k < cs.len()
        invariant
            k <= cs@.len(),
            cv == views(cs@),
            parse_intersection_spec(s@) == intersect_all(cv),
            intersect_all(cv.take(k as int)) == Ok::<Seq<Seg>, Seq<char>>(acc@),
        decreases cs@.len() - k,
    {
        proof {
            assert(cv.take(k + 1).drop_last() =~= cv.take(k as int));
            assert(cv.take(k + 1).last() == cs@[k as int]@);
        }
        let r = match parse_comparator(cs[k].as_slice()) {
            Ok(r) => r,
            Err(e) => {
                proof {
                    assert(intersect_all(cv.take(k + 1)) is Err);
                    lemma_intersect_all_err(cv, k + 1);
                }
                return Err(e);
            },
        };
        acc = acc.intersect(&r);
        k = k + 1;
    }
    proof {
        assert(cv.take(cs@.len() as int) =~= cv);
    }
    Ok(acc)
}

/// Parses a caret, tilde, comparator or x-range constraint into a `Range`.
#[verifier::rlimit(30)]
pub fn parse(input: &str) -> (r: Result<Range>)
    ensures
        match r {
            Ok(rg) => parse_constraint(input@) == Ok::<Seq<Seg>, Seq<char>>(rg@),
            Err(e) => parse_constraint(input@) matches Err(m) && e@ == ErrorView::Range(m),
        },
{
    let cs = chars_of(input);
    let s = trim_chars(cs.as_slice());
    if s.len() == 0 {
        let mut m = String::new();
        push_str(&mut m, "empty constraint");
        return Err(Error::Range(m));
    }
    let alts = split_on_bars(s.as_slice());
    let ghost av = views(alts@);
    proof {
        reveal_with_fuel(split_bars, 1);
        assert(av.len() >= 1);
        assert(av[0] == alts@[0]@);
    }
    let first = trim_chars(alts[0].as_slice());
    proof {
        assert(av.take(1) =~= seq![av[0]]);
    }
    let mut acc = match parse_intersection(first.as_slice()) {
        Ok(r) => r,
        Err(e) => {
            proof {
                lemma_union_all_err(av, 1);
            }
            return Err(e);
        },
    };
    let mut k: usize = 1;
    while k < alts.len()
        invariant
            1 <= k <= alts@.len(),
            av == views(alts@),
            parse_constraint(input@) == union_all(av),
            union_all(av.take(k as int)) == Ok::<Seq<Seg>, Seq<char>>(acc@),
        decreases alts@.len() - k,
    {
        proof {
            assert(av.take(k + 1).drop_last() =~= av.take(k as int));
            assert(av.take(k + 1).last() == alts@[k as int]@);
        }
        let t = trim_chars(alts[k].as_slice());
        let r = match parse_intersection(t.as_slice()) {
            Ok(r) => r,
            Err(e) => {
                proof {
                    assert(av.take(k + 1).len() >= 2);
                    assert(union_all(av.take(k + 1)) is Err);
                    lemma_union_all_err(av, k + 1);
                }
                return Err(e);
            },
        };
        acc = acc.union(&r);
        k = k + 1;
    }
    proof {
        assert(av.take(alts@.len() as int) =~= av);
    }
    Ok(acc)
}

} // verus!
