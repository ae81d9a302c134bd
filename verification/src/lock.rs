//! The lockfile: the exact version chosen for every package, written in a
//! stable, sorted, line-per-package format so it diffs cleanly and a second
//! resolve with the same inputs reproduces it byte for byte.
//!
//! ```text
//! # quartermaster.lock
//! bar 2.1.0
//! foo 1.2.3
//! ```
use vstd::prelude::*;
use crate::error::{Error, ErrorView, Result};
use crate::pins::{Pin, insert_pin, insert_sorted, pin_views, pins_sorted, law_insert_pin};
use crate::registry::code_of;
use crate::order::Order;
use crate::text::{chars_of, decimal, lines, push_decimal, push_str, split_lines, split_once_whitespace,
    split_once_ws, string_of, trim, trim_chars, views, free_of, is_ws, join, split, strip_cr,
    lemma_split_join, lemma_trim_same, lemma_first_ws_at};
use crate::version::{Version, parse_version, version_text, text_readable, law_version_text_parses};

verus! {

pub struct Lockfile {
    /// Every package with its pinned version, sorted by name.
    pub packages: Vec<(String, Version)>,
}

/// The pins of `ps` inserted in turn into an empty list, a later pin of a name
/// replacing an earlier one.
pub open spec fn pins_of(ps: Seq<Pin>) -> Seq<Pin>
    decreases ps.len(),
{
    if ps.len() == 0 {
        Seq::empty()
    } else {
        insert_pin(pins_of(ps.drop_last()), ps.last().0, ps.last().1)
    }
}

/// The header line every lockfile starts with.
pub open spec fn lock_header() -> Seq<char> {
    "# quartermaster.lock\n"@
}

/// One package line: the name, a space, the version, a newline.
pub open spec fn lock_line(p: Pin) -> Seq<char> {
    p.0 + " "@ + version_text(p.1) + "\n"@
}

/// The package lines in order.
pub open spec fn lock_body(ps: Seq<Pin>) -> Seq<char>
    decreases ps.len(),
{
    if ps.len() == 0 {
        Seq::empty()
    } else {
        lock_body(ps.drop_last()) + lock_line(ps.last())
    }
}

/// Reads line `n` of a lockfile: blank and comment-only lines change nothing;
/// any other line pins a name to a version.
pub open spec fn read_lock_line(pins: Seq<Pin>, raw: Seq<char>, n: nat) -> std::result::Result<
    Seq<Pin>,
    ErrorView,
> {
    let line = trim(code_of(raw));
    if line.len() == 0 {
        Ok(pins)
    } else {
        match split_once_ws(line) {
            None => Err(ErrorView::Lock("line "@ + decimal(n) + ": "@ + "expected 'name version'"@)),
            Some((name, ver)) => match parse_version(trim(ver)) {
                Err(m) => Err(ErrorView::Version(m)),
                Ok(v) => Ok(insert_pin(pins, trim(name), v)),
            },
        }
    }
}

/// The first lines of a lockfile read in turn.
pub open spec fn read_lock_lines(ls: Seq<Seq<char>>) -> std::result::Result<Seq<Pin>, ErrorView>
    decreases ls.len(),
{
    if ls.len() == 0 {
        Ok(Seq::empty())
    } else {
        match read_lock_lines(ls.drop_last()) {
            Err(e) => Err(e),
            Ok(pins) => read_lock_line(pins, ls.last(), ls.len()),
        }
    }
}

/// The pins a lockfile text holds, or the error of its first bad line.
pub open spec fn parse_lock(text: Seq<char>) -> std::result::Result<Seq<Pin>, ErrorView> {
    read_lock_lines(lines(text))
}

proof fn lemma_lock_lines_err(ls: Seq<Seq<char>>, k: int)
    requires
        0 <= k <= ls.len(),
        read_lock_lines(ls.take(k)) is Err,
    ensures
        read_lock_lines(ls) == read_lock_lines(ls.take(k)),
    decreases ls.len() - k,
{
    if k < ls.len() {
        assert(ls.take(k + 1).drop_last() =~= ls.take(k));
        lemma_lock_lines_err(ls, k + 1);
    } else {
        assert(ls.take(k) =~= ls);
    }
}

/// Inserting pins one by one keeps them sorted by name, each name once.
pub proof fn lemma_pins_of_sorted(ps: Seq<Pin>)
    ensures
        pins_sorted(pins_of(ps)),
    decreases ps.len(),
{
    if ps.len() > 0 {
        lemma_pins_of_sorted(ps.drop_last());
        law_insert_pin(pins_of(ps.drop_last()), ps.last().0, ps.last().1, ps.last().0);
    }
}

/// Pins already sorted by name, each name once, are kept as they are.
pub proof fn law_pins_of_sorted(ps: Seq<Pin>)
    requires
        pins_sorted(ps),
    ensures
        pins_of(ps) == ps,
    decreases ps.len(),
{
    if ps.len() > 0 {
        let init = ps.drop_last();
        assert(pins_sorted(init)) by {
            assert forall|i: int, j: int| 0 <= i < j < init.len() implies crate::order::lex_compare(
                #[trigger] init[i].0,
                #[trigger] init[j].0,
            ) == Order::Less by {
                assert(init[i] == ps[i]);
                assert(init[j] == ps[j]);
            }
        }
        law_pins_of_sorted(init);
        assert forall|i: int| 0 <= i < init.len() implies crate::order::lex_compare(#[trigger] init[i].0, ps.last().0)
            == Order::Less by {
            assert(init[i] == ps[i]);
        }
        lemma_insert_last(init, ps.last().0, ps.last().1);
        assert(init.push(ps.last()) =~= ps);
    }
}

/// Reads one lockfile line into the pins.
fn read_line(pins: &mut Vec<(String, Version)>, raw: &[char], n: usize) -> (r: Result<()>)
    ensures
        match r {
            Ok(()) => read_lock_line(pin_views(old(pins)@), raw@, n as nat) == Ok::<Seq<Pin>, ErrorView>(
                pin_views(final(pins)@),
            ),
            Err(e) => read_lock_line(pin_views(old(pins)@), raw@, n as nat) == Err::<Seq<Pin>, ErrorView>(
                e@,
            ),
        },
{
    let code = match crate::text::split_once_char(raw, '#') {
        Some((c, _)) => c,
        None => crate::text::copy_range(raw, 0, raw.len()),
    };
    proof {
        assert(raw@.subrange(0, raw@.len() as int) =~= raw@);
    }
    let line = trim_chars(code.as_slice());
    if line.len() == 0 {
        return Ok(());
    }
    let (name, ver) = match split_once_whitespace(line.as_slice()) {
        Some(p) => p,
        None => {
            let mut m = String::new();
            push_str(&mut m, "line ");
            push_decimal(&mut m, n as u64);
            push_str(&mut m, ": ");
            push_str(&mut m, "expected 'name version'");
            return Err(Error::Lock(m));
        },
    };
    let key = string_of(trim_chars(name.as_slice()).as_slice());
    let vtext = string_of(trim_chars(ver.as_slice()).as_slice());
    let v = match Version::parse(vtext.as_str()) {
        Ok(v) => v,
        Err(e) => {
            return Err(e);
        },
    };
    insert_sorted(pins, key, v);
    Ok(())
}

/// A package name that a lockfile line reads back: nonempty, with no
/// whitespace and no `#`.
pub open spec fn plain_name(n: Seq<char>) -> bool {
    &&& n.len() > 0
    &&& free_of(n, '#')
    &&& forall|i: int| 0 <= i < n.len() ==> !is_ws(#[trigger] n[i])
}

/// A pin that a lockfile line reads back.
pub open spec fn plain_pin(p: Pin) -> bool {
    &&& plain_name(p.0)
    &&& text_readable(p.1)
    &&& free_of(version_text(p.1), '#')
}

/// A package line without its line ending.
pub open spec fn pin_text(p: Pin) -> Seq<char> {
    p.0 + seq![' '] + version_text(p.1)
}

/// The lines of a lockfile's text: the header, the package lines, and the
/// empty text after the last line ending.
pub open spec fn lock_pieces(ps: Seq<Pin>) -> Seq<Seq<char>> {
    seq!["# quartermaster.lock"@] + Seq::new(ps.len(), |i: int| pin_text(ps[i])) + seq![Seq::<char>::empty()]
}

proof fn lemma_lock_text_pieces(ps: Seq<Pin>)
    ensures
        lock_header() + lock_body(ps) == join(lock_pieces(ps), seq!['\n']),
    decreases ps.len(),
{
    reveal_strlit("# quartermaster.lock\n");
    reveal_strlit("# quartermaster.lock");
    let nl = seq!['\n'];
    if ps.len() == 0 {
        let l = lock_pieces(ps);
        assert(l =~= seq!["# quartermaster.lock"@, Seq::<char>::empty()]);
        assert(l.drop_last() =~= seq!["# quartermaster.lock"@]);
        assert(join(l, nl) == join(l.drop_last(), nl) + nl + Seq::<char>::empty());
        assert(lock_header() + lock_body(ps) =~= join(l, nl));
    } else {
        let init = ps.drop_last();
        lemma_lock_text_pieces(init);
        let li = lock_pieces(init);
        let l = lock_pieces(ps);
        let x = pin_text(ps.last());
        // li = prefix + [""], l = prefix + [x] + [""]
        let prefix = li.drop_last();
        assert(l.drop_last() =~= prefix.push(x)) by {
            assert forall|i: int| 0 <= i < init.len() implies pin_text(#[trigger] init[i]) == pin_text(ps[i]) by {
                assert(init[i] == ps[i]);
            }
        }
        assert(l.last() == Seq::<char>::empty());
        assert(li.last() == Seq::<char>::empty());
        assert(join(l, nl) == join(l.drop_last(), nl) + nl + Seq::<char>::empty());
        assert(prefix.push(x).drop_last() =~= prefix);
        assert(prefix.len() >= 1);
        assert(join(prefix.push(x), nl) == join(prefix, nl) + nl + x);
        assert(join(li, nl) == join(li.drop_last(), nl) + nl + Seq::<char>::empty());
        reveal_strlit(" ");
        reveal_strlit("\n");
        assert(lock_line(ps.last()) =~= x + nl);
        assert(lock_body(ps) == lock_body(init) + lock_line(ps.last()));
        assert(lock_header() + lock_body(ps) =~= join(l, nl));
    }
}

/// Pins sorted by name that all come before `name` have `name` inserted last.
proof fn lemma_insert_last(s: Seq<Pin>, name: Seq<char>, v: crate::version::VersionView)
    requires
        forall|k: int| 0 <= k < s.len() ==> crate::order::lex_compare(#[trigger] s[k].0, name) == Order::Less,
    ensures
        insert_pin(s, name, v) == s.push((name, v)),
    decreases s.len(),
{
    if s.len() > 0 {
        let t = s.drop_first();
        assert forall|k: int| 0 <= k < t.len() implies crate::order::lex_compare(#[trigger] t[k].0, name) == Order::Less by {
            assert(t[k] == s[k + 1]);
        }
        lemma_insert_last(t, name, v);
        assert(crate::order::lex_compare(s[0].0, name) == Order::Less);
        assert(seq![s[0]] + t.push((name, v)) =~= s.push((name, v)));
    }
}

/// A package line reads back as its pin.
proof fn lemma_pin_line(p: Pin)
    requires
        plain_pin(p),
    ensures
        code_of(pin_text(p)) == pin_text(p),
        trim(pin_text(p)) == pin_text(p),
        split_once_ws(pin_text(p)) == Some((p.0, version_text(p.1))),
        trim(version_text(p.1)) == version_text(p.1),
        parse_version(version_text(p.1)) == Ok::<crate::version::VersionView, Seq<char>>(p.1),
        free_of(pin_text(p), '\n'),
        pin_text(p).len() > 0 && pin_text(p).last() != '\r',
        trim(p.0) == p.0,
{
    let t = pin_text(p);
    let n = p.0;
    let vt = version_text(p.1);
    law_version_text_parses(p.1);
    crate::version::lemma_version_text_ends(p.1);
    assert(vt.len() > 0);
    assert forall|i: int| 0 <= i < t.len() implies #[trigger] t[i] != '#' by {
        if i < n.len() {
            assert(t[i] == n[i]);
        } else if i > n.len() {
            assert(t[i] == vt[i - n.len() - 1]);
        }
    }
    crate::text::lemma_split_once_none(t, '#');
    assert(t[0] == n[0]);
    assert(t.last() == vt.last());
    lemma_trim_same(t);
    lemma_trim_same(vt);
    assert(!is_ws(n[n.len() - 1]));
    lemma_trim_same(n);
    assert forall|i: int| 0 <= i < n.len() implies !is_ws(#[trigger] t[i]) by {
        assert(t[i] == n[i]);
    }
    assert(is_ws(t[n.len() as int]));
    lemma_first_ws_at(t, n.len() as int);
    assert(t.take(n.len() as int) =~= n);
    assert(t.skip(n.len() as int + 1) =~= vt);
    assert forall|i: int| 0 <= i < t.len() implies #[trigger] t[i] != '\n' by {
        if i < n.len() {
            assert(t[i] == n[i]);
            assert(!is_ws(n[i]));
        } else if i > n.len() {
            assert(t[i] == vt[i - n.len() - 1]);
        }
    }
    assert(is_ws('\r'));
}

/// Reading the header and the first `k` package lines pins the first `k` packages.
#[verifier::spinoff_prover]
proof fn lemma_lock_prefix(ps: Seq<Pin>, ls: Seq<Seq<char>>, k: int)
    requires
        pins_sorted(ps),
        forall|j: int| 0 <= j < ps.len() ==> plain_pin(#[trigger] ps[j]),
        ls == seq!["# quartermaster.lock"@] + Seq::new(ps.len(), |i: int| pin_text(ps[i])),
        0 <= k <= ps.len(),
    ensures
        read_lock_lines(ls.take(k + 1)) == Ok::<Seq<Pin>, ErrorView>(ps.take(k)),
    decreases k,
{
    reveal_strlit("# quartermaster.lock");
    let hdr = "# quartermaster.lock"@;
    if k == 0 {
        assert(ls.take(1).drop_last() =~= Seq::<Seq<char>>::empty());
        assert(ls.take(1).last() == hdr);
        crate::text::lemma_split_once_at(Seq::<char>::empty(), hdr.skip(1), '#');
        assert(Seq::<char>::empty() + seq!['#'] + hdr.skip(1) =~= hdr);
        assert(code_of(hdr) =~= Seq::<char>::empty());
        assert(trim(Seq::<char>::empty()).len() == 0);
        assert(read_lock_line(Seq::<Pin>::empty(), hdr, 1) == Ok::<Seq<Pin>, ErrorView>(Seq::<Pin>::empty()));
        assert(read_lock_lines(Seq::<Seq<char>>::empty()) == Ok::<Seq<Pin>, ErrorView>(Seq::<Pin>::empty()));
        assert(ls.take(1).len() == 1);
        assert(ps.take(0) =~= Seq::<Pin>::empty());
    } else {
        lemma_lock_prefix(ps, ls, k - 1);
        let p = ps[k - 1];
        lemma_pin_line(p);
        assert(ls.take(k + 1).drop_last() =~= ls.take(k));
        assert(ls.take(k + 1).last() == pin_text(p));
        assert forall|j: int| 0 <= j < ps.take(k - 1).len() implies crate::order::lex_compare(
            #[trigger] ps.take(k - 1)[j].0,
            p.0,
        ) == Order::Less by {
            assert(ps.take(k - 1)[j] == ps[j]);
        }
        lemma_insert_last(ps.take(k - 1), p.0, p.1);
        assert(ps.take(k - 1).push((p.0, p.1)) =~= ps.take(k));
        assert(read_lock_line(ps.take(k - 1), pin_text(p), (k + 1) as nat) == Ok::<Seq<Pin>, ErrorView>(
            insert_pin(ps.take(k - 1), p.0, p.1),
        ));
        assert(ls.take(k + 1).len() == k + 1);
        assert(read_lock_lines(ls.take(k)) == Ok::<Seq<Pin>, ErrorView>(ps.take(k - 1)));
    }
}

/// What `to_text` writes, `parse` reads back: a list of pins sorted by name,
/// each name plain and each version text readable and free of `#`.
pub proof fn law_lock_round_trip(ps: Seq<Pin>)
    requires
        pins_sorted(ps),
        forall|k: int| 0 <= k < ps.len() ==> plain_pin(#[trigger] ps[k]),
    ensures
        parse_lock(lock_header() + lock_body(ps)) == Ok::<Seq<Pin>, ErrorView>(ps),
{
    reveal_strlit("# quartermaster.lock");
    let text = lock_header() + lock_body(ps);
    let l = lock_pieces(ps);
    let hdr = "# quartermaster.lock"@;
    lemma_lock_text_pieces(ps);
    assert forall|k: int| 0 <= k < l.len() implies free_of(#[trigger] l[k], '\n') by {
        if k == 0 {
            assert(l[0] == hdr);
        } else if k <= ps.len() {
            assert(l[k] == pin_text(ps[k - 1]));
            lemma_pin_line(ps[k - 1]);
        } else {
            assert(l[k] == Seq::<char>::empty());
        }
    }
    lemma_split_join(l, '\n');
    let ls = lines(text);
    let want = seq![hdr] + Seq::new(ps.len(), |i: int| pin_text(ps[i]));
    assert(ls =~= want) by {
        assert(split(text, '\n') == l);
        assert(l[l.len() - 1].len() == 0);
        assert forall|i: int| 0 <= i < want.len() implies #[trigger] ls[i] == want[i] by {
            assert(i < l.len() - 1);
            if i == 0 {
                assert(l[0] == hdr);
                assert(strip_cr(hdr) == hdr);
            } else {
                lemma_pin_line(ps[i - 1]);
                assert(l[i] == pin_text(ps[i - 1]));
                assert(strip_cr(l[i]) == l[i]);
            }
        }
    }
    lemma_lock_prefix(ps, ls, ps.len() as int);
    assert(ls.take(ps.len() as int + 1) =~= ls);
    assert(ps.take(ps.len() as int) =~= ps);
}

impl Lockfile {
    /// A lockfile pinning the given packages, sorted by name; a later pin of a
    /// name replaces an earlier one.
    pub fn new(packages: Vec<(String, Version)>) -> (r: Lockfile)
        ensures
            pin_views(r.packages@) == pins_of(pin_views(packages@)),
            pins_sorted(pin_views(r.packages@)),
    {
        let ghost ps = pin_views(packages@);
        let mut out: Vec<(String, Version)> = Vec::new();
        let mut i: usize = 0;
        proof {
            assert(ps.take(0) =~= Seq::<Pin>::empty());
            assert(pin_views(out@) =~= Seq::<Pin>::empty());
        }
        while i < packages.len()
            invariant
                i <= packages@.len(),
                ps == pin_views(packages@),
                pin_views(out@) == pins_of(ps.take(i as int)),
            decreases packages@.len() - i,
        {
            proof {
                assert(ps[i as int] == (packages@[i as int].0@, packages@[i as int].1@));
                assert(ps.take(i + 1).drop_last() =~= ps.take(i as int));
                assert(ps.take(i + 1).last() == ps[i as int]);
            }
            insert_sorted(&mut out, packages[i].0.clone(), packages[i].1.clone());
            i = i + 1;
        }
        proof {
            assert(ps.take(packages@.len() as int) =~= ps);
            lemma_pins_of_sorted(ps);
        }
        Lockfile { packages: out }
    }

    /// The lockfile text: the header line, then one `name version` line per
    /// package, in order.
    pub fn to_text(&self) -> (r: String)
        ensures
            r@ == lock_header() + lock_body(pin_views(self.packages@)),
    {
        let ghost ps = pin_views(self.packages@);
        let mut out = String::new();
        push_str(&mut out, "# quartermaster.lock\n");
        let mut i: usize = 0;
        proof {
            assert(ps.take(0) =~= Seq::<Pin>::empty());
            assert(out@ =~= lock_header() + lock_body(ps.take(0)));
        }
        while i < self.packages.len()
            invariant
                i <= self.packages@.len(),
                ps == pin_views(self.packages@),
                out@ == lock_header() + lock_body(ps.take(i as int)),
            decreases self.packages@.len() - i,
        {
            let (name, version) = &self.packages[i];
            let ghost prev = out@;
            push_str(&mut out, name.as_str());
            push_str(&mut out, " ");
            let vt = version.to_string();
            push_str(&mut out, vt.as_str());
            push_str(&mut out, "\n");
            proof {
                assert(ps[i as int] == (name@, version@));
                assert(ps.take(i + 1).drop_last() =~= ps.take(i as int));
                assert(ps.take(i + 1).last() == ps[i as int]);
                assert(out@ =~= prev + lock_line(ps[i as int]));
            }
            i = i + 1;
        }
        proof {
            assert(ps.take(self.packages@.len() as int) =~= ps);
        }
        out
    }

    /// Parses a lockfile; the first bad line is the error.
    pub fn parse(text: &str) -> (r: Result<Lockfile>)
        ensures
            match r {
                Ok(l) => parse_lock(text@) == Ok::<Seq<Pin>, ErrorView>(pin_views(l.packages@)),
                Err(e) => parse_lock(text@) == Err::<Seq<Pin>, ErrorView>(e@),
            },
    {
        let cs = chars_of(text);
        let ls = split_lines(cs.as_slice());
        let ghost lv = views(ls@);
        let mut packages: Vec<(String, Version)> = Vec::new();
        let mut i: usize = 0;
        proof {
            assert(lv.take(0) =~= Seq::<Seq<char>>::empty());
            assert(pin_views(packages@) =~= Seq::<Pin>::empty());
        }
        while i < ls.len()
            invariant
                i <= ls@.len(),
                lv == views(ls@),
                lv == lines(text@),
                read_lock_lines(lv.take(i as int)) == Ok::<Seq<Pin>, ErrorView>(pin_views(packages@)),
            decreases ls@.len() - i,
        {
            proof {
                assert(lv[i as int] == ls@[i as int]@);
                assert(lv.take(i + 1).drop_last() =~= lv.take(i as int));
                assert(lv.take(i + 1).last() == lv[i as int]);
            }
            match read_line(&mut packages, ls[i].as_slice(), i + 1) {
                Ok(()) => {},
                Err(e) => {
                    proof {
                        lemma_lock_lines_err(lv, i + 1);
                    }
                    return Err(e);
                },
            }
            i = i + 1;
        }
        proof {
            assert(lv.take(ls@.len() as int) =~= lv);
        }
        Ok(Lockfile { packages })
    }
}

} // verus!
