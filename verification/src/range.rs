//! A `Range` is a set of versions: a union of disjoint version intervals, the
//! algebra the resolver reasons over. Every constraint string (`^1.2`,
//! `>=1.0, <2.0`, `1 || 2`, `*`) parses into one, and the resolver needs
//! `contains`, `intersect`, `union`, `complement`, and `is_empty`.
//!
//! Intervals are stored as pairs of *cuts*. A cut is a position between
//! versions, so an inclusive and an exclusive bound at the same version are
//! distinct points and all four interval kinds have one exact representation.
use vstd::prelude::*;
use crate::order::{Order, compare_int, then, flip, preorder_laws};
use crate::version::{Version, VersionView, version_compare, version_order_laws, version_text};
use crate::text::{push_str, push_chars, join, join_chars, views, line_safe, lemma_line_safe_concat, lemma_line_safe_join};

pub use crate::constraint::parse;

verus! {

/// A position on the version line. `Fin(v, false)` is the cut immediately before
/// `v`, `Fin(v, true)` the cut immediately after it; `NegInf` and `PosInf` are the
/// ends of the line.
#[derive(Debug)]
pub enum Cut {
    NegInf,
    Fin(Version, bool),
    PosInf,
}

/// A cut as plain values.
pub enum CutView {
    NegInf,
    Fin(VersionView, bool),
    PosInf,
}

impl View for Cut {
    type V = CutView;

    open spec fn view(&self) -> CutView {
        match self {
            Cut::NegInf => CutView::NegInf,
            Cut::Fin(v, e) => CutView::Fin(v@, *e),
            Cut::PosInf => CutView::PosInf,
        }
    }
}

/// The order of two cuts: the ends outermost, finite cuts by version and then
/// with the cut before a version below the cut after it.
#[verifier::opaque]
pub open spec fn cut_compare(a: CutView, b: CutView) -> Order {
    match (a, b) {
        (CutView::NegInf, CutView::NegInf) => Order::Equal,
        (CutView::PosInf, CutView::PosInf) => Order::Equal,
        (CutView::NegInf, _) => Order::Less,
        (_, CutView::PosInf) => Order::Less,
        (_, CutView::NegInf) => Order::Greater,
        (CutView::PosInf, _) => Order::Greater,
        (CutView::Fin(x, ex), CutView::Fin(y, ey)) => then(
            version_compare(x, y),
            compare_int(if ex { 1 } else { 0 }, if ey { 1 } else { 0 }),
        ),
    }
}

pub open spec fn cut_le(a: CutView, b: CutView) -> bool {
    cut_compare(a, b) != Order::Greater
}

pub open spec fn cut_lt(a: CutView, b: CutView) -> bool {
    cut_compare(a, b) == Order::Less
}

/// The cut just below `v`.
pub open spec fn before(v: VersionView) -> CutView {
    CutView::Fin(v, false)
}

/// The cut just above `v`.
pub open spec fn after(v: VersionView) -> CutView {
    CutView::Fin(v, true)
}

/// Cut order laws: reflexive, antisymmetric in its answer, transitive.
pub proof fn lemma_cut_laws(a: CutView, b: CutView, c: CutView)
    ensures
        cut_compare(a, a) == Order::Equal,
        cut_compare(a, b) == flip(cut_compare(b, a)),
        preorder_laws(cut_compare(a, b), cut_compare(b, c), cut_compare(a, c)),
{
    reveal(cut_compare);
    match (a, b, c) {
        (CutView::Fin(x, _), CutView::Fin(y, _), CutView::Fin(z, _)) => {
            version_order_laws(x, y, z);
        },
        (CutView::Fin(x, _), CutView::Fin(y, _), _) => {
            version_order_laws(x, y, x);
        },
        (CutView::Fin(x, _), _, _) => {
            version_order_laws(x, x, x);
        },
        _ => {},
    }
}

/// A version sits between its two cuts, and no cut lies strictly between them:
/// every cut is at or below the lower one, or at or above the upper one.
pub proof fn lemma_cut_split(c: CutView, v: VersionView)
    ensures
        cut_lt(before(v), after(v)),
        cut_le(c, before(v)) || cut_le(after(v), c),
        cut_le(c, before(v)) ==> cut_lt(c, after(v)),
        cut_le(after(v), c) ==> cut_lt(before(v), c),
{
    reveal(cut_compare);
    version_order_laws(v, v, v);
    match c {
        CutView::Fin(w, _) => {
            version_order_laws(w, v, w);
        },
        _ => {},
    }
}

/// A version that sorts equal to a release is that release.
pub proof fn lemma_release_unique(v: VersionView, w: VersionView)
    requires
        w.pre.len() == 0,
        version_compare(v, w) == Order::Equal,
    ensures
        v == w,
{
    assert(v.pre.len() == 0);
    assert(v.pre =~= w.pre);
}

/// No cut lies at or above the lower cut of a release and below its upper cut
/// but the lower cut itself.
pub proof fn lemma_release_cuts(c: CutView, w: VersionView)
    requires
        w.pre.len() == 0,
        cut_le(before(w), c),
        cut_lt(c, after(w)),
    ensures
        c == before(w),
{
    reveal(cut_compare);
    match c {
        CutView::Fin(v, f) => {
            version_order_laws(v, w, v);
            if version_compare(v, w) == Order::Equal {
                lemma_release_unique(v, w);
            }
        },
        _ => {},
    }
}

/// The single point of a release met with well-formed intervals is that point
/// or nothing.
pub proof fn lemma_point_intersect(w: VersionView, bs: Seq<Seg>)
    requires
        w.pre.len() == 0,
        segs_wf(bs),
    ensures
        segs_intersect(seq![(before(w), after(w))], bs) == seq![(before(w), after(w))] || segs_intersect(
            seq![(before(w), after(w))],
            bs,
        ) == Seq::<Seg>::empty(),
    decreases bs.len(),
{
    let b = before(w);
    let a = after(w);
    let pt = seq![(b, a)];
    lemma_cut_split(b, w);
    lemma_cut_laws(b, b, b);
    if bs.len() > 0 {
        let b0 = bs[0];
        let lo = cut_max(b, b0.0);
        let hi = cut_min(a, b0.1);
        assert(pt.drop_first() =~= Seq::<Seg>::empty());
        assert(pt[0] == (b, a));
        if cut_le(a, b0.1) {
            assert(hi == a);
            if cut_le(b, b0.0) {
                if cut_lt(b0.0, a) {
                    lemma_release_cuts(b0.0, w);
                }
            }
            assert(segs_intersect(pt, bs) == (if cut_lt(lo, hi) {
                seq![(lo, hi)]
            } else {
                Seq::<Seg>::empty()
            }) + segs_intersect(pt.drop_first(), bs));
            assert(segs_intersect(pt.drop_first(), bs) == Seq::<Seg>::empty());
            if cut_lt(lo, hi) {
                assert(lo == b);
                assert(seq![(lo, hi)] + Seq::<Seg>::empty() =~= pt);
            } else {
                assert(Seq::<Seg>::empty() + Seq::<Seg>::empty() =~= Seq::<Seg>::empty());
            }
        } else {
            lemma_cut_laws(a, b0.1, a);
            assert(hi == b0.1);
            lemma_cut_laws(b, b0.0, b0.1);
            lemma_cut_laws(b, lo, b0.1);
            if cut_lt(lo, hi) {
                assert(cut_le(b, lo));
                assert(cut_lt(b, b0.1));
                lemma_release_cuts(b0.1, w);
                assert(false);
            }
            lemma_wf_tail(bs);
            lemma_point_intersect(w, bs.drop_first());
            assert(segs_intersect(pt, bs) == Seq::<Seg>::empty() + segs_intersect(pt, bs.drop_first()));
            assert(Seq::<Seg>::empty() + segs_intersect(pt, bs.drop_first()) =~= segs_intersect(
                pt,
                bs.drop_first(),
            ));
        }
    }
}

/// The ends of the line are below and above every cut, and strictly so for finite cuts.
pub proof fn lemma_cut_ends(c: CutView)
    ensures
        cut_le(CutView::NegInf, c),
        cut_le(c, CutView::PosInf),
        c is Fin ==> cut_lt(CutView::NegInf, c) && cut_lt(c, CutView::PosInf),
        cut_lt(CutView::NegInf, CutView::PosInf),
{
    reveal(cut_compare);
}

/// An interval as plain values: its lower and its upper cut.
pub type Seg = (CutView, CutView);

/// Whether `v` lies in the interval `s`.
pub open spec fn in_seg(s: Seg, v: VersionView) -> bool {
    cut_le(s.0, before(v)) && cut_le(after(v), s.1)
}

/// Whether `v` lies in one of the intervals of `s`.
pub open spec fn segs_contain(s: Seq<Seg>, v: VersionView) -> bool {
    exists|i: int| 0 <= i < s.len() && #[trigger] in_seg(s[i], v)
}

/// Sorted, disjoint, non-touching, non-empty intervals.
pub open spec fn segs_wf(s: Seq<Seg>) -> bool {
    &&& forall|i: int| 0 <= i < s.len() ==> cut_lt(#[trigger] s[i].0, s[i].1)
    &&& forall|i: int| 0 <= i < s.len() - 1 ==> cut_lt(#[trigger] s[i].1, s[i + 1].0)
}

pub proof fn lemma_segs_wf_pairwise(s: Seq<Seg>, i: int, j: int)
    requires
        segs_wf(s),
        0 <= i < j < s.len(),
    ensures
        cut_lt(s[i].1, s[j].0),
        cut_lt(s[i].0, s[j].0),
        cut_lt(s[i].1, s[j].1),
    decreases j - i,
{
    if j == i + 1 {
        assert(cut_lt(s[i].0, s[i].1));
        assert(cut_lt(s[j].0, s[j].1));
        lemma_cut_laws(s[i].0, s[i].1, s[j].0);
        lemma_cut_laws(s[i].1, s[j].0, s[j].1);
    } else {
        lemma_segs_wf_pairwise(s, i, j - 1);
        assert(cut_lt(s[j - 1].0, s[j - 1].1));
        assert(cut_lt(s[j - 1].1, s[j].0));
        assert(cut_lt(s[j].0, s[j].1));
        lemma_cut_laws(s[i].1, s[j - 1].0, s[j - 1].1);
        lemma_cut_laws(s[i].1, s[j - 1].1, s[j].0);
        lemma_cut_laws(s[i].0, s[i].1, s[j].0);
        lemma_cut_laws(s[i].1, s[j].0, s[j].1);
    }
}


/// The gaps of `s` from `cursor` onwards: the complement sweep.
pub open spec fn complement_from(s: Seq<Seg>, cursor: CutView) -> Seq<Seg>
    decreases s.len(),
{
    if s.len() == 0 {
        if cut_lt(cursor, CutView::PosInf) {
            seq![(cursor, CutView::PosInf)]
        } else {
            Seq::empty()
        }
    } else {
        let head = if cut_lt(cursor, s[0].0) {
            seq![(cursor, s[0].0)]
        } else {
            Seq::<Seg>::empty()
        };
        head + complement_from(s.drop_first(), s[0].1)
    }
}

/// The intervals of the complement of `s`.
pub open spec fn segs_complement(s: Seq<Seg>) -> Seq<Seg> {
    complement_from(s, CutView::NegInf)
}

proof fn lemma_wf_tail(s: Seq<Seg>)
    requires
        segs_wf(s),
        s.len() > 0,
    ensures
        segs_wf(s.drop_first()),
        s.len() > 1 ==> cut_lt(s[0].1, s.drop_first()[0].0),
{
    let t = s.drop_first();
    assert forall|i: int| 0 <= i < t.len() implies cut_lt(#[trigger] t[i].0, t[i].1) by {
        assert(t[i] == s[i + 1]);
    }
    assert forall|i: int| 0 <= i < t.len() - 1 implies cut_lt(#[trigger] t[i].1, t[i + 1].0) by {
        assert(t[i] == s[i + 1]);
        assert(t[i + 1] == s[i + 2]);
    }
}

proof fn lemma_complement_from_wf(s: Seq<Seg>, cursor: CutView)
    requires
        segs_wf(s),
        s.len() > 0 ==> cut_le(cursor, s[0].0),
    ensures
        segs_wf(complement_from(s, cursor)),
        complement_from(s, cursor).len() > 0 ==> cut_le(cursor, complement_from(s, cursor)[0].0),
    decreases s.len(),
{
    lemma_cut_laws(cursor, cursor, cursor);
    if s.len() > 0 {
        let s0 = s[0];
        let t = s.drop_first();
        lemma_wf_tail(s);
        lemma_complement_from_wf(t, s0.1);
        let rest = complement_from(t, s0.1);
        let r = complement_from(s, cursor);
        assert(cut_lt(s0.0, s0.1));
        if rest.len() > 0 {
            lemma_cut_laws(s0.0, s0.1, rest[0].0);
            lemma_cut_laws(cursor, s0.0, rest[0].0);
        }
        if cut_lt(cursor, s0.0) {
            assert(r == seq![(cursor, s0.0)] + rest);
            assert forall|i: int| 0 <= i < r.len() implies cut_lt(#[trigger] r[i].0, r[i].1) by {
                if i > 0 {
                    assert(r[i] == rest[i - 1]);
                }
            }
            assert forall|i: int| 0 <= i < r.len() - 1 implies cut_lt(#[trigger] r[i].1, r[i + 1].0) by {
                if i > 0 {
                    assert(r[i] == rest[i - 1]);
                    assert(r[i + 1] == rest[i]);
                }
            }
        } else {
            assert(r =~= rest);
        }
    }
}

proof fn lemma_complement_from_has(s: Seq<Seg>, cursor: CutView, v: VersionView)
    requires
        segs_wf(s),
        s.len() > 0 ==> cut_le(cursor, s[0].0),
    ensures
        segs_contain(complement_from(s, cursor), v) <==> (cut_le(cursor, before(v))
            && !segs_contain(s, v)),
    decreases s.len(),
{
    let r = complement_from(s, cursor);
    lemma_cut_split(cursor, v);
    if s.len() == 0 {
        lemma_cut_ends(before(v));
        lemma_cut_ends(after(v));
        lemma_cut_laws(before(v), after(v), CutView::PosInf);
        lemma_cut_laws(cursor, before(v), CutView::PosInf);
        if cut_le(cursor, before(v)) {
            assert(in_seg(r[0], v));
        }
    } else {
        let s0 = s[0];
        let t = s.drop_first();
        lemma_wf_tail(s);
        lemma_complement_from_has(t, s0.1, v);
        let rest = complement_from(t, s0.1);
        let head = if cut_lt(cursor, s0.0) {
            seq![(cursor, s0.0)]
        } else {
            Seq::<Seg>::empty()
        };
        assert(r == head + rest);
        assert(cut_lt(s0.0, s0.1));
        lemma_cut_split(s0.0, v);
        lemma_cut_split(s0.1, v);
        lemma_cut_laws(cursor, s0.0, before(v));
        lemma_cut_laws(cursor, s0.0, s0.1);
        lemma_cut_laws(cursor, s0.1, before(v));
        lemma_cut_laws(s0.0, s0.1, before(v));
        lemma_cut_laws(after(v), s0.0, s0.1);
        lemma_cut_laws(s0.0, after(v), s0.0);
        lemma_cut_laws(s0.1, before(v), after(v));
        lemma_cut_laws(after(v), s0.1, before(v));
        lemma_cut_laws(after(v), s0.0, before(v));
        lemma_cut_laws(before(v), after(v), s0.0);
        // membership in s splits into s0 and the rest
        if segs_contain(s, v) {
            let i = choose|i: int| 0 <= i < s.len() && #[trigger] in_seg(s[i], v);
            if i > 0 {
                assert(t[i - 1] == s[i]);
                assert(segs_contain(t, v));
            }
        }
        if segs_contain(t, v) {
            let i = choose|i: int| 0 <= i < t.len() && #[trigger] in_seg(t[i], v);
            assert(t[i] == s[i + 1]);
            assert(in_seg(s[i + 1], v));
            lemma_segs_wf_pairwise(s, 0, i + 1);
            lemma_cut_laws(s0.1, s[i + 1].0, before(v));
            assert(cut_le(s0.1, before(v)));
        }
        if segs_contain(r, v) {
            let i = choose|i: int| 0 <= i < r.len() && #[trigger] in_seg(r[i], v);
            if head.len() > 0 && i == 0 {
                assert(cut_le(after(v), s0.0));
            } else {
                let k = if head.len() > 0 {
                    i - 1
                } else {
                    i
                };
                assert(r[i] == rest[k]);
                assert(segs_contain(rest, v));
            }
        }
        if cut_le(cursor, before(v)) && !segs_contain(s, v) {
            assert(!in_seg(s[0], v));
            if cut_le(after(v), s0.0) {
                lemma_cut_laws(before(v), after(v), s0.0);
                lemma_cut_laws(cursor, before(v), s0.0);
                assert(cut_lt(cursor, s0.0));
                assert(r[0] == (cursor, s0.0));
                assert(in_seg(r[0], v));
            } else {
                assert(segs_contain(rest, v));
                let i = choose|i: int| 0 <= i < rest.len() && #[trigger] in_seg(rest[i], v);
                let k = if head.len() > 0 {
                    i + 1
                } else {
                    i
                };
                assert(r[k] == rest[i]);
            }
        }
    }
}

/// The complement is exact: a version is in it exactly when it is not in `s`.
pub proof fn lemma_complement(s: Seq<Seg>)
    requires
        segs_wf(s),
    ensures
        segs_wf(segs_complement(s)),
        forall|v: VersionView| segs_contain(segs_complement(s), v) <==> !segs_contain(s, v),
{
    if s.len() > 0 {
        reveal(cut_compare);
        assert(cut_le(CutView::NegInf, s[0].0));
    }
    lemma_complement_from_wf(s, CutView::NegInf);
    assert forall|v: VersionView| segs_contain(segs_complement(s), v) <==> !segs_contain(s, v) by {
        lemma_complement_from_has(s, CutView::NegInf, v);
        reveal(cut_compare);
    }
}


proof fn lemma_contain_cons(x: Seg, r: Seq<Seg>, v: VersionView)
    ensures
        segs_contain(seq![x] + r, v) <==> (in_seg(x, v) || segs_contain(r, v)),
{
    let s = seq![x] + r;
    if segs_contain(s, v) {
        let i = choose|i: int| 0 <= i < s.len() && #[trigger] in_seg(s[i], v);
        if i > 0 {
            assert(s[i] == r[i - 1]);
        }
    }
    if segs_contain(r, v) {
        let i = choose|i: int| 0 <= i < r.len() && #[trigger] in_seg(r[i], v);
        assert(s[i + 1] == r[i]);
    }
    if in_seg(x, v) {
        assert(s[0] == x);
    }
}

proof fn lemma_contain_split(s: Seq<Seg>, v: VersionView)
    requires
        s.len() > 0,
    ensures
        segs_contain(s, v) <==> (in_seg(s[0], v) || segs_contain(s.drop_first(), v)),
{
    assert(s =~= seq![s[0]] + s.drop_first());
    lemma_contain_cons(s[0], s.drop_first(), v);
}

/// Interval lists ordered by lower cut.
pub open spec fn sorted_by_lower(s: Seq<Seg>) -> bool {
    forall|i: int, j: int| 0 <= i < j < s.len() ==> cut_le(#[trigger] s[i].0, #[trigger] s[j].0)
}

/// Every interval non-empty.
pub open spec fn proper(s: Seq<Seg>) -> bool {
    forall|i: int| 0 <= i < s.len() ==> cut_lt(#[trigger] s[i].0, s[i].1)
}

/// The two interval lists merged by lower cut, `a`'s first on ties: what a stable
/// sort of `a` followed by `b` gives.
pub open spec fn merge(a: Seq<Seg>, b: Seq<Seg>) -> Seq<Seg>
    decreases a.len() + b.len(),
{
    if a.len() == 0 {
        b
    } else if b.len() == 0 {
        a
    } else if cut_le(a[0].0, b[0].0) {
        seq![a[0]] + merge(a.drop_first(), b)
    } else {
        seq![b[0]] + merge(a, b.drop_first())
    }
}

proof fn lemma_wf_sorted(s: Seq<Seg>)
    requires
        segs_wf(s),
    ensures
        sorted_by_lower(s),
        proper(s),
{
    assert forall|i: int, j: int| 0 <= i < j < s.len() implies cut_le(
        #[trigger] s[i].0,
        #[trigger] s[j].0,
    ) by {
        lemma_segs_wf_pairwise(s, i, j);
    }
}

proof fn lemma_merge(a: Seq<Seg>, b: Seq<Seg>)
    requires
        sorted_by_lower(a),
        sorted_by_lower(b),
        proper(a),
        proper(b),
    ensures
        sorted_by_lower(merge(a, b)),
        proper(merge(a, b)),
        forall|k: int|
            0 <= k < merge(a, b).len() ==> (a.contains(#[trigger] merge(a, b)[k]) || b.contains(
                merge(a, b)[k],
            )),
        forall|v: VersionView|
            segs_contain(merge(a, b), v) <==> (segs_contain(a, v) || segs_contain(b, v)),
    decreases a.len() + b.len(),
{
    let m = merge(a, b);
    if a.len() == 0 {
        assert forall|v: VersionView| !segs_contain(a, v) by {}
        assert forall|k: int| 0 <= k < m.len() implies (a.contains(#[trigger] m[k]) || b.contains(
            m[k],
        )) by {
            assert(b[k] == m[k]);
        }
    } else if b.len() == 0 {
        assert forall|v: VersionView| !segs_contain(b, v) by {}
        assert forall|k: int| 0 <= k < m.len() implies (a.contains(#[trigger] m[k]) || b.contains(
            m[k],
        )) by {
            assert(a[k] == m[k]);
        }
    } else {
        let take_a = cut_le(a[0].0, b[0].0);
        let x = if take_a {
            a[0]
        } else {
            b[0]
        };
        let a2 = if take_a {
            a.drop_first()
        } else {
            a
        };
        let b2 = if take_a {
            b
        } else {
            b.drop_first()
        };
        assert(sorted_by_lower(a2)) by {
            if take_a {
                assert forall|i: int, j: int| 0 <= i < j < a2.len() implies cut_le(
                    #[trigger] a2[i].0,
                    #[trigger] a2[j].0,
                ) by {
                    assert(a2[i] == a[i + 1]);
                    assert(a2[j] == a[j + 1]);
                }
            }
        }
        assert(sorted_by_lower(b2)) by {
            if !take_a {
                assert forall|i: int, j: int| 0 <= i < j < b2.len() implies cut_le(
                    #[trigger] b2[i].0,
                    #[trigger] b2[j].0,
                ) by {
                    assert(b2[i] == b[i + 1]);
                    assert(b2[j] == b[j + 1]);
                }
            }
        }
        assert(proper(a2)) by {
            if take_a {
                assert forall|i: int| 0 <= i < a2.len() implies cut_lt(#[trigger] a2[i].0, a2[i].1) by {
                    assert(a2[i] == a[i + 1]);
                }
            }
        }
        assert(proper(b2)) by {
            if !take_a {
                assert forall|i: int| 0 <= i < b2.len() implies cut_lt(#[trigger] b2[i].0, b2[i].1) by {
                    assert(b2[i] == b[i + 1]);
                }
            }
        }
        lemma_merge(a2, b2);
        let r = merge(a2, b2);
        assert(m == seq![x] + r);
        // elements of r come from a or b
        assert forall|k: int| 0 <= k < r.len() implies (a.contains(#[trigger] r[k]) || b.contains(
            r[k],
        )) by {
            if a2.contains(r[k]) {
                let i = choose|i: int| 0 <= i < a2.len() && a2[i] == r[k];
                if take_a {
                    assert(a[i + 1] == a2[i]);
                }
            } else {
                let j = choose|j: int| 0 <= j < b2.len() && b2[j] == r[k];
                if !take_a {
                    assert(b[j + 1] == b2[j]);
                }
            }
        }
        assert forall|k: int| 0 <= k < m.len() implies (a.contains(#[trigger] m[k]) || b.contains(
            m[k],
        )) by {
            if k == 0 {
                if take_a {
                    assert(a[0] == m[0]);
                } else {
                    assert(b[0] == m[0]);
                }
            } else {
                assert(m[k] == r[k - 1]);
            }
        }
        // x's lower cut is below every lower cut of r
        assert forall|k: int| 0 <= k < r.len() implies cut_le(x.0, #[trigger] r[k].0) by {
            lemma_cut_laws(x.0, x.0, x.0);
            if a2.contains(r[k]) {
                let i = choose|i: int| 0 <= i < a2.len() && a2[i] == r[k];
                if take_a {
                    assert(a[i + 1] == a2[i]);
                    assert(cut_le(a[0].0, a[i + 1].0));
                } else {
                    if i > 0 {
                        assert(cut_le(a[0].0, a[i].0));
                    }
                    lemma_cut_laws(b[0].0, a[0].0, a[i].0);
                }
            } else {
                let j = choose|j: int| 0 <= j < b2.len() && b2[j] == r[k];
                if take_a {
                    if j > 0 {
                        assert(cut_le(b[0].0, b[j].0));
                    }
                    lemma_cut_laws(a[0].0, b[0].0, b[j].0);
                } else {
                    assert(b[j + 1] == b2[j]);
                    assert(cut_le(b[0].0, b[j + 1].0));
                }
            }
        }
        assert forall|i: int, j: int| 0 <= i < j < m.len() implies cut_le(
            #[trigger] m[i].0,
            #[trigger] m[j].0,
        ) by {
            assert(m[j] == r[j - 1]);
            if i > 0 {
                assert(m[i] == r[i - 1]);
            }
        }
        assert forall|k: int| 0 <= k < m.len() implies cut_lt(#[trigger] m[k].0, m[k].1) by {
            if k > 0 {
                assert(m[k] == r[k - 1]);
            }
        }
        assert forall|v: VersionView|
            segs_contain(m, v) <==> (segs_contain(a, v) || segs_contain(b, v)) by {
            lemma_contain_cons(x, r, v);
            lemma_contain_split(a, v);
            lemma_contain_split(b, v);
        }
    }
}

/// One step of the union sweep: `seg` joins the last interval when it touches or
/// overlaps it, and is appended otherwise.
pub open spec fn absorb(out: Seq<Seg>, seg: Seg) -> Seq<Seg> {
    if out.len() > 0 && cut_le(seg.0, out.last().1) {
        if cut_lt(out.last().1, seg.1) {
            out.update(out.len() - 1, (out.last().0, seg.1))
        } else {
            out
        }
    } else {
        out.push(seg)
    }
}

/// The union sweep over intervals sorted by lower cut.
pub open spec fn coalesce(s: Seq<Seg>) -> Seq<Seg>
    decreases s.len(),
{
    if s.len() == 0 {
        Seq::empty()
    } else {
        absorb(coalesce(s.drop_last()), s.last())
    }
}

/// The intervals of the union of `a` and `b`.
pub open spec fn segs_union(a: Seq<Seg>, b: Seq<Seg>) -> Seq<Seg> {
    coalesce(merge(a, b))
}

proof fn lemma_absorb(out: Seq<Seg>, seg: Seg)
    requires
        segs_wf(out),
        cut_lt(seg.0, seg.1),
        out.len() > 0 ==> cut_le(out.last().0, seg.0),
    ensures
        segs_wf(absorb(out, seg)),
        absorb(out, seg).len() > 0,
        cut_le(absorb(out, seg).last().0, seg.0),
        forall|v: VersionView|
            segs_contain(absorb(out, seg), v) <==> (segs_contain(out, v) || in_seg(seg, v)),
{
    let r = absorb(out, seg);
    lemma_cut_laws(seg.0, seg.0, seg.0);
    if out.len() > 0 && cut_le(seg.0, out.last().1) {
        let n = out.len() - 1;
        let last = out.last();
        assert(cut_lt(out[n].0, out[n].1));
        if cut_lt(last.1, seg.1) {
            lemma_cut_laws(last.0, last.1, seg.1);
            assert forall|i: int| 0 <= i < r.len() implies cut_lt(#[trigger] r[i].0, r[i].1) by {
                if i < n {
                    assert(r[i] == out[i]);
                }
            }
            assert forall|i: int| 0 <= i < r.len() - 1 implies cut_lt(#[trigger] r[i].1, r[i + 1].0) by {
                assert(r[i] == out[i]);
            }
            assert forall|v: VersionView|
                segs_contain(r, v) <==> (segs_contain(out, v) || in_seg(seg, v)) by {
                lemma_cut_split(last.1, v);
                lemma_cut_laws(last.0, seg.0, before(v));
                lemma_cut_laws(seg.0, last.1, before(v));
                lemma_cut_laws(after(v), last.1, seg.1);
                if segs_contain(r, v) {
                    let i = choose|i: int| 0 <= i < r.len() && #[trigger] in_seg(r[i], v);
                    if i < n {
                        assert(r[i] == out[i]);
                    } else if cut_le(after(v), last.1) {
                        assert(in_seg(out[n], v));
                    } else {
                        assert(in_seg(seg, v));
                    }
                }
                if segs_contain(out, v) {
                    let i = choose|i: int| 0 <= i < out.len() && #[trigger] in_seg(out[i], v);
                    if i < n {
                        assert(r[i] == out[i]);
                    } else {
                        assert(in_seg(r[n], v));
                    }
                }
                if in_seg(seg, v) {
                    assert(in_seg(r[n], v));
                }
            }
        } else {
            lemma_cut_laws(seg.1, last.1, seg.1);
            assert forall|v: VersionView|
                segs_contain(r, v) <==> (segs_contain(out, v) || in_seg(seg, v)) by {
                lemma_cut_laws(last.0, seg.0, before(v));
                lemma_cut_laws(after(v), seg.1, last.1);
                if in_seg(seg, v) {
                    assert(in_seg(out[n], v));
                }
            }
        }
    } else {
        if out.len() > 0 {
            lemma_cut_laws(seg.0, out.last().1, seg.0);
            assert(cut_lt(out.last().1, seg.0));
        }
        assert forall|i: int| 0 <= i < r.len() implies cut_lt(#[trigger] r[i].0, r[i].1) by {
            if i < out.len() {
                assert(r[i] == out[i]);
            }
        }
        assert forall|i: int| 0 <= i < r.len() - 1 implies cut_lt(#[trigger] r[i].1, r[i + 1].0) by {
            assert(r[i] == out[i]);
            if i + 1 < out.len() {
                assert(r[i + 1] == out[i + 1]);
            }
        }
        assert forall|v: VersionView|
            segs_contain(r, v) <==> (segs_contain(out, v) || in_seg(seg, v)) by {
            if segs_contain(r, v) {
                let i = choose|i: int| 0 <= i < r.len() && #[trigger] in_seg(r[i], v);
                if i < out.len() {
                    assert(r[i] == out[i]);
                }
            }
            if segs_contain(out, v) {
                let i = choose|i: int| 0 <= i < out.len() && #[trigger] in_seg(out[i], v);
                assert(r[i] == out[i]);
            }
            if in_seg(seg, v) {
                assert(r[r.len() - 1] == seg);
            }
        }
    }
}

proof fn lemma_coalesce(s: Seq<Seg>)
    requires
        sorted_by_lower(s),
        proper(s),
    ensures
        segs_wf(coalesce(s)),
        s.len() > 0 ==> coalesce(s).len() > 0 && cut_le(coalesce(s).last().0, s.last().0),
        forall|v: VersionView| segs_contain(coalesce(s), v) <==> segs_contain(s, v),
    decreases s.len(),
{
    if s.len() > 0 {
        let t = s.drop_last();
        assert(sorted_by_lower(t)) by {
            assert forall|i: int, j: int| 0 <= i < j < t.len() implies cut_le(
                #[trigger] t[i].0,
                #[trigger] t[j].0,
            ) by {
                assert(t[i] == s[i]);
                assert(t[j] == s[j]);
            }
        }
        assert(proper(t)) by {
            assert forall|i: int| 0 <= i < t.len() implies cut_lt(#[trigger] t[i].0, t[i].1) by {
                assert(t[i] == s[i]);
            }
        }
        lemma_coalesce(t);
        let c = coalesce(t);
        if t.len() > 0 {
            assert(cut_le(s[t.len() - 1].0, s[s.len() - 1].0));
            lemma_cut_laws(c.last().0, t.last().0, s.last().0);
        }
        assert(cut_lt(s[s.len() - 1].0, s[s.len() - 1].1));
        lemma_absorb(c, s.last());
        assert forall|v: VersionView| segs_contain(coalesce(s), v) <==> segs_contain(s, v) by {
            if segs_contain(s, v) {
                let i = choose|i: int| 0 <= i < s.len() && #[trigger] in_seg(s[i], v);
                if i < t.len() {
                    assert(t[i] == s[i]);
                    assert(segs_contain(t, v));
                }
            }
            if segs_contain(t, v) {
                let i = choose|i: int| 0 <= i < t.len() && #[trigger] in_seg(t[i], v);
                assert(t[i] == s[i]);
            }
        }
    }
}

/// The union is exact: a version is in it exactly when it is in `a` or in `b`.
pub proof fn lemma_union(a: Seq<Seg>, b: Seq<Seg>)
    requires
        segs_wf(a),
        segs_wf(b),
    ensures
        segs_wf(segs_union(a, b)),
        forall|v: VersionView|
            segs_contain(segs_union(a, b), v) <==> (segs_contain(a, v) || segs_contain(b, v)),
{
    lemma_wf_sorted(a);
    lemma_wf_sorted(b);
    lemma_merge(a, b);
    lemma_coalesce(merge(a, b));
}


/// The larger of two cuts, `b` on ties (what `Ord::max` returns).
pub open spec fn cut_max(a: CutView, b: CutView) -> CutView {
    if cut_le(a, b) {
        b
    } else {
        a
    }
}

/// The smaller of two cuts, `a` on ties (what `Ord::min` returns).
pub open spec fn cut_min(a: CutView, b: CutView) -> CutView {
    if cut_le(a, b) {
        a
    } else {
        b
    }
}

/// The intersection sweep: overlap the two first intervals, then drop the one
/// that ends first.
pub open spec fn segs_intersect(a: Seq<Seg>, b: Seq<Seg>) -> Seq<Seg>
    decreases a.len() + b.len(),
{
    if a.len() == 0 || b.len() == 0 {
        Seq::empty()
    } else {
        let lo = cut_max(a[0].0, b[0].0);
        let hi = cut_min(a[0].1, b[0].1);
        let head = if cut_lt(lo, hi) {
            seq![(lo, hi)]
        } else {
            Seq::<Seg>::empty()
        };
        if cut_le(a[0].1, b[0].1) {
            head + segs_intersect(a.drop_first(), b)
        } else {
            head + segs_intersect(a, b.drop_first())
        }
    }
}

proof fn lemma_intersect_wf(a: Seq<Seg>, b: Seq<Seg>)
    requires
        segs_wf(a),
        segs_wf(b),
    ensures
        segs_wf(segs_intersect(a, b)),
        a.len() > 0 && b.len() > 0 ==> forall|k: int|
            0 <= k < segs_intersect(a, b).len() ==> cut_le(a[0].0, #[trigger] segs_intersect(a, b)[k].0)
                && cut_le(b[0].0, segs_intersect(a, b)[k].0),
    decreases a.len() + b.len(),
{
    if a.len() > 0 && b.len() > 0 {
        let r = segs_intersect(a, b);
        let lo = cut_max(a[0].0, b[0].0);
        let hi = cut_min(a[0].1, b[0].1);
        let head = if cut_lt(lo, hi) {
            seq![(lo, hi)]
        } else {
            Seq::<Seg>::empty()
        };
        let drop_a = cut_le(a[0].1, b[0].1);
        let a2 = if drop_a {
            a.drop_first()
        } else {
            a
        };
        let b2 = if drop_a {
            b
        } else {
            b.drop_first()
        };
        if drop_a {
            lemma_wf_tail(a);
        } else {
            lemma_wf_tail(b);
        }
        lemma_intersect_wf(a2, b2);
        let rest = segs_intersect(a2, b2);
        assert(r == head + rest);
        assert(cut_lt(a[0].0, a[0].1));
        assert(cut_lt(b[0].0, b[0].1));
        lemma_cut_laws(a[0].0, b[0].0, a[0].0);
        lemma_cut_laws(a[0].1, b[0].1, a[0].1);
        lemma_cut_laws(a[0].0, a[0].0, a[0].0);
        lemma_cut_laws(b[0].0, b[0].0, b[0].0);
        // lower bounds of the rest
        assert forall|k: int| 0 <= k < rest.len() implies cut_le(a[0].0, #[trigger] rest[k].0)
            && cut_le(b[0].0, rest[k].0) && cut_lt(hi, rest[k].0) by {
            if drop_a {
                if a2.len() > 0 {
                    assert(a2[0] == a[1]);
                    assert(cut_lt(a[0].1, a[1].0));
                    lemma_cut_laws(a[0].0, a[0].1, a[1].0);
                    lemma_cut_laws(a[0].0, a[1].0, rest[k].0);
                    lemma_cut_laws(hi, a[0].1, a[1].0);
                    lemma_cut_laws(hi, a[1].0, rest[k].0);
                }
            } else {
                if b2.len() > 0 {
                    assert(b2[0] == b[1]);
                    assert(cut_lt(b[0].1, b[1].0));
                    lemma_cut_laws(b[0].0, b[0].1, b[1].0);
                    lemma_cut_laws(b[0].0, b[1].0, rest[k].0);
                    lemma_cut_laws(hi, b[0].1, b[1].0);
                    lemma_cut_laws(hi, b[1].0, rest[k].0);
                }
            }
        }
        assert forall|i: int| 0 <= i < r.len() implies cut_lt(#[trigger] r[i].0, r[i].1) by {
            if head.len() > 0 && i > 0 {
                assert(r[i] == rest[i - 1]);
            } else if head.len() == 0 {
                assert(r[i] == rest[i]);
            }
        }
        assert forall|i: int| 0 <= i < r.len() - 1 implies cut_lt(#[trigger] r[i].1, r[i + 1].0) by {
            if head.len() > 0 && i > 0 {
                assert(r[i] == rest[i - 1]);
                assert(r[i + 1] == rest[i]);
            } else if head.len() == 0 {
                assert(r[i] == rest[i]);
                assert(r[i + 1] == rest[i + 1]);
            } else {
                assert(r[i + 1] == rest[0]);
            }
        }
        assert forall|k: int| 0 <= k < r.len() implies cut_le(a[0].0, #[trigger] r[k].0) && cut_le(
            b[0].0,
            r[k].0,
        ) by {
            if head.len() > 0 && k > 0 {
                assert(r[k] == rest[k - 1]);
            } else if head.len() == 0 {
                assert(r[k] == rest[k]);
            }
        }
    }
}

proof fn lemma_intersect_has(a: Seq<Seg>, b: Seq<Seg>, v: VersionView)
    requires
        segs_wf(a),
        segs_wf(b),
    ensures
        segs_contain(segs_intersect(a, b), v) <==> (segs_contain(a, v) && segs_contain(b, v)),
    decreases a.len() + b.len(),
{
    if a.len() == 0 || b.len() == 0 {
        if a.len() == 0 {
            assert(!segs_contain(a, v));
        } else {
            assert(!segs_contain(b, v));
        }
    } else {
        let lo = cut_max(a[0].0, b[0].0);
        let hi = cut_min(a[0].1, b[0].1);
        let head = if cut_lt(lo, hi) {
            seq![(lo, hi)]
        } else {
            Seq::<Seg>::empty()
        };
        let drop_a = cut_le(a[0].1, b[0].1);
        let a2 = if drop_a {
            a.drop_first()
        } else {
            a
        };
        let b2 = if drop_a {
            b
        } else {
            b.drop_first()
        };
        if drop_a {
            lemma_wf_tail(a);
        } else {
            lemma_wf_tail(b);
        }
        lemma_intersect_has(a2, b2, v);
        let rest = segs_intersect(a2, b2);
        let r = segs_intersect(a, b);
        assert(r == head + rest);
        lemma_contain_split(a, v);
        lemma_contain_split(b, v);
        lemma_cut_split(lo, v);
        lemma_cut_split(hi, v);
        lemma_cut_laws(a[0].0, b[0].0, a[0].0);
        lemma_cut_laws(a[0].1, b[0].1, a[0].1);
        lemma_cut_laws(a[0].0, b[0].0, before(v));
        lemma_cut_laws(b[0].0, a[0].0, before(v));
        lemma_cut_laws(after(v), a[0].1, b[0].1);
        lemma_cut_laws(after(v), b[0].1, a[0].1);
        lemma_cut_laws(lo, before(v), after(v));
        lemma_cut_laws(lo, after(v), hi);
        // v in both first intervals exactly when it is in their overlap
        let in_both = in_seg(a[0], v) && in_seg(b[0], v);
        assert(in_both <==> in_seg((lo, hi), v));
        assert(in_seg((lo, hi), v) ==> cut_lt(lo, hi));
        // the dropped interval meets nothing beyond the other's first interval
        if drop_a {
            assert forall|j: int| 1 <= j < b.len() implies !(in_seg(a[0], v) && #[trigger] in_seg(b[j], v)) by {
                lemma_segs_wf_pairwise(b, 0, j);
                lemma_cut_laws(after(v), a[0].1, b[0].1);
                lemma_cut_laws(after(v), b[0].1, b[j].0);
                lemma_cut_split(b[j].0, v);
                lemma_cut_laws(b[j].0, before(v), after(v));
                lemma_cut_laws(after(v), b[j].0, after(v));
            }
            if in_seg(a[0], v) && segs_contain(b.drop_first(), v) {
                let j = choose|j: int| 0 <= j < b.drop_first().len() && #[trigger] in_seg(b.drop_first()[j], v);
                assert(b.drop_first()[j] == b[j + 1]);
                assert(in_seg(b[j + 1], v));
            }
        } else {
            assert forall|i: int| 1 <= i < a.len() implies !(in_seg(b[0], v) && #[trigger] in_seg(a[i], v)) by {
                lemma_segs_wf_pairwise(a, 0, i);
                lemma_cut_laws(b[0].1, a[0].1, b[0].1);
                lemma_cut_laws(after(v), b[0].1, a[0].1);
                lemma_cut_laws(after(v), a[0].1, a[i].0);
                lemma_cut_split(a[i].0, v);
                lemma_cut_laws(a[i].0, before(v), after(v));
                lemma_cut_laws(after(v), a[i].0, after(v));
            }
            if in_seg(b[0], v) && segs_contain(a.drop_first(), v) {
                let i = choose|i: int| 0 <= i < a.drop_first().len() && #[trigger] in_seg(a.drop_first()[i], v);
                assert(a.drop_first()[i] == a[i + 1]);
                assert(in_seg(a[i + 1], v));
            }
        }
        if head.len() > 0 {
            lemma_contain_cons((lo, hi), rest, v);
        } else {
            assert(r =~= rest);
        }
    }
}

/// The intersection is exact: a version is in it exactly when it is in `a` and in `b`.
pub proof fn lemma_intersect(a: Seq<Seg>, b: Seq<Seg>)
    requires
        segs_wf(a),
        segs_wf(b),
    ensures
        segs_wf(segs_intersect(a, b)),
        forall|v: VersionView|
            segs_contain(segs_intersect(a, b), v) <==> (segs_contain(a, v) && segs_contain(b, v)),
{
    lemma_intersect_wf(a, b);
    assert forall|v: VersionView|
        segs_contain(segs_intersect(a, b), v) <==> (segs_contain(a, v) && segs_contain(b, v)) by {
        lemma_intersect_has(a, b, v);
    }
}


impl Clone for Cut {
    fn clone(&self) -> (r: Self)
        ensures
            r@ == self@,
    {
        match self {
            Cut::NegInf => Cut::NegInf,
            Cut::Fin(v, e) => Cut::Fin(v.clone(), *e),
            Cut::PosInf => Cut::PosInf,
        }
    }
}

fn compare_flags(a: bool, b: bool) -> (r: Order)
    ensures
        r == compare_int(if a { 1 } else { 0 }, if b { 1 } else { 0 }),
{
    if a == b {
        Order::Equal
    } else if !a {
        Order::Less
    } else {
        Order::Greater
    }
}

/// The order of two cuts.
pub fn compare_cuts(a: &Cut, b: &Cut) -> (r: Order)
    ensures
        r == cut_compare(a@, b@),
{
    reveal(cut_compare);
    match (a, b) {
        (Cut::NegInf, Cut::NegInf) => Order::Equal,
        (Cut::PosInf, Cut::PosInf) => Order::Equal,
        (Cut::NegInf, _) => Order::Less,
        (_, Cut::PosInf) => Order::Less,
        (_, Cut::NegInf) => Order::Greater,
        (Cut::PosInf, _) => Order::Greater,
        (Cut::Fin(x, ex), Cut::Fin(y, ey)) => {
            let o = x.compare(y);
            if o != Order::Equal {
                o
            } else {
                compare_flags(*ex, *ey)
            }
        },
    }
}

fn cut_leq(a: &Cut, b: &Cut) -> (r: bool)
    ensures
        r == cut_le(a@, b@),
{
    compare_cuts(a, b) != Order::Greater
}

fn cut_less(a: &Cut, b: &Cut) -> (r: bool)
    ensures
        r == cut_lt(a@, b@),
{
    compare_cuts(a, b) == Order::Less
}

/// Whether two cuts are the same, version fields included.
fn cut_same(a: &Cut, b: &Cut) -> (r: bool)
    ensures
        r == (a@ == b@),
{
    match (a, b) {
        (Cut::NegInf, Cut::NegInf) => true,
        (Cut::PosInf, Cut::PosInf) => true,
        (Cut::Fin(x, ex), Cut::Fin(y, ey)) => *ex == *ey && x.same_as(y),
        _ => false,
    }
}

/// The interval values of a list of cut pairs.
pub open spec fn seg_views(s: Seq<(Cut, Cut)>) -> Seq<Seg> {
    s.map_values(|p: (Cut, Cut)| (p.0@, p.1@))
}

fn clone_seg(p: &(Cut, Cut)) -> (r: (Cut, Cut))
    ensures
        (r.0@, r.1@) == (p.0@, p.1@),
{
    (p.0.clone(), p.1.clone())
}

/// A set of versions: sorted, disjoint, non-touching intervals.
pub struct Range {
    segs: Vec<(Cut, Cut)>,
}

impl View for Range {
    type V = Seq<Seg>;

    closed spec fn view(&self) -> Seq<Seg> {
        seg_views(self.segs@)
    }
}

impl Range {
    #[verifier::type_invariant]
    pub open spec fn well_formed(self) -> bool {
        segs_wf(self@)
    }

    /// Whether the range holds `v`.
    pub open spec fn has(self, v: VersionView) -> bool {
        segs_contain(self@, v)
    }

    fn from_segs(segs: Vec<(Cut, Cut)>) -> (r: Range)
        requires
            segs_wf(seg_views(segs@)),
        ensures
            r@ == seg_views(segs@),
    {
        Range { segs }
    }

    pub fn empty() -> (r: Range)
        ensures
            r@ == Seq::<Seg>::empty(),
            forall|v: VersionView| !r.has(v),
    {
        let r = Range::from_segs(Vec::new());
        proof {
            assert(r@ =~= Seq::<Seg>::empty());
        }
        r
    }

    fn single(lo: Cut, hi: Cut) -> (r: Range)
        requires
            cut_lt(lo@, hi@),
        ensures
            r@ == seq![(lo@, hi@)],
            forall|v: VersionView| r.has(v) <==> in_seg((lo@, hi@), v),
    {
        let ghost seg = (lo@, hi@);
        let mut segs: Vec<(Cut, Cut)> = Vec::new();
        segs.push((lo, hi));
        proof {
            assert(seg_views(segs@) =~= seq![seg]);
        }
        let r = Range::from_segs(segs);
        proof {
            assert forall|v: VersionView| r.has(v) <==> in_seg(seg, v) by {
                if r.has(v) {
                    let i = choose|i: int| 0 <= i < r@.len() && #[trigger] in_seg(r@[i], v);
                    assert(i == 0);
                }
                if in_seg(seg, v) {
                    assert(in_seg(r@[0], v));
                }
            }
        }
        r
    }

    /// Every version.
    pub fn any() -> (r: Range)
        ensures
            r@ == seq![(CutView::NegInf, CutView::PosInf)],
            forall|v: VersionView| r.has(v),
    {
        proof {
            lemma_cut_ends(CutView::NegInf);
        }
        let r = Range::single(Cut::NegInf, Cut::PosInf);
        proof {
            assert forall|v: VersionView| r.has(v) by {
                lemma_cut_ends(before(v));
                lemma_cut_ends(after(v));
            }
        }
        r
    }

    /// Exactly `v`.
    pub fn exact(v: Version) -> (r: Range)
        ensures
            r@ == seq![(before(v@), after(v@))],
            forall|w: VersionView| r.has(w) <==> version_compare(w, v@) == Order::Equal,
    {
        let ghost vv = v@;
        proof {
            lemma_cut_split(before(vv), vv);
        }
        let lo = Cut::Fin(v.clone(), false);
        let r = Range::single(lo, Cut::Fin(v, true));
        proof {
            assert forall|w: VersionView| r.has(w) <==> version_compare(w, vv) == Order::Equal by {
                reveal(cut_compare);
                version_order_laws(w, vv, w);
            }
        }
        r
    }

    /// `>= v`
    pub fn at_least(v: Version) -> (r: Range)
        ensures
            r@ == seq![(before(v@), CutView::PosInf)],
            forall|w: VersionView| r.has(w) <==> version_compare(w, v@) != Order::Less,
    {
        let ghost vv = v@;
        proof {
            lemma_cut_ends(before(vv));
        }
        let r = Range::single(Cut::Fin(v, false), Cut::PosInf);
        proof {
            assert forall|w: VersionView| r.has(w) <==> version_compare(w, vv) != Order::Less by {
                reveal(cut_compare);
                version_order_laws(w, vv, w);
            }
        }
        r
    }

    /// `> v`
    pub fn greater(v: Version) -> (r: Range)
        ensures
            r@ == seq![(after(v@), CutView::PosInf)],
            forall|w: VersionView| r.has(w) <==> version_compare(w, v@) == Order::Greater,
    {
        let ghost vv = v@;
        proof {
            lemma_cut_ends(after(vv));
        }
        let r = Range::single(Cut::Fin(v, true), Cut::PosInf);
        proof {
            assert forall|w: VersionView| r.has(w) <==> version_compare(w, vv) == Order::Greater by {
                reveal(cut_compare);
                version_order_laws(w, vv, w);
            }
        }
        r
    }

    /// `<= v`
    pub fn at_most(v: Version) -> (r: Range)
        ensures
            r@ == seq![(CutView::NegInf, after(v@))],
            forall|w: VersionView| r.has(w) <==> version_compare(w, v@) != Order::Greater,
    {
        let ghost vv = v@;
        proof {
            lemma_cut_ends(after(vv));
        }
        let r = Range::single(Cut::NegInf, Cut::Fin(v, true));
        proof {
            assert forall|w: VersionView| r.has(w) <==> version_compare(w, vv) != Order::Greater by {
                reveal(cut_compare);
                version_order_laws(w, vv, w);
            }
        }
        r
    }

    /// `< v`
    pub fn less(v: Version) -> (r: Range)
        ensures
            r@ == seq![(CutView::NegInf, before(v@))],
            forall|w: VersionView| r.has(w) <==> version_compare(w, v@) == Order::Less,
    {
        let ghost vv = v@;
        proof {
            lemma_cut_ends(before(vv));
        }
        let r = Range::single(Cut::NegInf, Cut::Fin(v, false));
        proof {
            assert forall|w: VersionView| r.has(w) <==> version_compare(w, vv) == Order::Less by {
                reveal(cut_compare);
                version_order_laws(w, vv, w);
            }
        }
        r
    }

    /// `>= low, < high`; empty when `high` is not above `low`.
    pub fn between(low: Version, high: Version) -> (r: Range)
        ensures
            r@ == (if cut_lt(before(low@), before(high@)) {
                seq![(before(low@), before(high@))]
            } else {
                Seq::empty()
            }),
            forall|w: VersionView|
                r.has(w) <==> (version_compare(w, low@) != Order::Less && version_compare(w, high@)
                    == Order::Less),
    {
        let ghost (lv, hv) = (low@, high@);
        let lo = Cut::Fin(low, false);
        let hi = Cut::Fin(high, false);
        if cut_less(&lo, &hi) {
            let r = Range::single(lo, hi);
            proof {
                assert forall|w: VersionView|
                    r.has(w) <==> (version_compare(w, lv) != Order::Less && version_compare(w, hv)
                        == Order::Less) by {
                    reveal(cut_compare);
                    version_order_laws(w, lv, w);
                    version_order_laws(w, hv, w);
                }
            }
            r
        } else {
            let r = Range::empty();
            proof {
                assert forall|w: VersionView|
                    !(version_compare(w, lv) != Order::Less && version_compare(w, hv) == Order::Less) by {
                    reveal(cut_compare);
                    version_order_laws(lv, w, hv);
                    version_order_laws(w, lv, w);
                    version_order_laws(hv, lv, hv);
                }
            }
            r
        }
    }

    /// Whether the range has no intervals at all.
    pub fn is_empty(&self) -> (r: bool)
        ensures
            r == (self@.len() == 0),
            r ==> forall|v: VersionView| !self.has(v),
    {
        self.segs.len() == 0
    }

    pub fn contains(&self, v: &Version) -> (r: bool)
        ensures
            r == self.has(v@),
    {
        let b = Cut::Fin(v.clone(), false);
        let a = Cut::Fin(v.clone(), true);
        let mut i: usize = 0;
        while i < self.segs.len()
            invariant
                i <= self.segs@.len(),
                b@ == before(v@),
                a@ == after(v@),
                forall|j: int| 0 <= j < i ==> !in_seg(#[trigger] self@[j], v@),
            decreases self.segs@.len() - i,
        {
            let (lo, hi) = &self.segs[i];
            proof {
                assert(self@[i as int] == (lo@, hi@));
            }
            if cut_leq(lo, &b) && cut_leq(&a, hi) {
                proof {
                    assert(in_seg(self@[i as int], v@));
                }
                return true;
            }
            i = i + 1;
        }
        false
    }

    pub fn complement(&self) -> (r: Range)
        ensures
            r@ == segs_complement(self@),
            forall|v: VersionView| r.has(v) <==> !self.has(v),
    {
        proof {
            use_type_invariant(self);
            lemma_complement(self@);
            assert(self@.skip(0) =~= self@);
        }
        let mut out: Vec<(Cut, Cut)> = Vec::new();
        let mut cursor = Cut::NegInf;
        let mut i: usize = 0;
        while i < self.segs.len()
            invariant
                i <= self.segs@.len(),
                seg_views(out@) + complement_from(self@.skip(i as int), cursor@) == segs_complement(
                    self@,
                ),
            decreases self.segs@.len() - i,
        {
            let (lo, hi) = &self.segs[i];
            let ghost rest = self@.skip(i as int);
            proof {
                assert(rest[0] == (lo@, hi@));
                assert(rest.drop_first() =~= self@.skip(i + 1));
            }
            if cut_less(&cursor, lo) {
                let ghost old_out = seg_views(out@);
                out.push((cursor.clone(), lo.clone()));
                proof {
                    assert(seg_views(out@) =~= old_out.push((cursor@, lo@)));
                    assert(seg_views(out@) + complement_from(self@.skip(i + 1), hi@) =~= old_out
                        + complement_from(rest, cursor@));
                }
            } else {
                proof {
                    assert(complement_from(rest, cursor@) =~= complement_from(self@.skip(i + 1), hi@));
                }
            }
            cursor = hi.clone();
            i = i + 1;
        }
        proof {
            assert(self@.skip(i as int) =~= Seq::<Seg>::empty());
        }
        if cut_less(&cursor, &Cut::PosInf) {
            let ghost old_out = seg_views(out@);
            let ghost c = cursor@;
            out.push((cursor, Cut::PosInf));
            proof {
                assert(seg_views(out@) =~= old_out + seq![(c, CutView::PosInf)]);
            }
        } else {
            proof {
                assert(seg_views(out@) =~= segs_complement(self@));
            }
        }
        Range::from_segs(out)
    }

    pub fn union(&self, other: &Range) -> (r: Range)
        ensures
            r@ == segs_union(self@, other@),
            forall|v: VersionView| r.has(v) <==> (self.has(v) || other.has(v)),
    {
        proof {
            use_type_invariant(self);
            use_type_invariant(other);
            lemma_union(self@, other@);
        }
        let all = merge_segs(&self.segs, &other.segs);
        let ghost m = merge(self@, other@);
        let mut out: Vec<(Cut, Cut)> = Vec::new();
        let mut k: usize = 0;
        while k < all.len()
            invariant
                k <= all@.len(),
                seg_views(all@) == m,
                seg_views(out@) == coalesce(m.take(k as int)),
            decreases all@.len() - k,
        {
            let (lo, hi) = &all[k];
            proof {
                assert(m[k as int] == (lo@, hi@));
                assert(m.take(k + 1).drop_last() =~= m.take(k as int));
                assert(m.take(k + 1).last() == (lo@, hi@));
            }
            let ghost prev = seg_views(out@);
            let n = out.len();
            if n > 0 && cut_leq(lo, &out[n - 1].1) {
                proof {
                    assert(prev.last() == (out@[n - 1].0@, out@[n - 1].1@));
                }
                if cut_less(&out[n - 1].1, hi) {
                    let (l0, _) = out.pop().unwrap();
                    out.push((l0, hi.clone()));
                    proof {
                        assert(seg_views(out@) =~= prev.update(prev.len() - 1, (prev.last().0, hi@)));
                    }
                }
            } else {
                out.push(clone_seg(&all[k]));
                proof {
                    assert(seg_views(out@) =~= prev.push((lo@, hi@)));
                }
            }
            k = k + 1;
        }
        proof {
            assert(m.take(all@.len() as int) =~= m);
        }
        Range::from_segs(out)
    }

    pub fn intersect(&self, other: &Range) -> (r: Range)
        ensures
            r@ == segs_intersect(self@, other@),
            forall|v: VersionView| r.has(v) <==> (self.has(v) && other.has(v)),
    {
        proof {
            use_type_invariant(self);
            use_type_invariant(other);
            lemma_intersect(self@, other@);
            assert(self@.skip(0) =~= self@);
            assert(other@.skip(0) =~= other@);
        }
        let mut out: Vec<(Cut, Cut)> = Vec::new();
        let mut i: usize = 0;
        let mut j: usize = 0;
        while i < self.segs.len() && j < other.segs.len()
            invariant
                i <= self.segs@.len(),
                j <= other.segs@.len(),
                seg_views(out@) + segs_intersect(self@.skip(i as int), other@.skip(j as int))
                    == segs_intersect(self@, other@),
            decreases self.segs@.len() - i + other.segs@.len() - j,
        {
            let (al, ah) = &self.segs[i];
            let (bl, bh) = &other.segs[j];
            let ghost a = self@.skip(i as int);
            let ghost b = other@.skip(j as int);
            proof {
                assert(a[0] == (al@, ah@));
                assert(b[0] == (bl@, bh@));
                assert(a.drop_first() =~= self@.skip(i + 1));
                assert(b.drop_first() =~= other@.skip(j + 1));
            }
            let lo = if cut_leq(al, bl) {
                bl.clone()
            } else {
                al.clone()
            };
            let hi = if cut_leq(ah, bh) {
                ah.clone()
            } else {
                bh.clone()
            };
            let ghost prev = seg_views(out@);
            if cut_less(&lo, &hi) {
                let ghost seg = (lo@, hi@);
                out.push((lo, hi));
                proof {
                    assert(seg_views(out@) =~= prev.push(seg));
                }
            }
            if cut_leq(ah, bh) {
                i = i + 1;
            } else {
                j = j + 1;
            }
            proof {
                assert(seg_views(out@) + segs_intersect(self@.skip(i as int), other@.skip(j as int))
                    =~= prev + segs_intersect(a, b));
            }
        }
        proof {
            assert(segs_intersect(self@.skip(i as int), other@.skip(j as int)) =~= Seq::<Seg>::empty());
            assert(seg_views(out@) =~= segs_intersect(self@, other@));
        }
        Range::from_segs(out)
    }

    /// Whether two ranges hold the same intervals, cut for cut.
    pub fn same_as(&self, other: &Range) -> (r: bool)
        ensures
            r == (self@ == other@),
    {
        if self.segs.len() != other.segs.len() {
            proof {
                assert(self@.len() != other@.len());
            }
            return false;
        }
        let mut i: usize = 0;
        while i < self.segs.len()
            invariant
                i <= self.segs@.len(),
                self.segs@.len() == other.segs@.len(),
                forall|j: int| 0 <= j < i ==> self@[j] == other@[j],
            decreases self.segs@.len() - i,
        {
            let (a0, a1) = &self.segs[i];
            let (b0, b1) = &other.segs[i];
            proof {
                assert(self@[i as int] == (a0@, a1@));
                assert(other@[i as int] == (b0@, b1@));
            }
            if !cut_same(a0, b0) || !cut_same(a1, b1) {
                return false;
            }
            i = i + 1;
        }
        proof {
            assert(self@ =~= other@);
        }
        true
    }
}

impl Clone for Range {
    fn clone(&self) -> (r: Self)
        ensures
            r@ == self@,
    {
        proof {
            use_type_invariant(self);
        }
        let mut segs: Vec<(Cut, Cut)> = Vec::new();
        let mut i: usize = 0;
        while i < self.segs.len()
            invariant
                i <= self.segs@.len(),
                seg_views(segs@) == self@.take(i as int),
            decreases self.segs@.len() - i,
        {
            let ghost prev = seg_views(segs@);
            let p = clone_seg(&self.segs[i]);
            segs.push(p);
            proof {
                assert(self@[i as int] == (self.segs@[i as int].0@, self.segs@[i as int].1@));
                assert(seg_views(segs@) =~= prev.push(self@[i as int]));
                assert(seg_views(segs@) =~= self@.take(i + 1));
            }
            i = i + 1;
        }
        proof {
            assert(self@.take(self@.len() as int) =~= self@);
        }
        Range::from_segs(segs)
    }
}

/// The intervals of `a` and `b` merged by lower cut, `a`'s first on ties.
fn merge_segs(a: &Vec<(Cut, Cut)>, b: &Vec<(Cut, Cut)>) -> (r: Vec<(Cut, Cut)>)
    ensures
        seg_views(r@) == merge(seg_views(a@), seg_views(b@)),
{
    let ghost av = seg_views(a@);
    let ghost bv = seg_views(b@);
    let mut out: Vec<(Cut, Cut)> = Vec::new();
    let mut i: usize = 0;
    let mut j: usize = 0;
    proof {
        assert(av.skip(0) =~= av);
        assert(bv.skip(0) =~= bv);
        assert(seg_views(out@) + merge(av, bv) =~= merge(av, bv));
    }
    while i < a.len() || j < b.len()
        invariant
            i <= a@.len(),
            j <= b@.len(),
            av == seg_views(a@),
            bv == seg_views(b@),
            seg_views(out@) + merge(av.skip(i as int), bv.skip(j as int)) == merge(av, bv),
        decreases a@.len() - i + b@.len() - j,
    {
        let ghost ra = av.skip(i as int);
        let ghost rb = bv.skip(j as int);
        let ghost prev = seg_views(out@);
        if j == b.len() || (i < a.len() && cut_leq(&a[i].0, &b[j].0)) {
            proof {
                assert(ra[0] == av[i as int]);
                assert(ra.drop_first() =~= av.skip(i + 1));
                if j < b.len() {
                    assert(rb[0] == bv[j as int]);
                } else {
                    assert(rb =~= Seq::<Seg>::empty());
                    assert(ra =~= seq![ra[0]] + ra.drop_first());
                }
                assert(merge(ra, rb) =~= seq![ra[0]] + merge(av.skip(i + 1), rb));
            }
            out.push(clone_seg(&a[i]));
            proof {
                assert(seg_views(out@) =~= prev.push(av[i as int]));
                assert(seg_views(out@) + merge(av.skip(i + 1), rb) =~= prev + merge(ra, rb));
            }
            i = i + 1;
        } else {
            proof {
                assert(rb[0] == bv[j as int]);
                assert(rb.drop_first() =~= bv.skip(j + 1));
                if i < a.len() {
                    assert(ra[0] == av[i as int]);
                } else {
                    assert(ra =~= Seq::<Seg>::empty());
                    assert(rb =~= seq![rb[0]] + rb.drop_first());
                }
                assert(merge(ra, rb) =~= seq![rb[0]] + merge(ra, bv.skip(j + 1)));
            }
            out.push(clone_seg(&b[j]));
            proof {
                assert(seg_views(out@) =~= prev.push(bv[j as int]));
                assert(seg_views(out@) + merge(ra, bv.skip(j + 1)) =~= prev + merge(ra, rb));
            }
            j = j + 1;
        }
    }
    proof {
        assert(av.skip(i as int) =~= Seq::<Seg>::empty());
        assert(bv.skip(j as int) =~= Seq::<Seg>::empty());
        assert(seg_views(out@) =~= merge(av, bv));
    }
    out
}


/// Whether an interval is the single version `lo->0`: `[v, v]`.
pub open spec fn is_point(lo: CutView, hi: CutView) -> bool {
    &&& lo is Fin
    &&& hi is Fin
    &&& !lo->1
    &&& hi->1
    &&& lo->0 == hi->0
}

/// The lower bound of an interval as text, if it has one.
pub open spec fn lower_text(lo: CutView) -> Option<Seq<char>> {
    match lo {
        CutView::NegInf => None,
        CutView::Fin(v, false) => Some(">="@ + version_text(v)),
        CutView::Fin(v, true) => Some(">"@ + version_text(v)),
        CutView::PosInf => Some("<nothing>"@),
    }
}

/// The upper bound of an interval as text, if it has one.
pub open spec fn upper_text(hi: CutView) -> Option<Seq<char>> {
    match hi {
        CutView::PosInf => None,
        CutView::Fin(v, true) => Some("<="@ + version_text(v)),
        CutView::Fin(v, false) => Some("<"@ + version_text(v)),
        CutView::NegInf => Some("<nothing>"@),
    }
}

/// The text of a bound at a release reads back, as a comparator, as exactly the
/// versions on the admitted side of that bound: `>=v` from `v` up, `>v` above
/// `v` only, `<=v` up to `v` included, `<v` below `v` only.
pub proof fn law_bound_text_reads_back(v: VersionView, w: VersionView, inclusive_end: bool)
    requires
        v.pre.len() == 0,
    ensures
        lower_text(CutView::Fin(v, inclusive_end)) matches Some(t) && crate::constraint::parse_comparator_spec(t)
            matches Ok(g) && segs_wf(g) && (segs_contain(g, w) <==> in_seg((CutView::Fin(v, inclusive_end), CutView::PosInf), w)),
        upper_text(CutView::Fin(v, inclusive_end)) matches Some(t) && crate::constraint::parse_comparator_spec(t)
            matches Ok(g) && segs_wf(g) && (segs_contain(g, w) <==> in_seg((CutView::NegInf, CutView::Fin(v, inclusive_end)), w)),
{
    let p = (v.major, Some(v.minor), Some(v.patch));
    crate::constraint::lemma_release_text_partial(v);
    crate::constraint::law_comparators(version_text(v), p, w);
    reveal(cut_compare);
    version_order_laws(w, v, w);
    lemma_cut_ends(before(w));
    lemma_cut_ends(after(w));
}

/// Whether a cut is an end of the line or sits at a release.
pub open spec fn release_cut(c: CutView) -> bool {
    c is Fin ==> c->0.pre.len() == 0
}

/// A release's text, after at most two visible characters other than a comma
/// or a bar, is one plain token.
#[verifier::spinoff_prover]
proof fn lemma_release_token(op: Seq<char>, v: VersionView)
    requires
        v.pre.len() == 0,
        op.len() <= 2,
        forall|i: int| 0 <= i < op.len() ==> !crate::text::is_ws(#[trigger] op[i]) && op[i] != ',' && op[i] != '|',
    ensures
        crate::constraint::plain_token(op + version_text(v)),
{
    crate::version::lemma_release_text_chars(v);
    reveal_strlit(">=");
    reveal_strlit(">");
    reveal_strlit("<=");
    reveal_strlit("<");
    reveal_strlit("=");
    let vt = version_text(v);
    let t = op + vt;
    assert(t.len() > 2);
    assert(!crate::constraint::is_operator(t)) by {
        assert(">="@.len() == 2 && ">"@.len() == 1 && "<="@.len() == 2 && "<"@.len() == 1 && "="@.len() == 1);
    }
    assert forall|i: int| 0 <= i < t.len() implies !crate::text::is_ws(#[trigger] t[i]) && t[i] != ','
        && t[i] != '|' by {
        if i < op.len() {
            assert(t[i] == op[i]);
        } else {
            assert(t[i] == vt[i - op.len()]);
        }
    }
}

/// The bounds of a cut at a release are plain tokens.
proof fn lemma_bound_tokens(c: CutView)
    requires
        c is Fin,
        release_cut(c),
    ensures
        lower_text(c) matches Some(t) && crate::constraint::plain_token(t),
        upper_text(c) matches Some(t) && crate::constraint::plain_token(t),
{
    reveal_strlit(">=");
    reveal_strlit(">");
    reveal_strlit("<=");
    reveal_strlit("<");
    let v = c->0;
    if c->1 {
        lemma_release_token(">"@, v);
        lemma_release_token("<="@, v);
    } else {
        lemma_release_token(">="@, v);
        lemma_release_token("<"@, v);
    }
}

/// A constraint of one plain comparator reads as that comparator's range.
proof fn lemma_single_text(t: Seq<char>, g: Seq<Seg>, w: VersionView)
    requires
        crate::constraint::plain_token(t),
        crate::constraint::parse_comparator_spec(t) == Ok::<Seq<Seg>, Seq<char>>(g),
        segs_wf(g),
    ensures
        crate::constraint::parse_constraint(t) matches Ok(r) && segs_wf(r) && (segs_contain(r, w)
            == segs_contain(g, w)),
{
    crate::constraint::lemma_token_reads(t);
    let whole = seq![(CutView::NegInf, CutView::PosInf)];
    assert(seq![t].drop_last() =~= Seq::<Seq<char>>::empty());
    assert(seq![t].last() == t);
    assert(crate::constraint::intersect_all(Seq::<Seq<char>>::empty()) == Ok::<Seq<Seg>, Seq<char>>(whole));
    assert(crate::constraint::intersect_all(seq![t]) == Ok::<Seq<Seg>, Seq<char>>(segs_intersect(whole, g)));
    lemma_whole_meet(g, w);
}

/// Two plain comparators joined by a comma read as the meet of their ranges.
proof fn lemma_pair_text(a: Seq<char>, ga: Seq<Seg>, b: Seq<char>, gb: Seq<Seg>, w: VersionView)
    requires
        crate::constraint::plain_token(a),
        crate::constraint::plain_token(b),
        crate::constraint::parse_comparator_spec(a) == Ok::<Seq<Seg>, Seq<char>>(ga),
        crate::constraint::parse_comparator_spec(b) == Ok::<Seq<Seg>, Seq<char>>(gb),
        segs_wf(ga),
        segs_wf(gb),
    ensures
        crate::constraint::parse_constraint(a + ", "@ + b) matches Ok(r) && segs_wf(r) && (segs_contain(r, w)
            == (segs_contain(ga, w) && segs_contain(gb, w))),
{
    crate::constraint::lemma_pair_reads(a, b);
    let whole = seq![(CutView::NegInf, CutView::PosInf)];
    assert(seq![a, b].drop_last() =~= seq![a]);
    assert(seq![a].drop_last() =~= Seq::<Seq<char>>::empty());
    assert(seq![a].last() == a);
    assert(seq![a, b].last() == b);
    assert(crate::constraint::intersect_all(Seq::<Seq<char>>::empty()) == Ok::<Seq<Seg>, Seq<char>>(whole));
    assert(crate::constraint::intersect_all(seq![a]) == Ok::<Seq<Seg>, Seq<char>>(segs_intersect(whole, ga)));
    lemma_whole_meet(ga, w);
    let m = segs_intersect(whole, ga);
    lemma_intersect(m, gb);
}

/// Meeting the whole line changes no range.
proof fn lemma_whole_meet(g: Seq<Seg>, w: VersionView)
    requires
        segs_wf(g),
    ensures
        segs_wf(segs_intersect(seq![(CutView::NegInf, CutView::PosInf)], g)),
        segs_contain(segs_intersect(seq![(CutView::NegInf, CutView::PosInf)], g), w) == segs_contain(g, w),
{
    let whole = seq![(CutView::NegInf, CutView::PosInf)];
    lemma_cut_ends(CutView::NegInf);
    lemma_cut_ends(before(w));
    lemma_cut_ends(after(w));
    assert(segs_wf(whole));
    assert(in_seg(whole[0], w));
    lemma_intersect(whole, g);
}

/// The text of a single release reads back as exactly that release.
#[verifier::spinoff_prover]
proof fn lemma_point_text(v: VersionView, w: VersionView)
    requires
        v.pre.len() == 0,
    ensures
        crate::constraint::parse_constraint(seg_text(before(v), after(v))) matches Ok(g) && segs_wf(g) && (
            segs_contain(g, w) <==> in_seg((before(v), after(v)), w)),
{
    let p = (v.major, Some(v.minor), Some(v.patch));
    crate::constraint::lemma_release_text_partial(v);
    crate::constraint::law_comparators(version_text(v), p, w);
    reveal_strlit("=");
    lemma_release_token("="@, v);
    let t = "="@ + version_text(v);
    assert(seg_text(before(v), after(v)) == t);
    lemma_single_text(t, crate::constraint::parse_comparator_spec(t)->Ok_0, w);
    lemma_point_seg(v, w);
}

/// A version lies between the two cuts of `v` exactly when it sorts equal to `v`.
proof fn lemma_point_seg(v: VersionView, w: VersionView)
    ensures
        in_seg((before(v), after(v)), w) <==> version_compare(w, v) == Order::Equal,
{
    reveal(cut_compare);
    version_order_laws(w, v, w);
}

/// The text of an interval bounded on both sides reads back as its versions.
#[verifier::spinoff_prover]
proof fn lemma_both_text(lo: CutView, hi: CutView, w: VersionView)
    requires
        lo is Fin,
        hi is Fin,
        release_cut(lo),
        release_cut(hi),
        !is_point(lo, hi),
    ensures
        crate::constraint::parse_constraint(seg_text(lo, hi)) matches Ok(g) && segs_wf(g) && (
            segs_contain(g, w) <==> in_seg((lo, hi), w)),
{
    lemma_cut_ends(before(w));
    lemma_cut_ends(after(w));
    lemma_bound_tokens(lo);
    lemma_bound_tokens(hi);
    law_bound_text_reads_back(lo->0, w, lo->1);
    law_bound_text_reads_back(hi->0, w, hi->1);
    let l = lower_text(lo)->0;
    let h = upper_text(hi)->0;
    assert(seg_text(lo, hi) == l + ", "@ + h);
    lemma_pair_text(
        l,
        crate::constraint::parse_comparator_spec(l)->Ok_0,
        h,
        crate::constraint::parse_comparator_spec(h)->Ok_0,
        w,
    );
}

/// The text of an interval bounded below only reads back as its versions.
#[verifier::spinoff_prover]
proof fn lemma_lower_only_text(lo: CutView, w: VersionView)
    requires
        lo is Fin,
        release_cut(lo),
    ensures
        crate::constraint::parse_constraint(seg_text(lo, CutView::PosInf)) matches Ok(g) && segs_wf(g) && (
            segs_contain(g, w) <==> in_seg((lo, CutView::PosInf), w)),
{
    lemma_bound_tokens(lo);
    law_bound_text_reads_back(lo->0, w, lo->1);
    let l = lower_text(lo)->0;
    assert(seg_text(lo, CutView::PosInf) == l);
    lemma_single_text(l, crate::constraint::parse_comparator_spec(l)->Ok_0, w);
}

/// The text of an interval bounded above only reads back as its versions.
#[verifier::spinoff_prover]
proof fn lemma_upper_only_text(hi: CutView, w: VersionView)
    requires
        hi is Fin,
        release_cut(hi),
    ensures
        crate::constraint::parse_constraint(seg_text(CutView::NegInf, hi)) matches Ok(g) && segs_wf(g) && (
            segs_contain(g, w) <==> in_seg((CutView::NegInf, hi), w)),
{
    lemma_bound_tokens(hi);
    law_bound_text_reads_back(hi->0, w, hi->1);
    let h = upper_text(hi)->0;
    assert(seg_text(CutView::NegInf, hi) == h);
    lemma_single_text(h, crate::constraint::parse_comparator_spec(h)->Ok_0, w);
}

/// A nonempty interval has its lower end below the top and its upper end above the bottom.
proof fn lemma_seg_ends(lo: CutView, hi: CutView)
    requires
        cut_lt(lo, hi),
    ensures
        lo != CutView::PosInf,
        hi != CutView::NegInf,
{
    reveal(cut_compare);
}

/// Between two releases, the interval from one up to, not including, the
/// other is that interval alone.
proof fn lemma_between_releases(a: VersionView, b: VersionView)
    requires
        cut_lt(before(a), before(b)),
    ensures
        crate::constraint::between_segs(a, b) == seq![(before(a), before(b))],
{
}

/// The friendly text of a single version, a caret shape or a tilde shape
/// reads back as exactly that interval.
#[verifier::spinoff_prover]
proof fn lemma_friendly_shapes(lo: CutView, hi: CutView, w: VersionView)
    requires
        cut_lt(lo, hi),
        release_cut(lo),
        release_cut(hi),
        friendly_text(seq![(lo, hi)]) != range_text(seq![(lo, hi)]),
    ensures
        crate::constraint::parse_constraint(friendly_text(seq![(lo, hi)])) matches Ok(g) && segs_wf(g) && (
            segs_contain(g, w) <==> in_seg((lo, hi), w)),
{
    reveal_strlit("^");
    reveal_strlit("~");
    let s = seq![(lo, hi)];
    assert(s[0] == (lo, hi));
    lemma_cut_ends(before(w));
    lemma_cut_ends(after(w));
    lemma_seg_ends(lo, hi);
    let a = lo->0;
    let p = (a.major, Some(a.minor), Some(a.patch));
    crate::constraint::lemma_release_text_partial(a);
    crate::constraint::lemma_shorthand_comparators(version_text(a), p);
    assert(segs_wf(s));
    if is_point(lo, hi) {
        let t = version_text(a);
        assert(friendly_text(s) == t);
        lemma_release_token(Seq::<char>::empty(), a);
        assert(Seq::<char>::empty() + t =~= t);
        assert(crate::constraint::parse_comparator_spec(t) == Ok::<Seq<Seg>, Seq<char>>(s)) by {
            assert(crate::constraint::loose(p) == a);
        }
        lemma_single_text(t, s, w);
    } else {
        let b = hi->0;
        assert(b.pre.len() == 0);
        assert(release((b.major, b.minor, b.patch)) == b) by {
            assert(release((b.major, b.minor, b.patch)).pre =~= b.pre);
        }
        assert(crate::constraint::plain(a.major, a.minor, a.patch) == a) by {
            assert(crate::constraint::plain(a.major, a.minor, a.patch).pre =~= a.pre);
        }
        lemma_between_releases(a, b);
        if caret_upper(a) == Some((b.major, b.minor, b.patch)) {
            let t = "^"@ + version_text(a);
            assert(friendly_text(s) == t);
            lemma_release_token("^"@, a);
            assert(crate::constraint::caret_spec(version_text(a), p) == Ok::<Seq<Seg>, Seq<char>>(s));
            lemma_single_text(t, s, w);
        } else {
            let t = "~"@ + version_text(a);
            assert(friendly_text(s) == t);
            lemma_release_token("~"@, a);
            assert(crate::constraint::tilde_spec(version_text(a), p) == Ok::<Seq<Seg>, Seq<char>>(s));
            lemma_single_text(t, s, w);
        }
    }
    if in_seg((lo, hi), w) {
        assert(segs_contain(s, w));
    }
}

/// The interval text of a point, of a lower bound alone, of an upper bound
/// alone, or of both, reads back as exactly the interval's versions.
proof fn lemma_seg_text_reads_back(lo: CutView, hi: CutView, w: VersionView)
    requires
        cut_lt(lo, hi),
        release_cut(lo),
        release_cut(hi),
        !(lo == CutView::NegInf && hi == CutView::PosInf),
    ensures
        crate::constraint::parse_constraint(seg_text(lo, hi)) matches Ok(g) && segs_wf(g) && (
            segs_contain(g, w) <==> in_seg((lo, hi), w)),
{
    lemma_seg_ends(lo, hi);
    if is_point(lo, hi) {
        lemma_point_text(lo->0, w);
        assert(lo == before(lo->0) && hi == after(lo->0));
    } else if lo is Fin && hi is Fin {
        lemma_both_text(lo, hi, w);
    } else if lo is Fin {
        lemma_lower_only_text(lo, w);
    } else {
        lemma_upper_only_text(hi, w);
    }
}

/// A single interval between ends at releases prints as text that reads back
/// as exactly its versions: an exclusive bound stays exclusive and an
/// inclusive one inclusive.
pub proof fn law_interval_text_reads_back(lo: CutView, hi: CutView, w: VersionView)
    requires
        cut_lt(lo, hi),
        release_cut(lo),
        release_cut(hi),
    ensures
        crate::constraint::parse_constraint(range_text(seq![(lo, hi)])) matches Ok(g) && segs_wf(g) && (
            segs_contain(g, w) <==> in_seg((lo, hi), w)),
{
    reveal_strlit("*");
    let s = seq![(lo, hi)];
    if lo == CutView::NegInf && hi == CutView::PosInf {
        lemma_cut_ends(before(w));
        lemma_cut_ends(after(w));
        assert(range_text(s) == "*"@);
        crate::constraint::law_star_holds_every_version(w);
        let star = crate::constraint::star_segs();
        lemma_cut_ends(before(crate::version::least_version()));
        assert(segs_wf(star));
        lemma_star_token();
        lemma_single_text("*"@, star, w);
        assert(in_seg(s[0], w));
    } else {
        let texts = s.map_values(|p: Seg| seg_text(p.0, p.1));
        assert(texts =~= seq![seg_text(lo, hi)]);
        assert(range_text(s) == seg_text(lo, hi));
        lemma_seg_text_reads_back(lo, hi, w);
    }
}

/// `*` is a plain token.
#[verifier::spinoff_prover]
proof fn lemma_star_token()
    ensures
        crate::constraint::plain_token("*"@),
{
    reveal_strlit("*");
    reveal_strlit(">=");
    reveal_strlit(">");
    reveal_strlit("<=");
    reveal_strlit("<");
    reveal_strlit("=");
    let t = "*"@;
    assert(t.len() == 1 && t[0] == '*');
    assert(t != ">"@) by {
        assert(t[0] != ">"@[0]);
    }
    assert(t != "<"@) by {
        assert(t[0] != "<"@[0]);
    }
    assert(t != "="@) by {
        assert(t[0] != "="@[0]);
    }
    assert(t != ">="@ && t != "<="@) by {
        assert(">="@.len() == 2 && "<="@.len() == 2);
    }
    assert(!crate::constraint::is_operator(t));
    assert forall|i: int| 0 <= i < t.len() implies !crate::text::is_ws(#[trigger] t[i]) && t[i] != ',' && t[i]
        != '|' by {
        assert(i == 0);
    }
}

/// A text that starts and ends with a visible character and has no bar.
pub open spec fn lone_alternative(t: Seq<char>) -> bool {
    &&& t.len() > 0
    &&& !crate::text::is_ws(t[0])
    &&& !crate::text::is_ws(t.last())
    &&& crate::text::free_of(t, '|')
}

/// A plain comparator is a lone alternative.
proof fn lemma_token_alternative(t: Seq<char>)
    requires
        crate::constraint::plain_token(t),
    ensures
        lone_alternative(t),
{
    assert(!crate::text::is_ws(t[t.len() - 1]));
}

/// The text of an interval other than the whole line is a lone alternative.
proof fn lemma_seg_text_shape(lo: CutView, hi: CutView)
    requires
        cut_lt(lo, hi),
        release_cut(lo),
        release_cut(hi),
        !(lo == CutView::NegInf && hi == CutView::PosInf),
    ensures
        lone_alternative(seg_text(lo, hi)),
{
    reveal_strlit("=");
    reveal_strlit(", ");
    lemma_seg_ends(lo, hi);
    if is_point(lo, hi) {
        lemma_release_token("="@, lo->0);
        lemma_token_alternative("="@ + version_text(lo->0));
    } else if lo is Fin && hi is Fin {
        lemma_bound_tokens(lo);
        lemma_bound_tokens(hi);
        let l = lower_text(lo)->0;
        let h = upper_text(hi)->0;
        lemma_token_alternative(l);
        lemma_token_alternative(h);
        let t = l + ", "@ + h;
        assert(seg_text(lo, hi) == t);
        assert(t[0] == l[0]);
        assert(t.last() == h.last());
        assert forall|i: int| 0 <= i < t.len() implies #[trigger] t[i] != '|' by {
            if i < l.len() {
                assert(t[i] == l[i]);
            } else if i >= l.len() + 2 {
                assert(t[i] == h[i - l.len() - 2]);
            }
        }
    } else if lo is Fin {
        lemma_bound_tokens(lo);
        lemma_token_alternative(lower_text(lo)->0);
    } else {
        lemma_bound_tokens(hi);
        lemma_token_alternative(upper_text(hi)->0);
    }
}

/// A lone alternative reads as a constraint the way it reads as an alternative.
proof fn lemma_alternative_reads(t: Seq<char>)
    requires
        lone_alternative(t),
    ensures
        crate::constraint::parse_intersection_spec(t) == crate::constraint::parse_constraint(t),
{
    crate::text::lemma_trim_same(t);
    crate::constraint::lemma_no_bars(t);
}

/// Lone alternatives joined by `" || "` split back, after trimming, into those
/// alternatives, whatever whitespace leads the text.
proof fn lemma_bars_pieces(lead: Seq<char>, ts: Seq<Seq<char>>)
    requires
        forall|i: int| 0 <= i < lead.len() ==> crate::text::is_ws(#[trigger] lead[i]),
        ts.len() >= 1,
        forall|k: int| 0 <= k < ts.len() ==> lone_alternative(#[trigger] ts[k]),
    ensures
        crate::text::split_bars(lead + join(ts, " || "@)).len() == ts.len(),
        forall|k: int|
            0 <= k < ts.len() ==> crate::text::trim(#[trigger] crate::text::split_bars(lead + join(ts, " || "@))[k])
                == ts[k],
    decreases ts.len(),
{
    reveal_strlit(" || ");
    let t0 = ts[0];
    assert(lone_alternative(ts[0]));
    let e = Seq::<char>::empty();
    if ts.len() == 1 {
        let x = lead + t0;
        assert(join(ts, " || "@) == t0);
        assert forall|i: int| 0 <= i < x.len() implies #[trigger] x[i] != '|' by {
            if i < lead.len() {
                assert(crate::text::is_ws(lead[i]));
            } else {
                assert(x[i] == t0[i - lead.len()]);
            }
        }
        crate::constraint::lemma_no_bars(x);
        crate::text::lemma_trim_padded(lead, t0, e);
        assert(lead + t0 + e =~= x);
    } else {
        let rest = ts.drop_first();
        assert forall|k: int| 0 <= k < rest.len() implies lone_alternative(#[trigger] rest[k]) by {
            assert(rest[k] == ts[k + 1]);
        }
        let sp = seq![' '];
        lemma_bars_pieces(sp, rest);
        crate::text::lemma_join_first(ts, " || "@);
        let first = lead + t0 + sp;
        let tail = sp + join(rest, " || "@);
        assert(lead + join(ts, " || "@) =~= first + seq!['|', '|'] + tail);
        assert forall|i: int| 0 <= i < first.len() implies #[trigger] first[i] != '|' by {
            if i < lead.len() {
                assert(crate::text::is_ws(lead[i]));
            } else if i < lead.len() + t0.len() {
                assert(first[i] == t0[i - lead.len()]);
            }
        }
        crate::text::lemma_split_bars_first(first, tail);
        crate::text::lemma_trim_padded(lead, t0, sp);
        let ps = crate::text::split_bars(lead + join(ts, " || "@));
        let rs = crate::text::split_bars(tail);
        assert(ps == seq![first] + rs);
        assert forall|k: int| 0 <= k < ts.len() implies crate::text::trim(#[trigger] ps[k]) == ts[k] by {
            if k > 0 {
                assert(ps[k] == rs[k - 1]);
                assert(rest[k - 1] == ts[k]);
            }
        }
    }
}

/// Whether an alternative, trimmed, reads as a well-formed range.
pub open spec fn alternative_reads(t: Seq<char>) -> bool {
    crate::constraint::parse_intersection_spec(crate::text::trim(t)) matches Ok(g) && segs_wf(g)
}

/// The range an alternative reads as, once trimmed.
pub open spec fn alternative_range(t: Seq<char>) -> Seq<Seg> {
    crate::constraint::parse_intersection_spec(crate::text::trim(t))->Ok_0
}

/// The union of the alternatives, when each reads as a well-formed range, is
/// well formed and holds exactly the versions one of them holds.
proof fn lemma_union_all_reads(alts: Seq<Seq<char>>, w: VersionView)
    requires
        alts.len() >= 1,
        forall|k: int| 0 <= k < alts.len() ==> alternative_reads(#[trigger] alts[k]),
    ensures
        crate::constraint::union_all(alts) matches Ok(u) && segs_wf(u) && (segs_contain(u, w) <==> exists|k: int|
            0 <= k < alts.len() && segs_contain(alternative_range(#[trigger] alts[k]), w)),
    decreases alts.len(),
{
    if alts.len() == 1 {
        assert(alternative_reads(alts[0]));
        if segs_contain(alternative_range(alts[0]), w) {
            assert(segs_contain(alternative_range(alts[0]), w));
        }
    } else {
        let init = alts.drop_last();
        let n = alts.len() - 1;
        assert forall|k: int| 0 <= k < init.len() implies alternative_reads(#[trigger] init[k]) by {
            assert(init[k] == alts[k]);
        }
        lemma_union_all_reads(init, w);
        let acc = crate::constraint::union_all(init)->Ok_0;
        assert(alts.last() == alts[n]);
        assert(alternative_reads(alts[n]));
        let r = alternative_range(alts[n]);
        lemma_union(acc, r);
        if segs_contain(acc, w) {
            let k = choose|k: int| 0 <= k < init.len() && segs_contain(alternative_range(#[trigger] init[k]), w);
            assert(init[k] == alts[k]);
            assert(segs_contain(alternative_range(alts[k]), w));
        }
        if segs_contain(r, w) {
            assert(segs_contain(alternative_range(alts[n]), w));
        }
        if exists|k: int| 0 <= k < alts.len() && segs_contain(alternative_range(#[trigger] alts[k]), w) {
            let k = choose|k: int| 0 <= k < alts.len() && segs_contain(alternative_range(#[trigger] alts[k]), w);
            if k < n {
                assert(init[k] == alts[k]);
                assert(segs_contain(alternative_range(init[k]), w));
            }
        }
    }
}

/// In a well-formed range of two or more intervals none is the whole line.
proof fn lemma_part_not_whole(s: Seq<Seg>, k: int)
    requires
        segs_wf(s),
        s.len() >= 2,
        0 <= k < s.len(),
    ensures
        !(s[k].0 == CutView::NegInf && s[k].1 == CutView::PosInf),
{
    reveal(cut_compare);
    if k < s.len() - 1 {
        assert(cut_lt(s[k].1, s[k + 1].0));
    } else {
        assert(cut_lt(s[k - 1].1, s[k].0));
    }
}

/// What one interval of a range contributes to the range's text: a lone
/// alternative that reads back as exactly that interval.
proof fn lemma_part_reads(s: Seq<Seg>, k: int, w: VersionView)
    requires
        segs_wf(s),
        s.len() >= 2,
        0 <= k < s.len(),
        release_cut(s[k].0),
        release_cut(s[k].1),
    ensures
        lone_alternative(seg_text(s[k].0, s[k].1)),
        alternative_reads(seg_text(s[k].0, s[k].1)),
        segs_contain(alternative_range(seg_text(s[k].0, s[k].1)), w) <==> in_seg(s[k], w),
{
    lemma_part_not_whole(s, k);
    assert(cut_lt(s[k].0, s[k].1));
    lemma_seg_text_shape(s[k].0, s[k].1);
    lemma_seg_text_reads_back(s[k].0, s[k].1, w);
    let t = seg_text(s[k].0, s[k].1);
    lemma_alternative_reads(t);
    crate::text::lemma_trim_same(t);
}

/// The text of a range of two or more intervals splits into one alternative
/// per interval, each reading back as exactly its interval.
#[verifier::spinoff_prover]
proof fn lemma_multi_alternatives(s: Seq<Seg>, w: VersionView)
    requires
        segs_wf(s),
        s.len() >= 2,
        forall|i: int| 0 <= i < s.len() ==> release_cut(#[trigger] s[i].0) && release_cut(s[i].1),
    ensures
        crate::constraint::parse_constraint(range_text(s)) == crate::constraint::union_all(
            crate::text::split_bars(range_text(s)),
        ),
        crate::text::split_bars(range_text(s)).len() == s.len(),
        range_text(s).len() > 0,
        !crate::text::is_ws(range_text(s)[0]),
        !crate::text::is_ws(range_text(s).last()),
        forall|k: int|
            0 <= k < s.len() ==> alternative_reads(#[trigger] crate::text::split_bars(range_text(s))[k]) && (
            segs_contain(alternative_range(crate::text::split_bars(range_text(s))[k]), w) <==> in_seg(s[k], w)),
{
    let ts = s.map_values(|p: Seg| seg_text(p.0, p.1));
    assert forall|k: int| 0 <= k < ts.len() implies lone_alternative(#[trigger] ts[k]) by {
        assert(release_cut(s[k].0) && release_cut(s[k].1));
        lemma_part_reads(s, k, w);
    }
    let text = join(ts, " || "@);
    assert(range_text(s) == text);
    let e = Seq::<char>::empty();
    lemma_bars_pieces(e, ts);
    assert(e + text =~= text);
    crate::text::lemma_join_first(ts, " || "@);
    assert(lone_alternative(ts[0]));
    assert(lone_alternative(ts[ts.len() - 1]));
    assert(text[0] == ts[0][0]);
    assert(text == join(ts.drop_last(), " || "@) + " || "@ + ts.last());
    assert(text.last() == ts.last().last());
    crate::text::lemma_trim_same(text);
    let alts = crate::text::split_bars(text);
    assert forall|k: int| 0 <= k < s.len() implies alternative_reads(#[trigger] alts[k]) && (segs_contain(
        alternative_range(alts[k]),
        w,
    ) <==> in_seg(s[k], w)) by {
        assert(release_cut(s[k].0) && release_cut(s[k].1));
        lemma_part_reads(s, k, w);
        assert(crate::text::trim(alts[k]) == ts[k]);
        lemma_trim_same_alt(ts[k]);
    }
}

/// A nonempty well-formed range whose finite ends sit at releases prints as
/// text that reads back as exactly its versions.
pub proof fn law_range_text_reads_back(s: Seq<Seg>, w: VersionView)
    requires
        segs_wf(s),
        s.len() > 0,
        forall|i: int| 0 <= i < s.len() ==> release_cut(#[trigger] s[i].0) && release_cut(s[i].1),
    ensures
        crate::constraint::parse_constraint(range_text(s)) matches Ok(g) && segs_wf(g) && (segs_contain(g, w)
            <==> segs_contain(s, w)),
{
    if s.len() == 1 {
        assert(s =~= seq![(s[0].0, s[0].1)]);
        assert(cut_lt(s[0].0, s[0].1));
        assert(release_cut(s[0].0) && release_cut(s[0].1));
        law_interval_text_reads_back(s[0].0, s[0].1, w);
        if in_seg(s[0], w) {
            assert(segs_contain(s, w));
        }
    } else {
        lemma_multi_alternatives(s, w);
        let alts = crate::text::split_bars(range_text(s));
        assert forall|k: int| 0 <= k < alts.len() implies alternative_reads(#[trigger] alts[k]) by {
            assert(alternative_reads(alts[k]));
        }
        lemma_union_all_reads(alts, w);
        if segs_contain(s, w) {
            let k = choose|k: int| 0 <= k < s.len() && #[trigger] in_seg(s[k], w);
            assert(segs_contain(alternative_range(alts[k]), w));
        }
        if exists|k: int| 0 <= k < alts.len() && segs_contain(alternative_range(#[trigger] alts[k]), w) {
            let k = choose|k: int| 0 <= k < alts.len() && segs_contain(alternative_range(#[trigger] alts[k]), w);
            assert(in_seg(s[k], w));
        }
    }
}

/// The friendly text of a nonempty well-formed range whose finite ends sit at
/// releases reads back as exactly its versions: a shorthand (`^a`, `~a`, a
/// bare version) names the same interval as the bounds it stands for.
pub proof fn law_friendly_text_reads_back(s: Seq<Seg>, w: VersionView)
    requires
        segs_wf(s),
        s.len() > 0,
        forall|i: int| 0 <= i < s.len() ==> release_cut(#[trigger] s[i].0) && release_cut(s[i].1),
    ensures
        crate::constraint::parse_constraint(friendly_text(s)) matches Ok(g) && segs_wf(g) && (segs_contain(
            g,
            w,
        ) <==> segs_contain(s, w)),
{
    law_range_text_reads_back(s, w);
    if s.len() == 1 && friendly_text(s) != range_text(s) {
        assert(s =~= seq![(s[0].0, s[0].1)]);
        assert(cut_lt(s[0].0, s[0].1));
        assert(release_cut(s[0].0) && release_cut(s[0].1));
        lemma_friendly_shapes(s[0].0, s[0].1, w);
        if in_seg(s[0], w) {
            assert(segs_contain(s, w));
        }
    }
}

/// The operators and separators of range text are kept whole on a line.
proof fn lemma_range_literals_line_safe()
    ensures
        line_safe(">="@),
        line_safe(">"@),
        line_safe("<="@),
        line_safe("<"@),
        line_safe("="@),
        line_safe("^"@),
        line_safe("~"@),
        line_safe("*"@),
        line_safe(", "@),
        line_safe(" || "@),
        line_safe("<nothing>"@),
{
    reveal_strlit(">=");
    reveal_strlit(">");
    reveal_strlit("<=");
    reveal_strlit("<");
    reveal_strlit("=");
    reveal_strlit("^");
    reveal_strlit("~");
    reveal_strlit("*");
    reveal_strlit(", ");
    reveal_strlit(" || ");
    reveal_strlit("<nothing>");
}

/// A release's text with an operator before it is kept whole on a line.
proof fn lemma_release_line_safe(op: Seq<char>, v: VersionView)
    requires
        v.pre.len() == 0,
        line_safe(op),
    ensures
        line_safe(op + version_text(v)),
{
    crate::version::lemma_release_text_chars(v);
    let vt = version_text(v);
    assert forall|i: int| 0 <= i < vt.len() implies #[trigger] vt[i] != '#' && vt[i] != '\n' by {
        assert(crate::text::is_digit(vt[i]) || vt[i] == '.');
    }
    lemma_line_safe_concat(op, vt);
}

/// The text of an interval whose finite ends sit at releases is kept whole on a line.
proof fn lemma_seg_text_line_safe(lo: CutView, hi: CutView)
    requires
        release_cut(lo),
        release_cut(hi),
    ensures
        line_safe(seg_text(lo, hi)),
{
    lemma_range_literals_line_safe();
    if lo is Fin {
        lemma_release_line_safe("="@, lo->0);
        lemma_release_line_safe(">="@, lo->0);
        lemma_release_line_safe(">"@, lo->0);
    }
    if hi is Fin {
        lemma_release_line_safe("<="@, hi->0);
        lemma_release_line_safe("<"@, hi->0);
    }
    match (lower_text(lo), upper_text(hi)) {
        (Some(l), Some(h)) => {
            lemma_line_safe_concat(l, ", "@);
            lemma_line_safe_concat(l + ", "@, h);
        },
        _ => {},
    }
}

/// The friendly text of a range whose finite ends sit at releases is kept
/// whole on a line.
pub proof fn lemma_friendly_line_safe(s: Seq<Seg>)
    requires
        forall|i: int| 0 <= i < s.len() ==> release_cut(#[trigger] s[i].0) && release_cut(s[i].1),
    ensures
        line_safe(friendly_text(s)),
{
    lemma_range_literals_line_safe();
    let ts = s.map_values(|p: Seg| seg_text(p.0, p.1));
    assert forall|k: int| 0 <= k < ts.len() implies line_safe(#[trigger] ts[k]) by {
        assert(release_cut(s[k].0) && release_cut(s[k].1));
        lemma_seg_text_line_safe(s[k].0, s[k].1);
    }
    lemma_line_safe_join(ts, " || "@);
    if s.len() == 1 {
        assert(release_cut(s[0].0) && release_cut(s[0].1));
        if s[0].0 is Fin {
            let a = s[0].0->0;
            lemma_release_line_safe(Seq::<char>::empty(), a);
            assert(Seq::<char>::empty() + version_text(a) =~= version_text(a));
            lemma_release_line_safe("^"@, a);
            lemma_release_line_safe("~"@, a);
        }
    }
}

/// The friendly text of a nonempty well-formed range whose finite ends sit at
/// releases is nonempty and starts and ends with visible characters.
pub proof fn lemma_friendly_ends(s: Seq<Seg>)
    requires
        segs_wf(s),
        s.len() > 0,
        forall|i: int| 0 <= i < s.len() ==> release_cut(#[trigger] s[i].0) && release_cut(s[i].1),
    ensures
        friendly_text(s).len() > 0,
        !crate::text::is_ws(friendly_text(s)[0]),
        !crate::text::is_ws(friendly_text(s).last()),
{
    reveal_strlit("*");
    reveal_strlit("^");
    reveal_strlit("~");
    if s.len() >= 2 {
        lemma_multi_alternatives(s, crate::version::least_version());
    } else {
        let lo = s[0].0;
        let hi = s[0].1;
        assert(cut_lt(lo, hi));
        assert(release_cut(lo) && release_cut(hi));
        lemma_seg_ends(lo, hi);
        if friendly_text(s) != range_text(s) {
            let a = lo->0;
            lemma_release_token(Seq::<char>::empty(), a);
            assert(Seq::<char>::empty() + version_text(a) =~= version_text(a));
            lemma_release_token("^"@, a);
            lemma_release_token("~"@, a);
            lemma_token_alternative(version_text(a));
            lemma_token_alternative("^"@ + version_text(a));
            lemma_token_alternative("~"@ + version_text(a));
        } else if lo == CutView::NegInf && hi == CutView::PosInf {
            assert(s =~= seq![(CutView::NegInf, CutView::PosInf)]);
            assert(range_text(s) == "*"@);
        } else {
            let texts = s.map_values(|p: Seg| seg_text(p.0, p.1));
            assert(texts =~= seq![seg_text(lo, hi)]);
            assert(range_text(s) == seg_text(lo, hi));
            lemma_seg_text_shape(lo, hi);
        }
    }
}

/// A lone alternative is its own trim.
proof fn lemma_trim_same_alt(t: Seq<char>)
    requires
        lone_alternative(t),
    ensures
        crate::text::trim(t) == t,
{
    crate::text::lemma_trim_same(t);
}

/// An interval as text: `=v` for a single version, else its bounds.
pub open spec fn seg_text(lo: CutView, hi: CutView) -> Seq<char> {
    if is_point(lo, hi) {
        "="@ + version_text(lo->0)
    } else {
        match (lower_text(lo), upper_text(hi)) {
            (Some(l), Some(h)) => l + ", "@ + h,
            (Some(l), None) => l,
            (None, Some(h)) => h,
            (None, None) => "*"@,
        }
    }
}

/// A range as `Display` writes it.
pub open spec fn range_text(s: Seq<Seg>) -> Seq<char> {
    if s.len() == 0 {
        "<nothing>"@
    } else if s.len() == 1 && s[0] == (CutView::NegInf, CutView::PosInf) {
        "*"@
    } else {
        join(s.map_values(|p: Seg| seg_text(p.0, p.1)), " || "@)
    }
}

/// The upper end of a caret range starting at `a`, when it exists.
pub open spec fn caret_upper(a: VersionView) -> Option<(u64, u64, u64)> {
    if a.major > 0 {
        if a.major < u64::MAX {
            Some(((a.major + 1) as u64, 0u64, 0u64))
        } else {
            None
        }
    } else if a.minor > 0 {
        if a.minor < u64::MAX {
            Some((0u64, (a.minor + 1) as u64, 0u64))
        } else {
            None
        }
    } else if a.patch < u64::MAX {
        Some((0u64, 0u64, (a.patch + 1) as u64))
    } else {
        None
    }
}

/// The upper end of a tilde range starting at `a`, when it exists.
pub open spec fn tilde_upper(a: VersionView) -> Option<(u64, u64, u64)> {
    if a.minor < u64::MAX {
        Some((a.major, (a.minor + 1) as u64, 0u64))
    } else {
        None
    }
}

/// A range as a person would write it: a bare version for a single point,
/// `^a` or `~a` for caret and tilde shapes, else the `Display` form.
pub open spec fn friendly_text(s: Seq<Seg>) -> Seq<char> {
    if s.len() != 1 {
        range_text(s)
    } else {
        let (lo, hi) = s[0];
        if is_point(lo, hi) {
            version_text(lo->0)
        } else if lo is Fin && hi is Fin && !lo->1 && !hi->1 && lo->0.pre.len() == 0 && hi->0.pre.len()
            == 0 {
            let a = lo->0;
            let b = hi->0;
            if caret_upper(a) == Some((b.major, b.minor, b.patch)) {
                "^"@ + version_text(a)
            } else if tilde_upper(a) == Some((b.major, b.minor, b.patch)) {
                "~"@ + version_text(a)
            } else {
                range_text(s)
            }
        } else {
            range_text(s)
        }
    }
}

/// The release `major.minor.patch`.
pub open spec fn release(p: (u64, u64, u64)) -> VersionView {
    VersionView { major: p.0, minor: p.1, patch: p.2, pre: Seq::empty() }
}

/// The range algebra obeys the laws of sets, version by version: complement
/// twice gives the range back, union and intersection commute, nothing is the
/// identity of union and the whole line that of intersection. (As interval
/// lists the two sides can differ: cuts at versions of equal precedence compare
/// equal without being the same cut.)
#[verifier::spinoff_prover]
pub proof fn law_range_algebra(a: Seq<Seg>, b: Seq<Seg>, v: VersionView)
    requires
        segs_wf(a),
        segs_wf(b),
    ensures
        segs_contain(segs_complement(segs_complement(a)), v) == segs_contain(a, v),
        segs_contain(segs_union(a, b), v) == segs_contain(segs_union(b, a), v),
        segs_contain(segs_intersect(a, b), v) == segs_contain(segs_intersect(b, a), v),
        segs_contain(segs_union(a, Seq::empty()), v) == segs_contain(a, v),
        segs_contain(segs_intersect(a, seq![(CutView::NegInf, CutView::PosInf)]), v) == segs_contain(a, v),
{
    lemma_complement(a);
    lemma_complement(segs_complement(a));
    lemma_union(a, b);
    lemma_union(b, a);
    lemma_intersect(a, b);
    lemma_intersect(b, a);
    assert(segs_contain(segs_union(a, b), v) == (segs_contain(a, v) || segs_contain(b, v)));
    assert(segs_contain(segs_union(b, a), v) == (segs_contain(b, v) || segs_contain(a, v)));
    assert(segs_contain(segs_intersect(a, b), v) == (segs_contain(a, v) && segs_contain(b, v)));
    assert(segs_contain(segs_intersect(b, a), v) == (segs_contain(b, v) && segs_contain(a, v)));
    let e = Seq::<Seg>::empty();
    let whole = seq![(CutView::NegInf, CutView::PosInf)];
    lemma_cut_ends(CutView::NegInf);
    assert(segs_wf(e));
    assert(segs_wf(whole));
    lemma_union(a, e);
    lemma_intersect(a, whole);
    lemma_cut_ends(before(v));
    lemma_cut_ends(after(v));
    assert(in_seg(whole[0], v));
}

/// A caret shape prints back as `^a`: the versions from a release `a` up to,
/// not including, the next release that changes its leftmost nonzero part.
pub proof fn law_friendly_caret(a: VersionView)
    requires
        a.pre.len() == 0,
        caret_upper(a) is Some,
    ensures
        friendly_text(seq![(before(a), before(release(caret_upper(a)->0)))]) == "^"@ + version_text(a),
{
}

/// A tilde shape that is not also a caret shape prints back as `~a`: the
/// versions from a release `a` up to, not including, the next minor release.
pub proof fn law_friendly_tilde(a: VersionView)
    requires
        a.pre.len() == 0,
        tilde_upper(a) is Some,
        caret_upper(a) != tilde_upper(a),
    ensures
        friendly_text(seq![(before(a), before(release(tilde_upper(a)->0)))]) == "~"@ + version_text(a),
{
}

/// A single version prints back as itself.
pub proof fn law_friendly_point(a: VersionView)
    ensures
        friendly_text(seq![(before(a), after(a))]) == version_text(a),
{
}

/// The version at the lower end of the first interval, when that end is a version.
pub open spec fn lower_of(s: Seq<Seg>) -> Option<VersionView> {
    if s.len() > 0 && s[0].0 is Fin {
        Some(s[0].0->0)
    } else {
        None
    }
}

fn seg_string(lo: &Cut, hi: &Cut) -> (r: String)
    ensures
        r@ == seg_text(lo@, hi@),
{
    let mut out = String::new();
    if let (Cut::Fin(a, false), Cut::Fin(b, true)) = (lo, hi) {
        if a.same_as(b) {
            push_str(&mut out, "=");
            let t = a.to_string();
            push_str(&mut out, t.as_str());
            return out;
        }
    }
    let l: Option<String> = match lo {
        Cut::NegInf => None,
        Cut::Fin(v, false) => {
            let mut t = String::new();
            push_str(&mut t, ">=");
            let vt = v.to_string();
            push_str(&mut t, vt.as_str());
            Some(t)
        },
        Cut::Fin(v, true) => {
            let mut t = String::new();
            push_str(&mut t, ">");
            let vt = v.to_string();
            push_str(&mut t, vt.as_str());
            Some(t)
        },
        Cut::PosInf => {
            let mut t = String::new();
            push_str(&mut t, "<nothing>");
            Some(t)
        },
    };
    let h: Option<String> = match hi {
        Cut::PosInf => None,
        Cut::Fin(v, true) => {
            let mut t = String::new();
            push_str(&mut t, "<=");
            let vt = v.to_string();
            push_str(&mut t, vt.as_str());
            Some(t)
        },
        Cut::Fin(v, false) => {
            let mut t = String::new();
            push_str(&mut t, "<");
            let vt = v.to_string();
            push_str(&mut t, vt.as_str());
            Some(t)
        },
        Cut::NegInf => {
            let mut t = String::new();
            push_str(&mut t, "<nothing>");
            Some(t)
        },
    };
    match (l, h) {
        (Some(l), Some(h)) => {
            push_str(&mut out, l.as_str());
            push_str(&mut out, ", ");
            push_str(&mut out, h.as_str());
        },
        (Some(l), None) => {
            push_str(&mut out, l.as_str());
        },
        (None, Some(h)) => {
            push_str(&mut out, h.as_str());
        },
        (None, None) => {
            push_str(&mut out, "*");
        },
    }
    out
}

impl Range {
    /// The range as `Display` writes it.
    pub fn to_string(&self) -> (r: String)
        ensures
            r@ == range_text(self@),
    {
        let mut out = String::new();
        if self.segs.len() == 0 {
            push_str(&mut out, "<nothing>");
            return out;
        }
        proof {
            assert(self@[0] == (self.segs@[0].0@, self.segs@[0].1@));
        }
        if self.segs.len() == 1 {
            if let (Cut::NegInf, Cut::PosInf) = (&self.segs[0].0, &self.segs[0].1) {
                push_str(&mut out, "*");
                return out;
            }
        }
        let ghost texts = self@.map_values(|p: Seg| seg_text(p.0, p.1));
        let mut parts: Vec<Vec<char>> = Vec::new();
        let mut i: usize = 0;
        while i < self.segs.len()
            invariant
                i <= self.segs@.len(),
                texts == self@.map_values(|p: Seg| seg_text(p.0, p.1)),
                views(parts@) == texts.take(i as int),
            decreases self.segs@.len() - i,
        {
            let t = seg_string(&self.segs[i].0, &self.segs[i].1);
            let cs = crate::text::chars_of(t.as_str());
            let ghost prev = views(parts@);
            proof {
                assert(self@[i as int] == (self.segs@[i as int].0@, self.segs@[i as int].1@));
            }
            parts.push(cs);
            proof {
                assert(views(parts@) =~= prev.push(texts[i as int]));
                assert(texts.take(i + 1) =~= texts.take(i as int).push(texts[i as int]));
            }
            i = i + 1;
        }
        proof {
            assert(texts.take(self@.len() as int) =~= texts);
        }
        let sep = crate::text::chars_of(" || ");
        let joined = join_chars(&parts, sep.as_slice());
        push_chars(&mut out, joined.as_slice());
        out
    }

    /// A human-friendly rendering that recognises caret and tilde shapes, so
    /// `>=1.2.0, <2.0.0` prints as `^1.2.0` and an exact point as the bare
    /// version. Anything else prints in the `Display` form.
    pub fn friendly(&self) -> (r: String)
        ensures
            r@ == friendly_text(self@),
    {
        if self.segs.len() != 1 {
            return self.to_string();
        }
        proof {
            assert(self@[0] == (self.segs@[0].0@, self.segs@[0].1@));
        }
        let (lo, hi) = &self.segs[0];
        if let (Cut::Fin(a, false), Cut::Fin(b, true)) = (lo, hi) {
            if a.same_as(b) {
                return a.to_string();
            }
        }
        if let (Cut::Fin(a, false), Cut::Fin(b, false)) = (lo, hi) {
            if a.is_stable() && b.is_stable() {
                let caret: Option<(u64, u64, u64)> = if a.major > 0 {
                    if a.major < u64::MAX {
                        Some((a.major + 1, 0, 0))
                    } else {
                        None
                    }
                } else if a.minor > 0 {
                    if a.minor < u64::MAX {
                        Some((0, a.minor + 1, 0))
                    } else {
                        None
                    }
                } else if a.patch < u64::MAX {
                    Some((0, 0, a.patch + 1))
                } else {
                    None
                };
                if let Some((x, y, z)) = caret {
                    if b.major == x && b.minor == y && b.patch == z {
                        let mut out = String::new();
                        push_str(&mut out, "^");
                        let t = a.to_string();
                        push_str(&mut out, t.as_str());
                        return out;
                    }
                }
                if a.minor < u64::MAX && b.major == a.major && b.minor == a.minor + 1 && b.patch == 0 {
                    let mut out = String::new();
                    push_str(&mut out, "~");
                    let t = a.to_string();
                    push_str(&mut out, t.as_str());
                    return out;
                }
            }
        }
        self.to_string()
    }

    /// The version at the lower end of the first interval, when that end is a
    /// version (used to read a decision's version back).
    pub fn lower_version(&self) -> (r: Option<&Version>)
        ensures
            match r {
                Some(v) => lower_of(self@) == Some(v@),
                None => lower_of(self@) is None,
            },
    {
        if self.segs.len() == 0 {
            return None;
        }
        proof {
            assert(self@[0] == (self.segs@[0].0@, self.segs@[0].1@));
        }
        match &self.segs[0].0 {
            Cut::Fin(v, _) => Some(v),
            _ => None,
        }
    }
}

} // verus!
