//! Pinned versions keyed by package name, kept sorted by name with each name
//! once: the shape of a resolution and of a lockfile.
use vstd::prelude::*;
use crate::order::{Order, lex_compare, lemma_lex_flip, lemma_lex_trans, lemma_lex_equal, lemma_lex_refl};
use crate::text::compare_strs;
use crate::version::{Version, VersionView};

verus! {

/// A pinned package as plain values.
pub type Pin = (Seq<char>, VersionView);

pub open spec fn pin_views(s: Seq<(String, Version)>) -> Seq<Pin> {
    s.map_values(|p: (String, Version)| (p.0@, p.1@))
}

/// Names strictly increasing: sorted, each name once.
pub open spec fn pins_sorted(s: Seq<Pin>) -> bool {
    forall|i: int, j: int| 0 <= i < j < s.len() ==> lex_compare(#[trigger] s[i].0, #[trigger] s[j].0) == Order::Less
}

/// `s` with `name` pinned to `v`: replacing the pin of that name, or inserted
/// where the order of names puts it (what `BTreeMap::insert` does).
pub open spec fn insert_pin(s: Seq<Pin>, name: Seq<char>, v: VersionView) -> Seq<Pin>
    decreases s.len(),
{
    if s.len() == 0 {
        seq![(name, v)]
    } else if lex_compare(s[0].0, name) == Order::Less {
        seq![s[0]] + insert_pin(s.drop_first(), name, v)
    } else if lex_compare(s[0].0, name) == Order::Equal {
        seq![(name, v)] + s.drop_first()
    } else {
        seq![(name, v)] + s
    }
}

/// The version pinned for `name`, if any.
pub open spec fn pinned(s: Seq<Pin>, name: Seq<char>) -> Option<VersionView> {
    if exists|i: int| 0 <= i < s.len() && s[i].0 == name {
        Some(s[choose|i: int| 0 <= i < s.len() && s[i].0 == name].1)
    } else {
        None
    }
}

pub proof fn lemma_pinned_at(s: Seq<Pin>, i: int)
    requires
        pins_sorted(s),
        0 <= i < s.len(),
    ensures
        pinned(s, s[i].0) == Some(s[i].1),
{
    let j = choose|j: int| 0 <= j < s.len() && s[j].0 == s[i].0;
    lemma_lex_refl(s[i].0);
    if j != i {
        if j < i {
            assert(lex_compare(s[j].0, s[i].0) == Order::Less);
        } else {
            assert(lex_compare(s[i].0, s[j].0) == Order::Less);
        }
    }
}

proof fn lemma_sorted_tail(s: Seq<Pin>)
    requires
        pins_sorted(s),
        s.len() > 0,
    ensures
        pins_sorted(s.drop_first()),
{
    let t = s.drop_first();
    assert forall|i: int, j: int| 0 <= i < j < t.len() implies lex_compare(#[trigger] t[i].0, #[trigger] t[j].0)
        == Order::Less by {
        assert(t[i] == s[i + 1]);
        assert(t[j] == s[j + 1]);
    }
}

proof fn lemma_insert_shape(s: Seq<Pin>, name: Seq<char>, v: VersionView)
    requires
        pins_sorted(s),
    ensures
        pins_sorted(insert_pin(s, name, v)),
        forall|k: int| 0 <= k < insert_pin(s, name, v).len() ==> #[trigger] insert_pin(s, name, v)[k] == (name, v)
            || s.contains(insert_pin(s, name, v)[k]),
    decreases s.len(),
{
    let r = insert_pin(s, name, v);
    if s.len() == 0 {
        assert(r[0] == (name, v));
    } else {
        let t = s.drop_first();
        lemma_sorted_tail(s);
        let c = lex_compare(s[0].0, name);
        if c == Order::Less {
            lemma_insert_shape(t, name, v);
            let rt = insert_pin(t, name, v);
            assert(r == seq![s[0]] + rt);
            assert forall|k: int| 0 <= k < r.len() implies #[trigger] r[k] == (name, v) || s.contains(r[k]) by {
                if k > 0 {
                    assert(r[k] == rt[k - 1]);
                    if rt[k - 1] != (name, v) {
                        assert(t.contains(rt[k - 1]));
                        let i = choose|i: int| 0 <= i < t.len() && t[i] == rt[k - 1];
                        assert(s[i + 1] == t[i]);
                    }
                } else {
                    assert(s[0] == r[0]);
                }
            }
            assert forall|i: int, j: int| 0 <= i < j < r.len() implies lex_compare(#[trigger] r[i].0, #[trigger] r[j].0)
                == Order::Less by {
                if i == 0 {
                    assert(r[j] == rt[j - 1]);
                    if rt[j - 1].0 != name {
                        let m = choose|m: int| 0 <= m < t.len() && t[m] == rt[j - 1];
                        assert(s[m + 1] == t[m]);
                        assert(lex_compare(s[0].0, s[m + 1].0) == Order::Less);
                    }
                } else {
                    assert(r[i] == rt[i - 1]);
                    assert(r[j] == rt[j - 1]);
                }
            }
        } else if c == Order::Equal {
            lemma_lex_equal(s[0].0, name);
            assert(r == seq![(name, v)] + t);
            assert forall|k: int| 0 <= k < r.len() implies #[trigger] r[k] == (name, v) || s.contains(r[k]) by {
                if k > 0 {
                    assert(r[k] == t[k - 1]);
                    assert(s[k] == t[k - 1]);
                }
            }
            assert forall|i: int, j: int| 0 <= i < j < r.len() implies lex_compare(#[trigger] r[i].0, #[trigger] r[j].0)
                == Order::Less by {
                assert(r[j] == s[j]);
                if i > 0 {
                    assert(r[i] == s[i]);
                }
            }
        } else {
            assert(r == seq![(name, v)] + s);
            assert forall|k: int| 0 <= k < r.len() implies #[trigger] r[k] == (name, v) || s.contains(r[k]) by {
                if k > 0 {
                    assert(r[k] == s[k - 1]);
                }
            }
            lemma_lex_flip(s[0].0, name);
            assert forall|i: int, j: int| 0 <= i < j < r.len() implies lex_compare(#[trigger] r[i].0, #[trigger] r[j].0)
                == Order::Less by {
                assert(r[j] == s[j - 1]);
                if i > 0 {
                    assert(r[i] == s[i - 1]);
                } else if j > 1 {
                    lemma_lex_trans(name, s[0].0, s[j - 1].0);
                }
            }
        }
    }
}

proof fn lemma_insert_pinned(s: Seq<Pin>, name: Seq<char>, v: VersionView, other: Seq<char>)
    requires
        pins_sorted(s),
    ensures
        pinned(insert_pin(s, name, v), other) == (if other == name {
            Some(v)
        } else {
            pinned(s, other)
        }),
    decreases s.len(),
{
    let r = insert_pin(s, name, v);
    lemma_insert_shape(s, name, v);
    lemma_pinned_split(r, other);
    if s.len() == 0 {
        lemma_pinned_split(s, other);
        lemma_pinned_split(r.drop_first(), other);
    } else {
        let t = s.drop_first();
        lemma_sorted_tail(s);
        lemma_pinned_split(s, other);
        let c = lex_compare(s[0].0, name);
        if c == Order::Less {
            lemma_insert_pinned(t, name, v, other);
            assert(r.drop_first() =~= insert_pin(t, name, v));
            lemma_lex_refl(name);
        } else if c == Order::Equal {
            lemma_lex_equal(s[0].0, name);
            assert(r.drop_first() =~= t);
        } else {
            assert(r.drop_first() =~= s);
        }
    }
}

/// Inserting keeps the names sorted, pins `name` to `v`, and leaves every other
/// pin as it was.
pub proof fn law_insert_pin(s: Seq<Pin>, name: Seq<char>, v: VersionView, other: Seq<char>)
    requires
        pins_sorted(s),
    ensures
        pins_sorted(insert_pin(s, name, v)),
        forall|k: int| 0 <= k < insert_pin(s, name, v).len() ==> #[trigger] insert_pin(s, name, v)[k] == (name, v)
            || s.contains(insert_pin(s, name, v)[k]),
        pinned(insert_pin(s, name, v), name) == Some(v),
        other != name ==> pinned(insert_pin(s, name, v), other) == pinned(s, other),
{
    lemma_insert_shape(s, name, v);
    lemma_insert_pinned(s, name, v, name);
    lemma_insert_pinned(s, name, v, other);
}

/// The pin of a name is found at the head or in the tail of a sorted list.
proof fn lemma_pinned_split(s: Seq<Pin>, name: Seq<char>)
    requires
        pins_sorted(s),
    ensures
        s.len() > 0 ==> pinned(s, name) == (if s[0].0 == name {
            Some(s[0].1)
        } else {
            pinned(s.drop_first(), name)
        }),
        s.len() == 0 ==> pinned(s, name) is None,
{
    if s.len() > 0 {
        let t = s.drop_first();
        assert(pins_sorted(t)) by {
            assert forall|i: int, j: int| 0 <= i < j < t.len() implies lex_compare(#[trigger] t[i].0, #[trigger] t[j].0)
                == Order::Less by {
                assert(t[i] == s[i + 1]);
                assert(t[j] == s[j + 1]);
            }
        }
        if s[0].0 == name {
            lemma_pinned_at(s, 0);
        } else {
            if exists|i: int| 0 <= i < s.len() && s[i].0 == name {
                let i = choose|i: int| 0 <= i < s.len() && s[i].0 == name;
                assert(t[i - 1] == s[i]);
                lemma_pinned_at(s, i);
                lemma_pinned_at(t, i - 1);
            } else {
                if exists|i: int| 0 <= i < t.len() && t[i].0 == name {
                    let i = choose|i: int| 0 <= i < t.len() && t[i].0 == name;
                    assert(s[i + 1] == t[i]);
                }
            }
        }
    }
}

/// Pins `name` to `v` in a list sorted by name.
pub fn insert_sorted(pins: &mut Vec<(String, Version)>, name: String, v: Version)
    ensures
        pin_views(final(pins)@) == insert_pin(pin_views(old(pins)@), name@, v@),
{
    let ghost s = pin_views(pins@);
    let mut i: usize = 0;
    proof {
        assert(s.skip(0) =~= s);
    }
    while i < pins.len() && compare_strs(pins[i].0.as_str(), name.as_str()) == Order::Less
        invariant
            i <= pins@.len(),
            s == pin_views(pins@),
            insert_pin(s, name@, v@) == s.take(i as int) + insert_pin(s.skip(i as int), name@, v@),
        decreases pins@.len() - i,
    {
        proof {
            let t = s.skip(i as int);
            assert(t[0] == s[i as int]);
            assert(t.drop_first() =~= s.skip(i + 1));
            assert(s.take(i + 1) =~= s.take(i as int) + seq![t[0]]);
            assert(insert_pin(t, name@, v@) == seq![t[0]] + insert_pin(s.skip(i + 1), name@, v@));
            assert(s.take(i as int) + (seq![t[0]] + insert_pin(s.skip(i + 1), name@, v@)) =~= s.take(i + 1)
                + insert_pin(s.skip(i + 1), name@, v@));
        }
        i = i + 1;
    }
    let ghost t = s.skip(i as int);
    if i < pins.len() && compare_strs(pins[i].0.as_str(), name.as_str()) == Order::Equal {
        proof {
            assert(t[0] == s[i as int]);
            assert(t.drop_first() =~= s.skip(i + 1));
        }
        pins.remove(i);
        pins.insert(i, (name, v));
        proof {
            assert(pin_views(pins@) =~= s.take(i as int) + insert_pin(t, name@, v@));
        }
    } else {
        proof {
            if i < s.len() {
                assert(t[0] == s[i as int]);
            }
        }
        let ghost nv = (name@, v@);
        pins.insert(i, (name, v));
        proof {
            assert(pin_views(pins@) =~= s.take(i as int) + insert_pin(t, nv.0, nv.1));
        }
    }
}

} // verus!
