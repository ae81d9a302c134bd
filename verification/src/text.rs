//! Character-level helpers over `str` and `String`, each with the exact
//! behaviour of the std operation it stands for.
use vstd::prelude::*;
use vstd::std_specs::iter::IteratorSpec;

verus! {

broadcast use vstd::string::group_string_axioms;

/// `String::push` appends one character to the end of the string.
pub assume_specification[ String::push ](s: &mut String, ch: char)
    ensures
        final(s)@ == old(s)@.push(ch),
;

/// The characters of `s`, in order.
pub fn chars_of(s: &str) -> (r: Vec<char>)
    ensures
        r@ == s@,
{
    let mut it = s.chars();
    let mut out: Vec<char> = Vec::new();
    loop
        invariant
            out@ + it.remaining() == s@,
            it.obeys_prophetic_iter_laws(),
            it.decrease() is Some,
        ensures
            out@ == s@,
        decreases it.decrease()->0,
    {
        match it.next() {
            Some(c) => {
                out.push(c);
            },
            None => {
                assert(out@ + it.remaining() =~= out@);
                break;
            },
        }
    }
    out
}

/// A `String` holding exactly the characters of `cs`.
pub fn string_of(cs: &[char]) -> (r: String)
    ensures
        r@ == cs@,
{
    let mut s = String::new();
    let mut i: usize = 0;
    while i < cs.len()
        invariant
            i <= cs@.len(),
            s@ == cs@.subrange(0, i as int),
        decreases cs@.len() - i,
    {
        s.push(cs[i]);
        i = i + 1;
    }
    s
}


/// Unicode `White_Space`, the set that `char::is_whitespace` tests.
pub open spec fn is_ws(c: char) -> bool {
    ||| '\t' <= c <= '\r'
    ||| c == ' '
    ||| c == '\u{85}'
    ||| c == '\u{A0}'
    ||| c == '\u{1680}'
    ||| '\u{2000}' <= c <= '\u{200A}'
    ||| c == '\u{2028}'
    ||| c == '\u{2029}'
    ||| c == '\u{202F}'
    ||| c == '\u{205F}'
    ||| c == '\u{3000}'
}

pub fn is_whitespace(c: char) -> (r: bool)
    ensures
        r == is_ws(c),
{
    ('\t' <= c && c <= '\r') || c == ' ' || c == '\u{85}' || c == '\u{A0}' || c == '\u{1680}' || (
    '\u{2000}' <= c && c <= '\u{200A}') || c == '\u{2028}' || c == '\u{2029}' || c == '\u{202F}'
        || c == '\u{205F}' || c == '\u{3000}'
}

/// Number of leading whitespace characters.
pub open spec fn lead_ws(s: Seq<char>) -> nat
    decreases s.len(),
{
    if s.len() == 0 {
        0
    } else if is_ws(s[0]) {
        1 + lead_ws(s.drop_first())
    } else {
        0
    }
}

/// Number of trailing whitespace characters.
pub open spec fn trail_ws(s: Seq<char>) -> nat
    decreases s.len(),
{
    if s.len() == 0 {
        0
    } else if is_ws(s.last()) {
        1 + trail_ws(s.drop_last())
    } else {
        0
    }
}

/// `str::trim_start`.
pub open spec fn trim_start(s: Seq<char>) -> Seq<char> {
    s.skip(lead_ws(s) as int)
}

/// `str::trim_end`.
pub open spec fn trim_end(s: Seq<char>) -> Seq<char> {
    s.take(s.len() - trail_ws(s))
}

/// `str::trim`.
pub open spec fn trim(s: Seq<char>) -> Seq<char> {
    trim_end(trim_start(s))
}

pub proof fn lemma_lead_ws_bound(s: Seq<char>)
    ensures
        lead_ws(s) <= s.len(),
        forall|i: int| 0 <= i < lead_ws(s) ==> is_ws(#[trigger] s[i]),
        lead_ws(s) < s.len() ==> !is_ws(s[lead_ws(s) as int]),
    decreases s.len(),
{
    if s.len() > 0 && is_ws(s[0]) {
        lemma_lead_ws_bound(s.drop_first());
        assert forall|i: int| 0 <= i < lead_ws(s) implies is_ws(#[trigger] s[i]) by {
            if i > 0 {
                assert(s[i] == s.drop_first()[i - 1]);
            }
        }
    }
}

/// Characterises `lead_ws` by the position of the first non-whitespace character.
pub proof fn lemma_lead_ws_at(s: Seq<char>, k: int)
    requires
        0 <= k <= s.len(),
        forall|i: int| 0 <= i < k ==> is_ws(#[trigger] s[i]),
        k == s.len() || !is_ws(s[k]),
    ensures
        lead_ws(s) == k,
    decreases k,
{
    if k > 0 {
        assert forall|i: int| 0 <= i < k - 1 implies is_ws(#[trigger] s.drop_first()[i]) by {
            assert(s.drop_first()[i] == s[i + 1]);
        }
        if k < s.len() {
            assert(s.drop_first()[k - 1] == s[k]);
        }
        lemma_lead_ws_at(s.drop_first(), k - 1);
    }
}

/// Characterises `trail_ws` by the position of the last non-whitespace character.
pub proof fn lemma_trail_ws_at(s: Seq<char>, k: int)
    requires
        0 <= k <= s.len(),
        forall|i: int| k <= i < s.len() ==> is_ws(#[trigger] s[i]),
        k == 0 || !is_ws(s[k - 1]),
    ensures
        trail_ws(s) == s.len() - k,
    decreases s.len() - k,
{
    if k < s.len() {
        assert forall|i: int| k <= i < s.len() - 1 implies is_ws(#[trigger] s.drop_last()[i]) by {
            assert(s.drop_last()[i] == s[i]);
        }
        if k > 0 {
            assert(s.drop_last()[k - 1] == s[k - 1]);
        }
        lemma_trail_ws_at(s.drop_last(), k);
    }
}

/// The trailing whitespace is whitespace, and no longer than the text.
pub proof fn lemma_trail_ws_bound(s: Seq<char>)
    ensures
        trail_ws(s) <= s.len(),
        forall|i: int| s.len() - trail_ws(s) <= i < s.len() ==> is_ws(#[trigger] s[i]),
    decreases s.len(),
{
    if s.len() > 0 && is_ws(s.last()) {
        lemma_trail_ws_bound(s.drop_last());
        assert forall|i: int| s.len() - trail_ws(s) <= i < s.len() implies is_ws(#[trigger] s[i]) by {
            if i < s.len() - 1 {
                assert(s[i] == s.drop_last()[i]);
            }
        }
    }
}

/// A text with a character that is not whitespace is not blank.
pub proof fn lemma_trim_nonblank(s: Seq<char>, i: int)
    requires
        0 <= i < s.len(),
        !is_ws(s[i]),
    ensures
        trim(s).len() > 0,
{
    lemma_lead_ws_bound(s);
    let l = lead_ws(s) as int;
    assert(l <= i);
    let t = s.skip(l);
    lemma_trail_ws_bound(t);
    assert(t[i - l] == s[i]);
    assert(trail_ws(t) < t.len());
}

/// A text padded with whitespace trims back to the text, when it neither
/// starts nor ends with whitespace itself.
pub proof fn lemma_trim_padded(a: Seq<char>, t: Seq<char>, b: Seq<char>)
    requires
        forall|i: int| 0 <= i < a.len() ==> is_ws(#[trigger] a[i]),
        forall|i: int| 0 <= i < b.len() ==> is_ws(#[trigger] b[i]),
        t.len() > 0,
        !is_ws(t[0]),
        !is_ws(t.last()),
    ensures
        trim(a + t + b) == t,
{
    let s = a + t + b;
    assert forall|i: int| 0 <= i < a.len() implies is_ws(#[trigger] s[i]) by {
        assert(s[i] == a[i]);
    }
    assert(s[a.len() as int] == t[0]);
    lemma_lead_ws_at(s, a.len() as int);
    let u = s.skip(a.len() as int);
    assert(u =~= t + b);
    assert forall|i: int| t.len() <= i < u.len() implies is_ws(#[trigger] u[i]) by {
        assert(u[i] == b[i - t.len()]);
    }
    assert(u[t.len() - 1] == t.last());
    lemma_trail_ws_at(u, t.len() as int);
    assert(u.take(t.len() as int) =~= t);
}

/// `s.trim()`.
pub fn trim_chars(s: &[char]) -> (r: Vec<char>)
    ensures
        r@ == trim(s@),
{
    let n = s.len();
    let mut a: usize = 0;
    while a < n && is_whitespace(s[a])
        invariant
            a <= n,
            n == s@.len(),
            forall|i: int| 0 <= i < a ==> is_ws(#[trigger] s@[i]),
        decreases n - a,
    {
        a = a + 1;
    }
    proof {
        lemma_lead_ws_at(s@, a as int);
    }
    let mut b: usize = n;
    while b > a && is_whitespace(s[b - 1])
        invariant
            a <= b <= n,
            n == s@.len(),
            forall|i: int| b <= i < n ==> is_ws(#[trigger] s@[i]),
        decreases b,
    {
        b = b - 1;
    }
    let ghost t = trim_start(s@);
    proof {
        assert(t =~= s@.subrange(a as int, n as int));
        assert forall|i: int| b - a <= i < t.len() implies is_ws(#[trigger] t[i]) by {
            assert(t[i] == s@[i + a]);
        }
        if b > a {
            assert(t[b - a - 1] == s@[b - 1]);
        }
        lemma_trail_ws_at(t, b - a);
    }
    let mut out: Vec<char> = Vec::new();
    let mut i: usize = a;
    while i < b
        invariant
            a <= i <= b <= n,
            n == s@.len(),
            out@ == s@.subrange(a as int, i as int),
        decreases b - i,
    {
        out.push(s[i]);
        i = i + 1;
    }
    proof {
        assert(out@ =~= trim(s@));
    }
    out
}


/// The character sequences held by a list of character vectors.
pub open spec fn views(v: Seq<Vec<char>>) -> Seq<Seq<char>> {
    v.map_values(|x: Vec<char>| x@)
}

/// A copy of `s[a..b]`.
pub fn copy_range(s: &[char], a: usize, b: usize) -> (r: Vec<char>)
    requires
        a <= b <= s@.len(),
    ensures
        r@ == s@.subrange(a as int, b as int),
{
    let mut out: Vec<char> = Vec::new();
    let mut i: usize = a;
    while i < b
        invariant
            a <= i <= b <= s@.len(),
            out@ == s@.subrange(a as int, i as int),
        decreases b - i,
    {
        out.push(s[i]);
        i = i + 1;
    }
    out
}

/// Whether two character sequences are equal.
pub fn chars_eq(a: &[char], b: &[char]) -> (r: bool)
    ensures
        r == (a@ == b@),
{
    if a.len() != b.len() {
        return false;
    }
    let mut i: usize = 0;
    while i < a.len()
        invariant
            i <= a@.len(),
            a@.len() == b@.len(),
            forall|j: int| 0 <= j < i ==> a@[j] == b@[j],
        decreases a@.len() - i,
    {
        if a[i] != b[i] {
            return false;
        }
        i = i + 1;
    }
    proof {
        assert(a@ =~= b@);
    }
    true
}

/// Index of the first `c` in `s`, or `s.len()` when there is none.
pub open spec fn first_index(s: Seq<char>, c: char) -> nat
    decreases s.len(),
{
    if s.len() == 0 {
        0
    } else if s[0] == c {
        0
    } else {
        1 + first_index(s.drop_first(), c)
    }
}

/// Characterises `first_index` by the first position holding `c`.
pub proof fn lemma_first_index_at(s: Seq<char>, c: char, k: int)
    requires
        0 <= k <= s.len(),
        forall|i: int| 0 <= i < k ==> #[trigger] s[i] != c,
        k == s.len() || s[k] == c,
    ensures
        first_index(s, c) == k,
    decreases k,
{
    if k > 0 {
        assert forall|i: int| 0 <= i < k - 1 implies #[trigger] s.drop_first()[i] != c by {
            assert(s.drop_first()[i] == s[i + 1]);
        }
        if k < s.len() {
            assert(s.drop_first()[k - 1] == s[k]);
        }
        lemma_first_index_at(s.drop_first(), c, k - 1);
    }
}

/// `str::split_once` on a character.
pub open spec fn split_once(s: Seq<char>, c: char) -> Option<(Seq<char>, Seq<char>)> {
    let k = first_index(s, c) as int;
    if k < s.len() {
        Some((s.take(k), s.skip(k + 1)))
    } else {
        None
    }
}

/// Position of the first `c` in `s`.
pub fn find_char(s: &[char], c: char) -> (r: usize)
    ensures
        r == first_index(s@, c),
        r <= s@.len(),
{
    let mut i: usize = 0;
    while i < s.len() && s[i] != c
        invariant
            i <= s@.len(),
            forall|j: int| 0 <= j < i ==> #[trigger] s@[j] != c,
        decreases s@.len() - i,
    {
        i = i + 1;
    }
    proof {
        lemma_first_index_at(s@, c, i as int);
    }
    i
}

/// `s.split_once(c)`.
pub fn split_once_char(s: &[char], c: char) -> (r: Option<(Vec<char>, Vec<char>)>)
    ensures
        match r {
            Some((a, b)) => split_once(s@, c) == Some((a@, b@)),
            None => split_once(s@, c) is None,
        },
{
    let k = find_char(s, c);
    if k < s.len() {
        let a = copy_range(s, 0, k);
        let b = copy_range(s, k + 1, s.len());
        proof {
            assert(a@ =~= s@.take(k as int));
            assert(b@ =~= s@.skip(k + 1));
        }
        Some((a, b))
    } else {
        None
    }
}

/// Index of the first whitespace character of `s`, or `s.len()`.
pub open spec fn first_ws(s: Seq<char>) -> nat
    decreases s.len(),
{
    if s.len() == 0 {
        0
    } else if is_ws(s[0]) {
        0
    } else {
        1 + first_ws(s.drop_first())
    }
}

pub proof fn lemma_first_ws_at(s: Seq<char>, k: int)
    requires
        0 <= k <= s.len(),
        forall|i: int| 0 <= i < k ==> !is_ws(#[trigger] s[i]),
        k == s.len() || is_ws(s[k]),
    ensures
        first_ws(s) == k,
    decreases k,
{
    if k > 0 {
        assert forall|i: int| 0 <= i < k - 1 implies !is_ws(#[trigger] s.drop_first()[i]) by {
            assert(s.drop_first()[i] == s[i + 1]);
        }
        if k < s.len() {
            assert(s.drop_first()[k - 1] == s[k]);
        }
        lemma_first_ws_at(s.drop_first(), k - 1);
    }
}

/// `str::split_once(char::is_whitespace)`: the text around the first whitespace character.
pub open spec fn split_once_ws(s: Seq<char>) -> Option<(Seq<char>, Seq<char>)> {
    let k = first_ws(s) as int;
    if k < s.len() {
        Some((s.take(k), s.skip(k + 1)))
    } else {
        None
    }
}

pub fn split_once_whitespace(s: &[char]) -> (r: Option<(Vec<char>, Vec<char>)>)
    ensures
        match r {
            Some((a, b)) => split_once_ws(s@) == Some((a@, b@)),
            None => split_once_ws(s@) is None,
        },
{
    let mut i: usize = 0;
    while i < s.len() && !is_whitespace(s[i])
        invariant
            i <= s@.len(),
            forall|j: int| 0 <= j < i ==> !is_ws(#[trigger] s@[j]),
        decreases s@.len() - i,
    {
        i = i + 1;
    }
    proof {
        lemma_first_ws_at(s@, i as int);
    }
    if i < s.len() {
        let a = copy_range(s, 0, i);
        let b = copy_range(s, i + 1, s.len());
        proof {
            assert(a@ =~= s@.take(i as int));
            assert(b@ =~= s@.skip(i + 1));
        }
        Some((a, b))
    } else {
        None
    }
}

/// `str::split` on a character: every piece, empty ones included.
pub open spec fn split(s: Seq<char>, c: char) -> Seq<Seq<char>>
    decreases s.len(),
{
    if s.len() == 0 {
        seq![Seq::<char>::empty()]
    } else {
        let r = split(s.drop_last(), c);
        if s.last() == c {
            r.push(Seq::<char>::empty())
        } else {
            r.update(r.len() - 1, r.last().push(s.last()))
        }
    }
}

pub proof fn lemma_split_nonempty(s: Seq<char>, c: char)
    ensures
        split(s, c).len() >= 1,
    decreases s.len(),
{
    if s.len() > 0 {
        lemma_split_nonempty(s.drop_last(), c);
    }
}

/// `s.split(c)`.
pub fn split_char(s: &[char], c: char) -> (r: Vec<Vec<char>>)
    ensures
        views(r@) == split(s@, c),
{
    let mut out: Vec<Vec<char>> = Vec::new();
    let mut cur: Vec<char> = Vec::new();
    let mut i: usize = 0;
    while i < s.len()
        invariant
            i <= s@.len(),
            views(out@).push(cur@) == split(s@.take(i as int), c),
        decreases s@.len() - i,
    {
        let ghost before = s@.take(i as int);
        proof {
            assert(s@.take(i + 1).drop_last() =~= before);
            lemma_split_nonempty(before, c);
        }
        if s[i] == c {
            let piece = cur;
            let ghost old_out = out@;
            out.push(piece);
            cur = Vec::new();
            proof {
                assert(views(out@) =~= views(old_out).push(piece@));
            }
        } else {
            cur.push(s[i]);
        }
        proof {
            assert(views(out@).push(cur@) =~= split(s@.take(i + 1), c));
        }
        i = i + 1;
    }
    let ghost old_out = out@;
    let ghost last = cur@;
    out.push(cur);
    proof {
        assert(s@.take(s@.len() as int) =~= s@);
        assert(views(out@) =~= views(old_out).push(last));
    }
    out
}


/// `str::split_whitespace`: the maximal runs of non-whitespace characters.
pub open spec fn words(s: Seq<char>) -> Seq<Seq<char>>
    decreases s.len(),
{
    if s.len() == 0 {
        Seq::<Seq<char>>::empty()
    } else {
        let r = words(s.drop_last());
        let c = s.last();
        if is_ws(c) {
            r
        } else if s.len() >= 2 && !is_ws(s[s.len() - 2]) {
            r.update(r.len() - 1, r.last().push(c))
        } else {
            r.push(seq![c])
        }
    }
}

pub proof fn lemma_words_last(s: Seq<char>)
    requires
        s.len() > 0,
        !is_ws(s.last()),
    ensures
        words(s).len() >= 1,
    decreases s.len(),
{
    if s.len() >= 2 && !is_ws(s[s.len() - 2]) {
        assert(s.drop_last().last() == s[s.len() - 2]);
        lemma_words_last(s.drop_last());
    }
}

/// A text with a non-whitespace character has at least one word.
pub proof fn lemma_words_nonempty(s: Seq<char>, i: int)
    requires
        0 <= i < s.len(),
        !is_ws(s[i]),
    ensures
        words(s).len() >= 1,
    decreases s.len(),
{
    if is_ws(s.last()) {
        assert(s.drop_last()[i] == s[i]);
        lemma_words_nonempty(s.drop_last(), i);
    } else {
        lemma_words_last(s);
    }
}

/// A text that is not blank has a first non-whitespace character, and words.
pub proof fn lemma_not_blank(s: Seq<char>)
    requires
        trim(s).len() > 0,
    ensures
        lead_ws(s) < s.len(),
        !is_ws(s[lead_ws(s) as int]),
        words(s).len() >= 1,
{
    lemma_lead_ws_bound(s);
    lemma_words_nonempty(s, lead_ws(s) as int);
}

/// Whitespace between two texts separates their words.
pub proof fn lemma_words_concat(a: Seq<char>, b: Seq<char>, w: char)
    requires
        is_ws(w),
    ensures
        words(a + seq![w] + b) == words(a) + words(b),
    decreases b.len(),
{
    let s = a + seq![w] + b;
    if b.len() == 0 {
        assert(s.drop_last() =~= a);
        assert(words(b) =~= Seq::<Seq<char>>::empty());
        assert(words(a) + words(b) =~= words(a));
    } else {
        let b0 = b.drop_last();
        let c = b.last();
        lemma_words_concat(a, b0, w);
        assert(s.drop_last() =~= a + seq![w] + b0);
        assert(s.last() == c);
        let r = words(a + seq![w] + b0);
        if is_ws(c) {
        } else if b0.len() > 0 && !is_ws(b0.last()) {
            assert(s[s.len() - 2] == b0.last());
            assert(b[b.len() - 2] == b0.last());
            lemma_words_last(b0);
            assert(words(b) == words(b0).update(words(b0).len() - 1, words(b0).last().push(c)));
            assert(r.update(r.len() - 1, r.last().push(c)) =~= words(a) + words(b0).update(
                words(b0).len() - 1,
                words(b0).last().push(c),
            ));
        } else {
            if b0.len() > 0 {
                assert(s[s.len() - 2] == b0.last());
                assert(b[b.len() - 2] == b0.last());
            } else {
                assert(s[s.len() - 2] == w);
            }
            assert(words(b) == words(b0).push(seq![c]));
            assert(r.push(seq![c]) =~= words(a) + words(b0).push(seq![c]));
        }
    }
}

/// A nonempty text without whitespace is one word.
pub proof fn lemma_words_word(x: Seq<char>)
    requires
        x.len() > 0,
        forall|i: int| 0 <= i < x.len() ==> !is_ws(#[trigger] x[i]),
    ensures
        words(x) == seq![x],
    decreases x.len(),
{
    let x0 = x.drop_last();
    assert(!is_ws(x[x.len() - 1]));
    if x0.len() == 0 {
        assert(words(x0) =~= Seq::<Seq<char>>::empty());
        assert(seq![x.last()] =~= x);
    } else {
        assert forall|i: int| 0 <= i < x0.len() implies !is_ws(#[trigger] x0[i]) by {
            assert(x0[i] == x[i]);
        }
        lemma_words_word(x0);
        assert(!is_ws(x[x.len() - 2]));
        assert(x0.push(x.last()) =~= x);
        assert(seq![x0].update(0, x0.push(x.last())) =~= seq![x]);
    }
}

/// Words joined by single spaces split back into those words.
pub proof fn lemma_words_join(ws: Seq<Seq<char>>)
    requires
        forall|k: int| 0 <= k < ws.len() ==> (#[trigger] ws[k]).len() > 0,
        forall|k: int, i: int| 0 <= k < ws.len() && 0 <= i < ws[k].len() ==> !is_ws(#[trigger] ws[k][i]),
    ensures
        words(join(ws, seq![' '])) == ws,
    decreases ws.len(),
{
    if ws.len() == 0 {
        assert(words(Seq::<char>::empty()) =~= ws);
    } else if ws.len() == 1 {
        assert forall|i: int| 0 <= i < ws[0].len() implies !is_ws(#[trigger] ws[0][i]) by {
            assert(!is_ws(ws[0][i]));
        }
        lemma_words_word(ws[0]);
        assert(seq![ws[0]] =~= ws);
    } else {
        let init = ws.drop_last();
        assert forall|k: int| 0 <= k < init.len() implies (#[trigger] init[k]).len() > 0 by {
            assert(init[k] == ws[k]);
        }
        assert forall|k: int, i: int| 0 <= k < init.len() && 0 <= i < init[k].len() implies !is_ws(
            #[trigger] init[k][i],
        ) by {
            assert(init[k] == ws[k]);
            assert(!is_ws(ws[k][i]));
        }
        lemma_words_join(init);
        let l = ws.last();
        assert(l == ws[ws.len() - 1]);
        assert forall|i: int| 0 <= i < l.len() implies !is_ws(#[trigger] l[i]) by {
            assert(!is_ws(ws[ws.len() - 1][i]));
        }
        lemma_words_word(l);
        lemma_words_concat(join(init, seq![' ']), l, ' ');
        assert(init.push(l) =~= ws);
        assert(init + seq![l] =~= ws);
    }
}

/// `s.split_whitespace()`.
pub fn split_words(s: &[char]) -> (r: Vec<Vec<char>>)
    ensures
        views(r@) == words(s@),
{
    let mut out: Vec<Vec<char>> = Vec::new();
    let mut cur: Vec<char> = Vec::new();
    let mut in_word = false;
    let mut i: usize = 0;
    while i < s.len()
        invariant
            i <= s@.len(),
            in_word == (i > 0 && !is_ws(s@[i - 1])),
            !in_word ==> cur@.len() == 0,
            (if in_word { views(out@).push(cur@) } else { views(out@) }) == words(s@.take(i as int)),
        decreases s@.len() - i,
    {
        let ghost before = s@.take(i as int);
        let c = s[i];
        proof {
            assert(s@.take(i + 1).drop_last() =~= before);
            assert(s@.take(i + 1).last() == c);
            if i > 0 {
                assert(s@.take(i + 1)[i - 1] == s@[i - 1]);
            }
        }
        if is_whitespace(c) {
            if in_word {
                let piece = cur;
                let ghost old_out = out@;
                out.push(piece);
                cur = Vec::new();
                proof {
                    assert(views(out@) =~= views(old_out).push(piece@));
                }
            }
            in_word = false;
        } else {
            let ghost old_cur = cur@;
            let ghost r = words(before);
            if in_word {
                proof {
                    lemma_words_last(before);
                    assert(r == views(out@).push(old_cur));
                    assert(words(s@.take(i + 1)) == r.update(r.len() - 1, r.last().push(c)));
                }
            } else {
                proof {
                    assert(words(s@.take(i + 1)) == r.push(seq![c]));
                }
            }
            cur.push(c);
            proof {
                if in_word {
                    assert(r.update(r.len() - 1, r.last().push(c)) =~= views(out@).push(cur@));
                } else {
                    assert(cur@ =~= seq![c]);
                }
            }
            in_word = true;
            proof {
                assert(views(out@).push(cur@) =~= words(s@.take(i + 1)));
            }
        }
        i = i + 1;
    }
    if in_word {
        let ghost old_out = out@;
        let ghost last = cur@;
        out.push(cur);
        proof {
            assert(views(out@) =~= views(old_out).push(last));
        }
    }
    proof {
        assert(s@.take(s@.len() as int) =~= s@);
    }
    out
}

/// A line without the `'\r'` that ends a CRLF line ending.
pub open spec fn strip_cr(l: Seq<char>) -> Seq<char> {
    if l.len() > 0 && l.last() == '\r' {
        l.drop_last()
    } else {
        l
    }
}

/// `str::lines`: the text split at `"\n"` or `"\r\n"`; a final line ending adds no empty line.
pub open spec fn lines(s: Seq<char>) -> Seq<Seq<char>> {
    let p = split(s, '\n');
    let n = p.len() as int;
    let count = if p[n - 1].len() == 0 {
        n - 1
    } else {
        n
    };
    Seq::new(count as nat, |i: int| if i < n - 1 { strip_cr(p[i]) } else { p[i] })
}

/// `s.lines()`.
pub fn split_lines(s: &[char]) -> (r: Vec<Vec<char>>)
    ensures
        views(r@) == lines(s@),
{
    let pieces = split_char(s, '\n');
    proof {
        lemma_split_nonempty(s@, '\n');
    }
    let n = pieces.len();
    let count = if pieces[n - 1].len() == 0 {
        n - 1
    } else {
        n
    };
    let mut out: Vec<Vec<char>> = Vec::new();
    let mut i: usize = 0;
    while i < count
        invariant
            i <= count <= n,
            n == pieces@.len(),
            n >= 1,
            views(pieces@) == split(s@, '\n'),
            count == (if split(s@, '\n')[n - 1].len() == 0 { n - 1 } else { n as int }),
            views(out@) =~= lines(s@).take(i as int),
        decreases count - i,
    {
        let p = &pieces[i];
        proof {
            assert(views(pieces@)[i as int] == p@);
        }
        let line = if i + 1 < n && p.len() > 0 && p[p.len() - 1] == '\r' {
            copy_range(p.as_slice(), 0, p.len() - 1)
        } else {
            copy_range(p.as_slice(), 0, p.len())
        };
        proof {
            assert(line@ == lines(s@)[i as int]);
        }
        let ghost old_out = out@;
        out.push(line);
        proof {
            assert(views(out@) =~= views(old_out).push(line@));
            assert(lines(s@).take(i + 1) =~= lines(s@).take(i as int).push(lines(s@)[i as int]));
        }
        i = i + 1;
    }
    proof {
        assert(lines(s@).take(count as int) =~= lines(s@));
    }
    out
}


/// Whether `"||"` starts at position `i` of `s`.
pub open spec fn bars_at(s: Seq<char>, i: int) -> bool {
    0 <= i && i + 1 < s.len() && s[i] == '|' && s[i + 1] == '|'
}

/// Index of the leftmost `"||"` in `s`, or `s.len()` when there is none.
pub open spec fn first_bars(s: Seq<char>) -> nat
    decreases s.len(),
{
    if s.len() < 2 {
        s.len()
    } else if s[0] == '|' && s[1] == '|' {
        0
    } else {
        1 + first_bars(s.drop_first())
    }
}

pub proof fn lemma_first_bars_at(s: Seq<char>, k: int)
    requires
        0 <= k <= s.len(),
        forall|i: int| 0 <= i < k ==> !bars_at(s, i),
        bars_at(s, k) || (k == s.len() && forall|i: int| 0 <= i < s.len() ==> !bars_at(s, i)),
    ensures
        first_bars(s) == k,
    decreases k,
{
    if s.len() >= 2 && !(s[0] == '|' && s[1] == '|') {
        assert(!bars_at(s, 0));
        assert forall|i: int| 0 <= i < k - 1 implies !bars_at(s.drop_first(), i) by {
            assert(!bars_at(s, i + 1));
        }
        if bars_at(s, k) {
            assert(bars_at(s.drop_first(), k - 1));
        } else {
            assert forall|i: int| 0 <= i < s.len() - 1 implies !bars_at(s.drop_first(), i) by {
                assert(!bars_at(s, i + 1));
            }
        }
        lemma_first_bars_at(s.drop_first(), k - 1);
    } else if s.len() >= 2 {
        assert(bars_at(s, 0));
    }
}

/// `str::split("||")`: the pieces between the non-overlapping `"||"`, leftmost first.
pub open spec fn split_bars(s: Seq<char>) -> Seq<Seq<char>>
    decreases s.len(),
{
    let k = first_bars(s) as int;
    if 0 <= k && k + 2 <= s.len() {
        seq![s.take(k)] + split_bars(s.skip(k + 2))
    } else {
        seq![s]
    }
}

/// `s.split("||")`.
pub fn split_on_bars(s: &[char]) -> (r: Vec<Vec<char>>)
    ensures
        views(r@) == split_bars(s@),
{
    let n = s.len();
    let mut out: Vec<Vec<char>> = Vec::new();
    let mut start: usize = 0;
    let mut i: usize = 0;
    proof {
        assert(s@.skip(0) =~= s@);
        assert(views(out@) + split_bars(s@) =~= split_bars(s@));
    }
    while n - i >= 2
        invariant
            start <= i <= n,
            n == s@.len(),
            views(out@) + split_bars(s@.skip(start as int)) == split_bars(s@),
            forall|j: int| start <= j < i ==> !bars_at(s@, j),
        decreases n - i,
    {
        if s[i] == '|' && s[i + 1] == '|' {
            let ghost rest = s@.skip(start as int);
            proof {
                assert forall|j: int| 0 <= j < i - start implies !bars_at(rest, j) by {
                    assert(!bars_at(s@, j + start));
                }
                assert(bars_at(rest, i - start));
                lemma_first_bars_at(rest, i - start);
                assert(rest.skip(i - start + 2) =~= s@.skip(i + 2));
                assert(rest.take(i - start) =~= s@.subrange(start as int, i as int));
            }
            let piece = copy_range(s, start, i);
            let ghost old_out = out@;
            out.push(piece);
            proof {
                assert(views(out@) =~= views(old_out).push(piece@));
                assert(views(out@) + split_bars(s@.skip(i + 2)) =~= views(old_out) + split_bars(rest));
            }
            i = i + 2;
            start = i;
        } else {
            proof {
                assert(!bars_at(s@, i as int));
            }
            i = i + 1;
        }
    }
    let ghost rest = s@.skip(start as int);
    proof {
        assert forall|j: int| 0 <= j < rest.len() implies !bars_at(rest, j) by {
            assert(!bars_at(s@, j + start));
        }
        lemma_first_bars_at(rest, rest.len() as int);
    }
    let piece = copy_range(s, start, n);
    let ghost old_out = out@;
    out.push(piece);
    proof {
        assert(piece@ =~= rest);
        assert(views(out@) =~= views(old_out) + split_bars(rest));
    }
    out
}

/// Whether `c` is an ASCII decimal digit.
pub open spec fn is_digit(c: char) -> bool {
    '0' <= c <= '9'
}

/// The value of an ASCII decimal digit.
pub open spec fn digit_value(c: char) -> nat {
    (c as int - '0' as int) as nat
}

/// The value of a string of decimal digits.
pub open spec fn digits_value(s: Seq<char>) -> nat
    decreases s.len(),
{
    if s.len() == 0 {
        0
    } else {
        digits_value(s.drop_last()) * 10 + digit_value(s.last())
    }
}

/// The digits that `u64::from_str` reads: the text after an optional leading `'+'`.
pub open spec fn unsigned_body(s: Seq<char>) -> Seq<char> {
    if s.len() > 1 && s[0] == '+' {
        s.drop_first()
    } else {
        s
    }
}

/// `str::parse::<u64>`: an optional `'+'` and at least one decimal digit, with a value that fits.
pub open spec fn parse_u64(s: Seq<char>) -> Option<u64> {
    let d = unsigned_body(s);
    if d.len() > 0 && (forall|i: int| 0 <= i < d.len() ==> is_digit(#[trigger] d[i]))
        && digits_value(d) <= u64::MAX {
        Some(digits_value(d) as u64)
    } else {
        None
    }
}

proof fn lemma_digits_value_grows(s: Seq<char>, i: int)
    requires
        0 <= i <= s.len(),
    ensures
        digits_value(s.take(i)) <= digits_value(s),
    decreases s.len() - i,
{
    if i < s.len() {
        lemma_digits_value_grows(s, i + 1);
        assert(s.take(i + 1).drop_last() =~= s.take(i));
    } else {
        assert(s.take(i) =~= s);
    }
}

/// `s.parse::<u64>().ok()`.
pub fn parse_u64_chars(s: &[char]) -> (r: Option<u64>)
    ensures
        r == parse_u64(s@),
{
    let start: usize = if s.len() > 1 && s[0] == '+' {
        1
    } else {
        0
    };
    let ghost d = unsigned_body(s@);
    proof {
        assert(d =~= s@.skip(start as int));
    }
    if start == s.len() {
        return None;
    }
    let mut value: u64 = 0;
    let mut i: usize = start;
    while i < s.len()
        invariant
            start <= i <= s@.len(),
            d == s@.skip(start as int),
            d == unsigned_body(s@),
            forall|j: int| 0 <= j < i - start ==> is_digit(#[trigger] d[j]),
            value == digits_value(d.take(i - start)),
        decreases s@.len() - i,
    {
        let c = s[i];
        proof {
            assert(d[i - start] == c);
        }
        if !('0' <= c && c <= '9') {
            proof {
                assert(!is_digit(d[i - start]));
                assert(!(forall|j: int| 0 <= j < d.len() ==> is_digit(#[trigger] d[j])));
                assert(unsigned_body(s@) == d);
            }
            return None;
        }
        let digit = (c as u32 - '0' as u32) as u64;
        proof {
            assert(d.take(i - start + 1).drop_last() =~= d.take(i - start));
            assert(d.take(i - start + 1).last() == c);
            assert(digit == digit_value(c));
            assert(digits_value(d.take(i - start + 1)) == value * 10 + digit);
        }
        if value > 1844674407370955161 || (value == 1844674407370955161 && digit > 5) {
            proof {
                lemma_digits_value_grows(d, i - start + 1);
                assert(digits_value(d) > u64::MAX);
                assert(unsigned_body(s@) == d);
            }
            return None;
        }
        value = value * 10 + digit;
        i = i + 1;
    }
    proof {
        assert(d.take(d.len() as int) =~= d);
    }
    Some(value)
}

/// The decimal digit character for `d < 10`.
pub open spec fn digit_char(d: nat) -> char {
    if d == 0 {
        '0'
    } else if d == 1 {
        '1'
    } else if d == 2 {
        '2'
    } else if d == 3 {
        '3'
    } else if d == 4 {
        '4'
    } else if d == 5 {
        '5'
    } else if d == 6 {
        '6'
    } else if d == 7 {
        '7'
    } else if d == 8 {
        '8'
    } else {
        '9'
    }
}

/// The decimal rendering of a natural number, as `Display` writes it.
pub open spec fn decimal(n: nat) -> Seq<char>
    decreases n,
{
    if n < 10 {
        seq![digit_char(n)]
    } else {
        decimal(n / 10).push(digit_char(n % 10))
    }
}

fn digit_to_char(d: u64) -> (c: char)
    requires
        d < 10,
    ensures
        c == digit_char(d as nat),
{
    if d == 0 {
        '0'
    } else if d == 1 {
        '1'
    } else if d == 2 {
        '2'
    } else if d == 3 {
        '3'
    } else if d == 4 {
        '4'
    } else if d == 5 {
        '5'
    } else if d == 6 {
        '6'
    } else if d == 7 {
        '7'
    } else if d == 8 {
        '8'
    } else {
        '9'
    }
}

/// Appends the decimal rendering of `n` to `out`.
pub fn push_decimal(out: &mut String, n: u64)
    ensures
        final(out)@ == old(out)@ + decimal(n as nat),
    decreases n,
{
    if n >= 10 {
        push_decimal(out, n / 10);
    }
    out.push(digit_to_char(n % 10));
    proof {
        assert(old(out)@ + decimal(n as nat) =~= final(out)@);
    }
}

/// Appends the characters of `cs` to `out`.
pub fn push_chars(out: &mut String, cs: &[char])
    ensures
        final(out)@ == old(out)@ + cs@,
{
    let mut i: usize = 0;
    while i < cs.len()
        invariant
            i <= cs@.len(),
            out@ == old(out)@ + cs@.take(i as int),
        decreases cs@.len() - i,
    {
        out.push(cs[i]);
        proof {
            assert(cs@.take(i + 1) =~= cs@.take(i as int).push(cs@[i as int]));
        }
        i = i + 1;
    }
    proof {
        assert(cs@.take(cs@.len() as int) =~= cs@);
    }
}

/// Appends `t` to `out`.
pub fn push_str(out: &mut String, t: &str)
    ensures
        final(out)@ == old(out)@ + t@,
{
    let cs = chars_of(t);
    push_chars(out, cs.as_slice());
}


/// Number of trailing `c` characters.
pub open spec fn trail_char(s: Seq<char>, c: char) -> nat
    decreases s.len(),
{
    if s.len() == 0 {
        0
    } else if s.last() == c {
        1 + trail_char(s.drop_last(), c)
    } else {
        0
    }
}

/// At most every character trails.
pub proof fn lemma_trail_char_bound(s: Seq<char>, c: char)
    ensures
        trail_char(s, c) <= s.len(),
    decreases s.len(),
{
    if s.len() > 0 {
        lemma_trail_char_bound(s.drop_last(), c);
    }
}

/// `str::trim_end_matches(c)`.
pub open spec fn trim_end_char(s: Seq<char>, c: char) -> Seq<char> {
    s.take(s.len() - trail_char(s, c))
}

proof fn lemma_trail_char_at(s: Seq<char>, c: char, k: int)
    requires
        0 <= k <= s.len(),
        forall|i: int| k <= i < s.len() ==> #[trigger] s[i] == c,
        k == 0 || s[k - 1] != c,
    ensures
        trail_char(s, c) == s.len() - k,
    decreases s.len() - k,
{
    if k < s.len() {
        assert forall|i: int| k <= i < s.len() - 1 implies #[trigger] s.drop_last()[i] == c by {
            assert(s.drop_last()[i] == s[i]);
        }
        if k > 0 {
            assert(s.drop_last()[k - 1] == s[k - 1]);
        }
        lemma_trail_char_at(s.drop_last(), c, k);
    }
}

/// `s.trim_end_matches(c)`.
pub fn trim_end_matching(s: &[char], c: char) -> (r: Vec<char>)
    ensures
        r@ == trim_end_char(s@, c),
{
    let mut b: usize = s.len();
    while b > 0 && s[b - 1] == c
        invariant
            b <= s@.len(),
            forall|i: int| b <= i < s@.len() ==> #[trigger] s@[i] == c,
        decreases b,
    {
        b = b - 1;
    }
    proof {
        lemma_trail_char_at(s@, c, b as int);
    }
    copy_range(s, 0, b)
}

/// The pieces joined with `sep` between them, as `[&str]::join` does.
pub open spec fn join(ps: Seq<Seq<char>>, sep: Seq<char>) -> Seq<char>
    decreases ps.len(),
{
    if ps.len() == 0 {
        Seq::<char>::empty()
    } else if ps.len() == 1 {
        ps[0]
    } else {
        join(ps.drop_last(), sep) + sep + ps.last()
    }
}

/// `ps.join(sep)` over character vectors.
pub fn join_chars(ps: &Vec<Vec<char>>, sep: &[char]) -> (r: Vec<char>)
    ensures
        r@ == join(views(ps@), sep@),
{
    let mut out: Vec<char> = Vec::new();
    let mut i: usize = 0;
    while i < ps.len()
        invariant
            i <= ps@.len(),
            out@ == join(views(ps@).take(i as int), sep@),
        decreases ps@.len() - i,
    {
        let ghost prev = out@;
        proof {
            assert(views(ps@).take(i + 1).drop_last() =~= views(ps@).take(i as int));
            assert(views(ps@).take(i + 1).last() == ps@[i as int]@);
        }
        if i > 0 {
            let mut k: usize = 0;
            while k < sep.len()
                invariant
                    k <= sep@.len(),
                    out@ == prev + sep@.take(k as int),
                decreases sep@.len() - k,
            {
                out.push(sep[k]);
                proof {
                    assert(sep@.take(k + 1) =~= sep@.take(k as int).push(sep@[k as int]));
                }
                k = k + 1;
            }
            proof {
                assert(sep@.take(sep@.len() as int) =~= sep@);
            }
        } else {
            proof {
                assert(prev =~= Seq::<char>::empty());
            }
        }
        let ghost mid = out@;
        let p = &ps[i];
        let mut k: usize = 0;
        while k < p.len()
            invariant
                k <= p@.len(),
                out@ == mid + p@.take(k as int),
            decreases p@.len() - k,
        {
            out.push(p[k]);
            proof {
                assert(p@.take(k + 1) =~= p@.take(k as int).push(p@[k as int]));
            }
            k = k + 1;
        }
        proof {
            assert(p@.take(p@.len() as int) =~= p@);
            if i == 0 {
                assert(out@ =~= join(views(ps@).take(1), sep@));
            } else {
                assert(out@ =~= join(views(ps@).take(i + 1), sep@));
            }
        }
        i = i + 1;
    }
    proof {
        assert(views(ps@).take(ps@.len() as int) =~= views(ps@));
    }
    out
}

/// Every `from` replaced by `to`, as `str::replace` does for single characters.
pub open spec fn replace_char(s: Seq<char>, from: char, to: char) -> Seq<char> {
    s.map_values(|c: char| if c == from { to } else { c })
}

pub fn replace_chars(s: &[char], from: char, to: char) -> (r: Vec<char>)
    ensures
        r@ == replace_char(s@, from, to),
{
    let mut out: Vec<char> = Vec::new();
    let mut i: usize = 0;
    while i < s.len()
        invariant
            i <= s@.len(),
            out@ == replace_char(s@.take(i as int), from, to),
        decreases s@.len() - i,
    {
        let c = s[i];
        out.push(if c == from { to } else { c });
        proof {
            assert(out@ =~= replace_char(s@.take(i + 1), from, to));
        }
        i = i + 1;
    }
    proof {
        assert(s@.take(s@.len() as int) =~= s@);
    }
    out
}

/// `str::strip_prefix`.
pub open spec fn strip_prefix(s: Seq<char>, p: Seq<char>) -> Option<Seq<char>> {
    if p.len() <= s.len() && s.take(p.len() as int) == p {
        Some(s.skip(p.len() as int))
    } else {
        None
    }
}

pub fn strip_prefix_chars(s: &[char], p: &str) -> (r: Option<Vec<char>>)
    ensures
        match r {
            Some(v) => strip_prefix(s@, p@) == Some(v@),
            None => strip_prefix(s@, p@) is None,
        },
{
    let pc = chars_of(p);
    if pc.len() > s.len() {
        return None;
    }
    let head = copy_range(s, 0, pc.len());
    if chars_eq(head.as_slice(), pc.as_slice()) {
        let rest = copy_range(s, pc.len(), s.len());
        proof {
            assert(rest@ =~= s@.skip(pc@.len() as int));
        }
        Some(rest)
    } else {
        None
    }
}

/// Whether `s` is exactly the text `t`.
pub fn chars_are(s: &[char], t: &str) -> (r: bool)
    ensures
        r == (s@ == t@),
{
    let tc = chars_of(t);
    chars_eq(s, tc.as_slice())
}


/// Whether two string slices hold the same text.
pub fn str_eq(a: &str, b: &str) -> (r: bool)
    ensures
        r == (a@ == b@),
{
    let ac = chars_of(a);
    let bc = chars_of(b);
    chars_eq(ac.as_slice(), bc.as_slice())
}


/// The order of two strings: by code point, as `String`'s `Ord` compares them.
pub fn compare_strs(a: &str, b: &str) -> (r: crate::order::Order)
    ensures
        r == crate::order::lex_compare(a@, b@),
{
    let ac = chars_of(a);
    let bc = chars_of(b);
    crate::order::compare_chars(ac.as_slice(), bc.as_slice())
}

/// No character of `s` is `c`.
pub open spec fn free_of(s: Seq<char>, c: char) -> bool {
    forall|i: int| 0 <= i < s.len() ==> #[trigger] s[i] != c
}

/// A text that a line-oriented reader keeps whole: no comment marker and no
/// line break.
pub open spec fn line_safe(t: Seq<char>) -> bool {
    free_of(t, '#') && free_of(t, '\n')
}

/// Joining texts that are each kept whole keeps the result whole.
pub proof fn lemma_line_safe_concat(a: Seq<char>, b: Seq<char>)
    requires
        line_safe(a),
        line_safe(b),
    ensures
        line_safe(a + b),
{
    let t = a + b;
    assert forall|i: int| 0 <= i < t.len() implies #[trigger] t[i] != '#' && t[i] != '\n' by {
        if i < a.len() {
            assert(t[i] == a[i]);
        } else {
            assert(t[i] == b[i - a.len()]);
        }
    }
}

/// Pieces kept whole, joined by a separator kept whole, are kept whole.
pub proof fn lemma_line_safe_join(ps: Seq<Seq<char>>, sep: Seq<char>)
    requires
        forall|k: int| 0 <= k < ps.len() ==> line_safe(#[trigger] ps[k]),
        line_safe(sep),
    ensures
        line_safe(join(ps, sep)),
    decreases ps.len(),
{
    if ps.len() == 1 {
        assert(line_safe(ps[0]));
    } else if ps.len() > 1 {
        let init = ps.drop_last();
        assert forall|k: int| 0 <= k < init.len() implies line_safe(#[trigger] init[k]) by {
            assert(init[k] == ps[k]);
        }
        lemma_line_safe_join(init, sep);
        assert(line_safe(ps[ps.len() - 1]));
        lemma_line_safe_concat(join(init, sep), sep);
        lemma_line_safe_concat(join(init, sep) + sep, ps.last());
    }
}

/// Each line followed by a line break.
pub open spec fn lines_text(ls: Seq<Seq<char>>) -> Seq<char>
    decreases ls.len(),
{
    if ls.len() == 0 {
        Seq::empty()
    } else {
        lines_text(ls.drop_last()) + ls.last() + seq!['\n']
    }
}

/// Lines written one after another, each with its break, read back in order.
pub proof fn lemma_lines_text_append(xs: Seq<Seq<char>>, ys: Seq<Seq<char>>)
    ensures
        lines_text(xs + ys) == lines_text(xs) + lines_text(ys),
    decreases ys.len(),
{
    if ys.len() == 0 {
        assert(xs + ys =~= xs);
        assert(lines_text(xs) + lines_text(ys) =~= lines_text(xs));
    } else {
        lemma_lines_text_append(xs, ys.drop_last());
        assert((xs + ys).drop_last() =~= xs + ys.drop_last());
        assert((xs + ys).last() == ys.last());
        assert(lines_text(xs + ys) =~= lines_text(xs) + lines_text(ys));
    }
}

/// Written lines followed by a last piece split at line breaks into those
/// lines and that piece.
proof fn lemma_split_lines_text(ls: Seq<Seq<char>>, l: Seq<char>)
    requires
        forall|k: int| 0 <= k < ls.len() ==> free_of(#[trigger] ls[k], '\n'),
        free_of(l, '\n'),
    ensures
        split(lines_text(ls) + l, '\n') == ls.push(l),
    decreases ls.len(),
{
    if ls.len() == 0 {
        lemma_split_whole(l, '\n');
        assert(lines_text(ls) + l =~= l);
        assert(ls.push(l) =~= seq![l]);
    } else {
        let init = ls.drop_last();
        let m = ls.last();
        assert forall|k: int| 0 <= k < init.len() implies free_of(#[trigger] init[k], '\n') by {
            assert(init[k] == ls[k]);
        }
        assert(free_of(ls[ls.len() - 1], '\n'));
        lemma_split_lines_text(init, m);
        lemma_split_after(lines_text(init) + m, l, '\n');
        assert(lines_text(ls) + l =~= (lines_text(init) + m) + seq!['\n'] + l);
        assert(init.push(m) =~= ls);
    }
}

/// Written lines, none empty or ending in a carriage return, read back as
/// those lines.
pub proof fn lemma_lines_of_lines_text(ls: Seq<Seq<char>>)
    requires
        ls.len() > 0,
        forall|k: int|
            0 <= k < ls.len() ==> free_of(#[trigger] ls[k], '\n') && ls[k].len() > 0 && ls[k].last() != '\r',
    ensures
        lines(lines_text(ls)) == ls,
{
    let e = Seq::<char>::empty();
    assert forall|k: int| 0 <= k < ls.len() implies free_of(#[trigger] ls[k], '\n') by {
        assert(free_of(ls[k], '\n'));
    }
    lemma_split_lines_text(ls, e);
    assert(lines_text(ls) + e =~= lines_text(ls));
    let p = split(lines_text(ls), '\n');
    assert(p == ls.push(e));
    assert(p[p.len() - 1].len() == 0);
    assert forall|i: int| 0 <= i < ls.len() implies #[trigger] lines(lines_text(ls))[i] == ls[i] by {
        assert(p[i] == ls[i]);
        assert(ls[i].len() > 0 && ls[i].last() != '\r');
    }
    assert(lines(lines_text(ls)) =~= ls);
}

/// A text without the separator is one piece.
pub proof fn lemma_split_whole(s: Seq<char>, c: char)
    requires
        free_of(s, c),
    ensures
        split(s, c) == seq![s],
    decreases s.len(),
{
    if s.len() > 0 {
        let init = s.drop_last();
        assert(free_of(init, c)) by {
            assert forall|i: int| 0 <= i < init.len() implies #[trigger] init[i] != c by {
                assert(init[i] == s[i]);
            }
        }
        lemma_split_whole(init, c);
        assert(s[s.len() - 1] != c);
        assert(init.push(s.last()) =~= s);
        assert(seq![init].update(0, init.push(s.last())) =~= seq![s]);
    } else {
        assert(s =~= Seq::<char>::empty());
    }
}

/// The first piece of a split is the text up to the first separator: a prefix of
/// the text, and the whole text when there is no other piece.
pub proof fn lemma_split_first(s: Seq<char>, c: char)
    ensures
        split(s, c).len() >= 1,
        split(s, c)[0].len() <= s.len(),
        split(s, c)[0] == s.take(split(s, c)[0].len() as int),
        split(s, c).len() == 1 ==> split(s, c)[0] == s,
    decreases s.len(),
{
    lemma_split_nonempty(s, c);
    if s.len() == 0 {
        assert(s.take(0) =~= Seq::<char>::empty());
    } else {
        let init = s.drop_last();
        lemma_split_first(init, c);
        let r = split(init, c);
        let k = r[0].len() as int;
        if s.last() == c {
            assert(split(s, c)[0] == r[0]);
            assert(s.take(k) =~= init.take(k));
        } else if r.len() == 1 {
            assert(split(s, c)[0] == r[0].push(s.last()));
            assert(init.push(s.last()) =~= s);
            assert(s.take(s.len() as int) =~= s);
        } else {
            assert(split(s, c)[0] == r[0]);
            assert(s.take(k) =~= init.take(k));
        }
    }
}

/// Text without a bar, then `"||"`, then the rest, splits into that text
/// followed by the pieces of the rest.
pub proof fn lemma_split_bars_first(a: Seq<char>, b: Seq<char>)
    requires
        free_of(a, '|'),
    ensures
        split_bars(a + seq!['|', '|'] + b) == seq![a] + split_bars(b),
{
    let s = a + seq!['|', '|'] + b;
    let k = a.len() as int;
    assert forall|i: int| 0 <= i < k implies !bars_at(s, i) by {
        assert(s[i] == a[i]);
    }
    assert(s[k] == '|' && s[k + 1] == '|');
    assert(bars_at(s, k));
    lemma_first_bars_at(s, k);
    assert(s.take(k) =~= a);
    assert(s.skip(k + 2) =~= b);
}

/// A join of two or more pieces is the first piece, the separator, and the
/// join of the rest.
pub proof fn lemma_join_first(ps: Seq<Seq<char>>, sep: Seq<char>)
    requires
        ps.len() >= 2,
    ensures
        join(ps, sep) == ps[0] + sep + join(ps.drop_first(), sep),
    decreases ps.len(),
{
    let rest = ps.drop_first();
    if ps.len() == 2 {
        assert(ps.drop_last() =~= seq![ps[0]]);
        assert(rest =~= seq![ps[1]]);
        assert(join(ps.drop_last(), sep) == ps[0]);
        assert(join(rest, sep) == ps[1]);
        assert(ps.last() == ps[1]);
    } else {
        let init = ps.drop_last();
        lemma_join_first(init, sep);
        assert(init.drop_first() =~= rest.drop_last());
        assert(rest.last() == ps.last());
        assert(init[0] == ps[0]);
        assert(join(rest, sep) == join(rest.drop_last(), sep) + sep + rest.last());
        assert(join(ps, sep) == join(init, sep) + sep + ps.last());
        assert(join(ps, sep) =~= ps[0] + sep + join(rest, sep));
    }
}

/// Splitting `a`, the separator, then `b` without it, gives the pieces of `a`
/// followed by `b`.
pub proof fn lemma_split_after(a: Seq<char>, b: Seq<char>, c: char)
    requires
        free_of(b, c),
    ensures
        split(a + seq![c] + b, c) == split(a, c).push(b),
    decreases b.len(),
{
    lemma_split_nonempty(a, c);
    if b.len() == 0 {
        assert(a + seq![c] + b =~= a.push(c));
        assert((a.push(c)).drop_last() =~= a);
        assert(b =~= Seq::<char>::empty());
        assert(split(a.push(c), c) == split(a, c).push(Seq::<char>::empty()));
    } else {
        let b0 = b.drop_last();
        assert(free_of(b0, c)) by {
            assert forall|i: int| 0 <= i < b0.len() implies #[trigger] b0[i] != c by {
                assert(b0[i] == b[i]);
            }
        }
        lemma_split_after(a, b0, c);
        let s = a + seq![c] + b;
        assert(s.drop_last() =~= a + seq![c] + b0);
        assert(s.last() == b.last());
        assert(b[b.len() - 1] != c);
        let r = split(a, c).push(b0);
        assert(b0.push(b.last()) =~= b);
        assert(split(s, c) == r.update(r.len() - 1, r.last().push(s.last())));
        assert(r.update(r.len() - 1, r.last().push(b.last())) =~= split(a, c).push(b));
    }
}

/// Splitting pieces joined by the separator gives the pieces back, when no
/// piece holds the separator.
pub proof fn lemma_split_join(ps: Seq<Seq<char>>, c: char)
    requires
        ps.len() >= 1,
        forall|k: int| 0 <= k < ps.len() ==> free_of(#[trigger] ps[k], c),
    ensures
        split(join(ps, seq![c]), c) == ps,
    decreases ps.len(),
{
    if ps.len() == 1 {
        lemma_split_whole(ps[0], c);
        assert(seq![ps[0]] =~= ps);
    } else {
        let init = ps.drop_last();
        assert forall|k: int| 0 <= k < init.len() implies free_of(#[trigger] init[k], c) by {
            assert(init[k] == ps[k]);
        }
        lemma_split_join(init, c);
        assert(free_of(ps[ps.len() - 1], c));
        lemma_split_after(join(init, seq![c]), ps.last(), c);
        assert(init.push(ps.last()) =~= ps);
    }
}

/// Text around the first separator: `a` (free of it), the separator, then `b`.
pub proof fn lemma_split_once_at(a: Seq<char>, b: Seq<char>, c: char)
    requires
        free_of(a, c),
    ensures
        split_once(a + seq![c] + b, c) == Some((a, b)),
{
    let s = a + seq![c] + b;
    assert forall|i: int| 0 <= i < a.len() implies #[trigger] s[i] != c by {
        assert(s[i] == a[i]);
    }
    assert(s[a.len() as int] == c);
    lemma_first_index_at(s, c, a.len() as int);
    assert(s.take(a.len() as int) =~= a);
    assert(s.skip(a.len() as int + 1) =~= b);
}

/// A text without the separator has no split point.
pub proof fn lemma_split_once_none(s: Seq<char>, c: char)
    requires
        free_of(s, c),
    ensures
        split_once(s, c) is None,
{
    lemma_first_index_at(s, c, s.len() as int);
}

/// A text that neither starts nor ends with whitespace is its own trim.
pub proof fn lemma_trim_same(s: Seq<char>)
    requires
        s.len() > 0,
        !is_ws(s[0]),
        !is_ws(s.last()),
    ensures
        trim(s) == s,
{
    lemma_lead_ws_at(s, 0);
    assert(s.skip(0) =~= s);
    lemma_trail_ws_at(s, s.len() as int);
    assert(s.take(s.len() as int) =~= s);
}

/// The decimal rendering of `n` is a nonempty run of digits worth `n`.
pub proof fn lemma_decimal(n: nat)
    ensures
        decimal(n).len() >= 1,
        forall|i: int| 0 <= i < decimal(n).len() ==> is_digit(#[trigger] decimal(n)[i]),
        digits_value(decimal(n)) == n,
    decreases n,
{
    if n >= 10 {
        lemma_decimal(n / 10);
        let d = decimal(n / 10);
        let e = d.push(digit_char(n % 10));
        assert forall|i: int| 0 <= i < e.len() implies is_digit(#[trigger] e[i]) by {
            if i < d.len() {
                assert(e[i] == d[i]);
            }
        }
        assert(e.drop_last() =~= d);
        assert(e.last() == digit_char(n % 10));
        assert(digit_value(digit_char(n % 10)) == n % 10);
        assert((n / 10) * 10 + n % 10 == n) by (nonlinear_arith);
        assert(decimal(n) == e);
        assert(digits_value(e) == digits_value(d) * 10 + digit_value(digit_char(n % 10)));
    } else {
        assert(digit_value(digit_char(n)) == n);
        let e = seq![digit_char(n)];
        assert(e.drop_last() =~= Seq::<char>::empty());
        assert(digits_value(Seq::<char>::empty()) == 0);
        assert(decimal(n) == e);
        assert(digits_value(e) == digits_value(e.drop_last()) * 10 + digit_value(e.last()));
    }
}

/// What `Display` writes for a `u64` parses back to it.
pub proof fn lemma_decimal_parses(n: u64)
    ensures
        parse_u64(decimal(n as nat)) == Some(n),
        free_of(decimal(n as nat), '.'),
        free_of(decimal(n as nat), '-'),
        !is_ws(decimal(n as nat)[0]),
        !is_ws(decimal(n as nat).last()),
{
    lemma_decimal(n as nat);
    let d = decimal(n as nat);
    assert(is_digit(d[0]));
    assert(is_digit(d[d.len() - 1]));
    assert(unsigned_body(d) == d);
    assert forall|i: int| 0 <= i < d.len() implies #[trigger] d[i] != '.' by {
        assert(is_digit(d[i]));
    }
    assert forall|i: int| 0 <= i < d.len() implies #[trigger] d[i] != '-' by {
        assert(is_digit(d[i]));
    }
}

} // verus!
