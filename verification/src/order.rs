//! Three-way comparison results and the orders the library compares by.
use vstd::prelude::*;

verus! {

/// The outcome of a three-way comparison.
#[derive(PartialEq, Eq, Structural, Clone, Copy, Debug)]
pub enum Order {
    Less,
    Equal,
    Greater,
}

/// The comparison of two integers.
pub open spec fn compare_int(a: int, b: int) -> Order {
    if a < b {
        Order::Less
    } else if a == b {
        Order::Equal
    } else {
        Order::Greater
    }
}

/// `a`, unless it is `Equal`, in which case `b`: lexicographic combination.
pub open spec fn then(a: Order, b: Order) -> Order {
    if a == Order::Equal {
        b
    } else {
        a
    }
}

/// The comparison seen from the other side.
pub open spec fn flip(o: Order) -> Order {
    match o {
        Order::Less => Order::Greater,
        Order::Equal => Order::Equal,
        Order::Greater => Order::Less,
    }
}

/// The laws of a total preorder, stated for one comparison function on three values.
pub open spec fn preorder_laws(ab: Order, bc: Order, ac: Order) -> bool {
    &&& (ab != Order::Greater && bc != Order::Greater ==> ac != Order::Greater)
    &&& (ab == Order::Less && bc != Order::Greater ==> ac == Order::Less)
    &&& (ab != Order::Greater && bc == Order::Less ==> ac == Order::Less)
    &&& (ab == Order::Equal && bc == Order::Equal ==> ac == Order::Equal)
}

pub fn compare_u64(a: u64, b: u64) -> (r: Order)
    ensures
        r == compare_int(a as int, b as int),
{
    if a < b {
        Order::Less
    } else if a == b {
        Order::Equal
    } else {
        Order::Greater
    }
}

pub fn compare_usize(a: usize, b: usize) -> (r: Order)
    ensures
        r == compare_int(a as int, b as int),
{
    if a < b {
        Order::Less
    } else if a == b {
        Order::Equal
    } else {
        Order::Greater
    }
}

/// Lexicographic comparison of character sequences by code point, the order `String` has.
pub open spec fn lex_compare(a: Seq<char>, b: Seq<char>) -> Order
    decreases a.len(),
{
    if a.len() == 0 || b.len() == 0 {
        compare_int(a.len() as int, b.len() as int)
    } else if a[0] != b[0] {
        compare_int(a[0] as int, b[0] as int)
    } else {
        lex_compare(a.drop_first(), b.drop_first())
    }
}

pub proof fn lemma_lex_refl(a: Seq<char>)
    ensures
        lex_compare(a, a) == Order::Equal,
    decreases a.len(),
{
    if a.len() > 0 {
        lemma_lex_refl(a.drop_first());
    }
}

pub proof fn lemma_lex_flip(a: Seq<char>, b: Seq<char>)
    ensures
        lex_compare(a, b) == flip(lex_compare(b, a)),
    decreases a.len(),
{
    if a.len() > 0 && b.len() > 0 && a[0] == b[0] {
        lemma_lex_flip(a.drop_first(), b.drop_first());
    }
}

pub proof fn lemma_lex_equal(a: Seq<char>, b: Seq<char>)
    requires
        lex_compare(a, b) == Order::Equal,
    ensures
        a == b,
    decreases a.len(),
{
    if a.len() > 0 && b.len() > 0 {
        lemma_lex_equal(a.drop_first(), b.drop_first());
        assert(a =~= seq![a[0]] + a.drop_first());
        assert(b =~= seq![b[0]] + b.drop_first());
    }
}

pub proof fn lemma_lex_trans(a: Seq<char>, b: Seq<char>, c: Seq<char>)
    ensures
        preorder_laws(lex_compare(a, b), lex_compare(b, c), lex_compare(a, c)),
    decreases a.len(),
{
    if a.len() > 0 && b.len() > 0 && c.len() > 0 {
        lemma_lex_trans(a.drop_first(), b.drop_first(), c.drop_first());
    }
}

/// Lexicographic comparison of two character sequences.
pub fn compare_chars(a: &[char], b: &[char]) -> (r: Order)
    ensures
        r == lex_compare(a@, b@),
{
    let mut i: usize = 0;
    proof {
        assert(a@.skip(0) =~= a@);
        assert(b@.skip(0) =~= b@);
    }
    while i < a.len() && i < b.len() && a[i] == b[i]
        invariant
            i <= a@.len(),
            i <= b@.len(),
            lex_compare(a@, b@) == lex_compare(a@.skip(i as int), b@.skip(i as int)),
        decreases a@.len() - i,
    {
        proof {
            assert(a@.skip(i as int).drop_first() =~= a@.skip(i + 1));
            assert(b@.skip(i as int).drop_first() =~= b@.skip(i + 1));
        }
        i = i + 1;
    }
    proof {
        if i < a.len() && i < b.len() {
            assert(a@.skip(i as int)[0] == a@[i as int]);
            assert(b@.skip(i as int)[0] == b@[i as int]);
        }
    }
    if i == a.len() || i == b.len() {
        compare_usize(a.len() - i, b.len() - i)
    } else if a[i] < b[i] {
        Order::Less
    } else {
        Order::Greater
    }
}

} // verus!
