use std::cmp::Ordering;
use vstd::prelude::*;

verus! {

/// The outcome of comparing two keys.
#[derive(Debug, Clone, Copy, PartialEq, Eq)]
pub enum KeyOrder {
    Less,
    Equal,
    Greater,
}

/// An ordering on keys.
///
/// An implementation names a strict total order on byte strings
/// (`precedes`), proves that it is one, and compares two keys by it.
/// Two keys compare `Equal` exactly when they are the same bytes.
pub trait Comparator: Sized + Send + Sync + 'static {
    /// `left` sorts strictly before `right`.
    spec fn precedes(&self, left: Seq<u8>, right: Seq<u8>) -> bool;

    /// `precedes` is irreflexive, transitive and total on distinct keys.
    proof fn lemma_strict_total_order(&self)
        ensures
            forall|a: Seq<u8>| !#[trigger] self.precedes(a, a),
            forall|a: Seq<u8>, b: Seq<u8>, c: Seq<u8>|
                #[trigger] self.precedes(a, b) && #[trigger] self.precedes(b, c) ==> self.precedes(
                    a,
                    c,
                ),
            forall|a: Seq<u8>, b: Seq<u8>|
                a != b ==> #[trigger] self.precedes(a, b) || #[trigger] self.precedes(b, a),
    ;

    /// The comparator's name.
    fn name(&self) -> &'static str;

    /// Compares two keys by `precedes`.
    fn order(&self, left: &[u8], right: &[u8]) -> (r: KeyOrder)
        ensures
            r == KeyOrder::Less <==> self.precedes(left@, right@),
            r == KeyOrder::Equal <==> left@ == right@,
            r == KeyOrder::Greater <==> self.precedes(right@, left@),
    ;

    /// Compares two keys by `precedes`, as a `std::cmp::Ordering`.
    fn compare(&self, left: &[u8], right: &[u8]) -> (r: Ordering)
        ensures
            r == Ordering::Less <==> self.precedes(left@, right@),
            r == Ordering::Equal <==> left@ == right@,
            r == Ordering::Greater <==> self.precedes(right@, left@),
    {
        match self.order(left, right) {
            KeyOrder::Less => Ordering::Less,
            KeyOrder::Equal => Ordering::Equal,
            KeyOrder::Greater => Ordering::Greater,
        }
    }
}

/// Lexicographic order on byte strings: a proper prefix sorts first, and
/// otherwise the first differing byte decides.
pub open spec fn lex_less(a: Seq<u8>, b: Seq<u8>) -> bool
    decreases a.len(),
{
    if a.len() == 0 {
        b.len() > 0
    } else if b.len() == 0 {
        false
    } else if a[0] != b[0] {
        a[0] < b[0]
    } else {
        lex_less(a.drop_first(), b.drop_first())
    }
}

/// `lex_less` is irreflexive.
pub proof fn lemma_lex_irreflexive(a: Seq<u8>)
    ensures
        !lex_less(a, a),
    decreases a.len(),
{
    if a.len() > 0 {
        lemma_lex_irreflexive(a.drop_first());
    }
}

/// `lex_less` is transitive.
pub proof fn lemma_lex_transitive(a: Seq<u8>, b: Seq<u8>, c: Seq<u8>)
    requires
        lex_less(a, b),
        lex_less(b, c),
    ensures
        lex_less(a, c),
    decreases a.len(),
{
    if a.len() > 0 && b.len() > 0 && c.len() > 0 && a[0] == b[0] && b[0] == c[0] {
        lemma_lex_transitive(a.drop_first(), b.drop_first(), c.drop_first());
    }
}

/// Two distinct byte strings are ordered one way or the other.
pub proof fn lemma_lex_total(a: Seq<u8>, b: Seq<u8>)
    requires
        a != b,
    ensures
        lex_less(a, b) || lex_less(b, a),
    decreases a.len(),
{
    if a.len() > 0 && b.len() > 0 && a[0] == b[0] {
        if a.drop_first() == b.drop_first() {
            assert(a =~= seq![a[0]] + a.drop_first());
            assert(b =~= seq![b[0]] + b.drop_first());
        }
        lemma_lex_total(a.drop_first(), b.drop_first());
    } else if a.len() == 0 && b.len() == 0 {
        assert(a =~= b);
    }
}

/// Once the first `i` bytes agree, the order is decided by what follows.
proof fn lemma_lex_skip(a: Seq<u8>, b: Seq<u8>, i: int)
    requires
        0 <= i <= a.len(),
        i <= b.len(),
        a.take(i) == b.take(i),
    ensures
        lex_less(a, b) == lex_less(a.skip(i), b.skip(i)),
    decreases i,
{
    if i > 0 {
        assert(a[0] == a.take(i)[0]);
        assert(b[0] == b.take(i)[0]);
        assert(a.drop_first().take(i - 1) =~= a.take(i).drop_first());
        assert(b.drop_first().take(i - 1) =~= b.take(i).drop_first());
        lemma_lex_skip(a.drop_first(), b.drop_first(), i - 1);
        assert(a.drop_first().skip(i - 1) =~= a.skip(i));
        assert(b.drop_first().skip(i - 1) =~= b.skip(i));
    } else {
        assert(a.skip(0) =~= a);
        assert(b.skip(0) =~= b);
    }
}

/// Orders keys byte by byte, as slices of `u8` are ordered.
#[derive(Debug, Clone, PartialEq, Eq)]
pub struct BytewiseComparator;

impl Comparator for BytewiseComparator {
    open spec fn precedes(&self, left: Seq<u8>, right: Seq<u8>) -> bool {
        lex_less(left, right)
    }

    proof fn lemma_strict_total_order(&self) {
        assert forall|a: Seq<u8>| !#[trigger] self.precedes(a, a) by {
            lemma_lex_irreflexive(a);
        }
        assert forall|a: Seq<u8>, b: Seq<u8>, c: Seq<u8>|
            #[trigger] self.precedes(a, b) && #[trigger] self.precedes(b, c) implies self.precedes(
            a,
            c,
        ) by {
            lemma_lex_transitive(a, b, c);
        }
        assert forall|a: Seq<u8>, b: Seq<u8>|
            a != b implies #[trigger] self.precedes(a, b) || #[trigger] self.precedes(b, a) by {
            lemma_lex_total(a, b);
        }
    }

    fn name(&self) -> (r: &'static str)
        ensures
            r@ == "byteswise"@,
    {
        "byteswise"
    }

    fn order(&self, left: &[u8], right: &[u8]) -> (r: KeyOrder) {
        let n = if left.len() < right.len() {
            left.len()
        } else {
            right.len()
        };
        let mut i: usize = 0;
        while i < n
            invariant
                n <= left@.len(),
                n <= right@.len(),
                n == left@.len() || n == right@.len(),
                0 <= i <= n,
                left@.take(i as int) == right@.take(i as int),
            decreases n - i,
        {
            if left[i] != right[i] {
                proof {
                    lemma_lex_skip(left@, right@, i as int);
                    lemma_lex_irreflexive(left@);
                }
                if left[i] < right[i] {
                    proof {
                        lemma_lex_skip(right@, left@, i as int);
                    }
                    return KeyOrder::Less;
                } else {
                    proof {
                        lemma_lex_skip(right@, left@, i as int);
                    }
                    return KeyOrder::Greater;
                }
            }
            assert(left@.take(i + 1) =~= left@.take(i as int).push(left@[i as int]));
            assert(right@.take(i + 1) =~= right@.take(i as int).push(right@[i as int]));
            i = i + 1;
        }
        proof {
            lemma_lex_skip(left@, right@, i as int);
            lemma_lex_skip(right@, left@, i as int);
            if left@.len() == right@.len() {
                assert(left@ =~= left@.take(i as int));
                assert(right@ =~= right@.take(i as int));
            }
        }
        if left.len() < right.len() {
            KeyOrder::Less
        } else if left.len() == right.len() {
            KeyOrder::Equal
        } else {
            KeyOrder::Greater
        }
    }
}


/// Bytewise, two keys that agree up to index `i` and differ there are
/// ordered by their bytes at `i` as unsigned numbers.
pub proof fn bytewise_first_difference_decides(left: Seq<u8>, right: Seq<u8>, i: int)
    requires
        0 <= i < left.len(),
        i < right.len(),
        left.take(i) == right.take(i),
        left[i] != right[i],
    ensures
        BytewiseComparator.precedes(left, right) <==> left[i] < right[i],
        BytewiseComparator.precedes(right, left) <==> right[i] < left[i],
{
    lemma_lex_skip(left, right, i);
    lemma_lex_skip(right, left, i);
    assert(left.skip(i)[0] == left[i]);
    assert(right.skip(i)[0] == right[i]);
}

/// Bytewise, a key sorts before every longer key that it is a prefix of.
pub proof fn bytewise_prefix_sorts_first(left: Seq<u8>, right: Seq<u8>)
    requires
        left.len() < right.len(),
        right.take(left.len() as int) == left,
    ensures
        BytewiseComparator.precedes(left, right),
        !BytewiseComparator.precedes(right, left),
{
    let n = left.len() as int;
    assert(left.take(n) =~= left);
    lemma_lex_skip(left, right, n);
    lemma_lex_skip(right, left, n);
    assert(left.skip(n).len() == 0);
}

} // verus!
