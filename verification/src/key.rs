//! Keys of the ordered indexes: a total order on the view of a key, and an
//! executable three-way comparison that agrees with it.
use vstd::prelude::*;

verus! {

/// Result of comparing two keys.
#[derive(Clone, Copy, Debug, PartialEq, Eq, Structural)]
pub enum KeyOrder {
    Less,
    Equal,
    Greater,
}

/// A key type of an ordered index. The order is a strict total order on the
/// view of the key, and `compare` decides it.
pub trait IndexKey: View + Sized {
    /// Strict order on key views.
    spec fn key_lt(a: Self::V, b: Self::V) -> bool;

    proof fn lemma_lt_irreflexive(a: Self::V)
        ensures
            !Self::key_lt(a, a),
    ;

    proof fn lemma_lt_transitive(a: Self::V, b: Self::V, c: Self::V)
        requires
            Self::key_lt(a, b),
            Self::key_lt(b, c),
        ensures
            Self::key_lt(a, c),
    ;

    proof fn lemma_lt_total(a: Self::V, b: Self::V)
        ensures
            Self::key_lt(a, b) || Self::key_lt(b, a) || a == b,
    ;

    fn compare(&self, other: &Self) -> (o: KeyOrder)
        ensures
            o == KeyOrder::Less <==> Self::key_lt(self@, other@),
            o == KeyOrder::Equal <==> self@ == other@,
            o == KeyOrder::Greater <==> Self::key_lt(other@, self@),
    ;
}

/// `a <= b` in the order of `K`.
pub open spec fn key_le<K: IndexKey>(a: K::V, b: K::V) -> bool {
    K::key_lt(a, b) || a == b
}

/// `lo <= k <= hi` in the order of `K`.
pub open spec fn key_in_range<K: IndexKey>(k: K::V, lo: K::V, hi: K::V) -> bool {
    key_le::<K>(lo, k) && key_le::<K>(k, hi)
}

/// Lemma: an irreflexive transitive total order is also asymmetric.
pub proof fn lemma_lt_asymmetric<K: IndexKey>(a: K::V, b: K::V)
    requires
        K::key_lt(a, b),
    ensures
        !K::key_lt(b, a),
        a != b,
{
    K::lemma_lt_irreflexive(a);
    if K::key_lt(b, a) {
        K::lemma_lt_transitive(a, b, a);
    }
}

/// Lemma: `a < b <= c` implies `a < c`, and `a <= b < c` implies `a < c`.
pub proof fn lemma_lt_le_transitive<K: IndexKey>(a: K::V, b: K::V, c: K::V)
    ensures
        K::key_lt(a, b) && key_le::<K>(b, c) ==> K::key_lt(a, c),
        key_le::<K>(a, b) && K::key_lt(b, c) ==> K::key_lt(a, c),
        key_le::<K>(a, b) && key_le::<K>(b, c) ==> key_le::<K>(a, c),
{
    if K::key_lt(a, b) && K::key_lt(b, c) {
        K::lemma_lt_transitive(a, b, c);
    }
}

/// Lemma: `!(a < b)` means `b <= a`.
pub proof fn lemma_not_lt<K: IndexKey>(a: K::V, b: K::V)
    ensures
        !K::key_lt(a, b) <==> key_le::<K>(b, a),
{
    K::lemma_lt_total(a, b);
    if K::key_lt(a, b) {
        lemma_lt_asymmetric::<K>(a, b);
    }
    if b == a {
        K::lemma_lt_irreflexive(a);
    }
}

impl IndexKey for u32 {
    open spec fn key_lt(a: u32, b: u32) -> bool {
        a < b
    }

    proof fn lemma_lt_irreflexive(a: u32) {
    }

    proof fn lemma_lt_transitive(a: u32, b: u32, c: u32) {
    }

    proof fn lemma_lt_total(a: u32, b: u32) {
    }

    fn compare(&self, other: &u32) -> (o: KeyOrder) {
        if *self < *other {
            KeyOrder::Less
        } else if *self == *other {
            KeyOrder::Equal
        } else {
            KeyOrder::Greater
        }
    }
}

impl IndexKey for i32 {
    open spec fn key_lt(a: i32, b: i32) -> bool {
        a < b
    }

    proof fn lemma_lt_irreflexive(a: i32) {
    }

    proof fn lemma_lt_transitive(a: i32, b: i32, c: i32) {
    }

    proof fn lemma_lt_total(a: i32, b: i32) {
    }

    fn compare(&self, other: &i32) -> (o: KeyOrder) {
        if *self < *other {
            KeyOrder::Less
        } else if *self == *other {
            KeyOrder::Equal
        } else {
            KeyOrder::Greater
        }
    }
}

impl IndexKey for u64 {
    open spec fn key_lt(a: u64, b: u64) -> bool {
        a < b
    }

    proof fn lemma_lt_irreflexive(a: u64) {
    }

    proof fn lemma_lt_transitive(a: u64, b: u64, c: u64) {
    }

    proof fn lemma_lt_total(a: u64, b: u64) {
    }

    fn compare(&self, other: &u64) -> (o: KeyOrder) {
        if *self < *other {
            KeyOrder::Less
        } else if *self == *other {
            KeyOrder::Equal
        } else {
            KeyOrder::Greater
        }
    }
}

/// Lexicographic order on byte strings: a proper prefix is smaller.
pub open spec fn bytes_lt(a: Seq<u8>, b: Seq<u8>) -> bool
    decreases a.len(),
{
    if a.len() == 0 {
        b.len() > 0
    } else if b.len() == 0 {
        false
    } else if a[0] < b[0] {
        true
    } else if a[0] > b[0] {
        false
    } else {
        bytes_lt(a.drop_first(), b.drop_first())
    }
}

proof fn lemma_bytes_lt_irreflexive(a: Seq<u8>)
    ensures
        !bytes_lt(a, a),
    decreases a.len(),
{
    if a.len() > 0 {
        lemma_bytes_lt_irreflexive(a.drop_first());
    }
}

proof fn lemma_bytes_lt_transitive(a: Seq<u8>, b: Seq<u8>, c: Seq<u8>)
    requires
        bytes_lt(a, b),
        bytes_lt(b, c),
    ensures
        bytes_lt(a, c),
    decreases a.len(),
{
    if a.len() > 0 && b.len() > 0 && c.len() > 0 && a[0] == b[0] && b[0] == c[0] {
        lemma_bytes_lt_transitive(a.drop_first(), b.drop_first(), c.drop_first());
    }
}

proof fn lemma_bytes_lt_total(a: Seq<u8>, b: Seq<u8>)
    ensures
        bytes_lt(a, b) || bytes_lt(b, a) || a == b,
    decreases a.len(),
{
    if a.len() > 0 && b.len() > 0 && a[0] == b[0] {
        lemma_bytes_lt_total(a.drop_first(), b.drop_first());
        if a.drop_first() == b.drop_first() {
            assert(a =~= seq![a[0]] + a.drop_first());
            assert(b =~= seq![b[0]] + b.drop_first());
        }
    } else if a.len() == 0 && b.len() == 0 {
        assert(a =~= b);
    }
}

/// The bytes by which a string is ordered: its UTF-8 encoding.
pub open spec fn string_bytes(s: Seq<char>) -> Seq<u8> {
    vstd::utf8::encode_utf8(s)
}

impl IndexKey for String {
    /// Strings are ordered as `String`'s own `Ord` orders them: by their bytes.
    open spec fn key_lt(a: Seq<char>, b: Seq<char>) -> bool {
        bytes_lt(string_bytes(a), string_bytes(b))
    }

    proof fn lemma_lt_irreflexive(a: Seq<char>) {
        lemma_bytes_lt_irreflexive(string_bytes(a));
    }

    proof fn lemma_lt_transitive(a: Seq<char>, b: Seq<char>, c: Seq<char>) {
        lemma_bytes_lt_transitive(string_bytes(a), string_bytes(b), string_bytes(c));
    }

    proof fn lemma_lt_total(a: Seq<char>, b: Seq<char>) {
        lemma_bytes_lt_total(string_bytes(a), string_bytes(b));
        vstd::utf8::encode_utf8_decode_utf8(a);
        vstd::utf8::encode_utf8_decode_utf8(b);
    }

    fn compare(&self, other: &String) -> (o: KeyOrder) {
        let a = self.as_str().as_bytes();
        let b = other.as_str().as_bytes();
        proof {
            vstd::utf8::encode_utf8_decode_utf8(self@);
            vstd::utf8::encode_utf8_decode_utf8(other@);
            lemma_bytes_lt_irreflexive(a@);
        }
        assert(a@.skip(0) =~= a@);
        assert(b@.skip(0) =~= b@);
        let mut i: usize = 0;
        while i < a.len() && i < b.len()
            invariant
                a@ == string_bytes(self@),
                b@ == string_bytes(other@),
                i <= a@.len(),
                i <= b@.len(),
                a@.subrange(0, i as int) == b@.subrange(0, i as int),
                bytes_lt(a@, b@) == bytes_lt(a@.skip(i as int), b@.skip(i as int)),
                bytes_lt(b@, a@) == bytes_lt(b@.skip(i as int), a@.skip(i as int)),
            decreases a@.len() - i,
        {
            let x = a[i];
            let y = b[i];
            if x < y {
                return KeyOrder::Less;
            } else if x > y {
                return KeyOrder::Greater;
            }
            assert(a@.skip(i as int).drop_first() =~= a@.skip(i + 1));
            assert(b@.skip(i as int).drop_first() =~= b@.skip(i + 1));
            assert(a@.subrange(0, i + 1) =~= a@.subrange(0, i as int).push(x));
            assert(b@.subrange(0, i + 1) =~= b@.subrange(0, i as int).push(y));
            i = i + 1;
        }
        if a.len() == b.len() {
            assert(a@ =~= a@.subrange(0, i as int));
            assert(b@ =~= b@.subrange(0, i as int));
            KeyOrder::Equal
        } else if i == a.len() {
            assert(a@.subrange(0, i as int) =~= a@);
            KeyOrder::Less
        } else {
            KeyOrder::Greater
        }
    }
}

/// For `u32` keys the index order is the numeric order.
pub proof fn law_u32_key_order(a: u32, b: u32)
    ensures
        <u32 as IndexKey>::key_lt(a, b) <==> a < b,
{
}

/// For `i32` keys the index order is the numeric order, negatives first.
pub proof fn law_i32_key_order(a: i32, b: i32)
    ensures
        <i32 as IndexKey>::key_lt(a, b) <==> a < b,
{
}

/// For `u64` keys the index order is the numeric order.
pub proof fn law_u64_key_order(a: u64, b: u64)
    ensures
        <u64 as IndexKey>::key_lt(a, b) <==> a < b,
{
}

/// Byte strings compare lexicographically: `a` is below `b` exactly when `a`
/// is a proper prefix of `b`, or the first byte where they differ is smaller
/// in `a`.
pub proof fn law_bytes_order(a: Seq<u8>, b: Seq<u8>)
    ensures
        bytes_lt(a, b) <==> ({
            ||| (a.len() < b.len() && a == b.subrange(0, a.len() as int))
            ||| exists|i: int|
                #![trigger a[i], b[i]]
                0 <= i < a.len() && i < b.len() && a.subrange(0, i) == b.subrange(0, i) && a[i] < b[i]
        }),
    decreases a.len(),
{
    let prefix = a.len() < b.len() && a == b.subrange(0, a.len() as int);
    let differs = exists|i: int|
        #![trigger a[i], b[i]]
        0 <= i < a.len() && i < b.len() && a.subrange(0, i) == b.subrange(0, i) && a[i] < b[i];
    if a.len() == 0 {
        if b.len() > 0 {
            assert(a =~= b.subrange(0, 0));
        }
    } else if b.len() == 0 {
    } else if a[0] != b[0] {
        if a[0] < b[0] {
            assert(a.subrange(0, 0) =~= b.subrange(0, 0));
            assert(a[0] < b[0]);
        } else {
            if prefix {
                assert(a[0] == b.subrange(0, a.len() as int)[0]);
            }
            assert forall|i: int| 0 <= i < a.len() && i < b.len() && a.subrange(0, i) == b.subrange(0, i) implies !(
            #[trigger] a[i] < b[i]) by {
                if i > 0 {
                    assert(a.subrange(0, i)[0] == b.subrange(0, i)[0]);
                }
            }
        }
    } else {
        let a1 = a.drop_first();
        let b1 = b.drop_first();
        law_bytes_order(a1, b1);
        // a prefix of `b` exactly when the rest of `a` is a prefix of the rest of `b`
        if prefix {
            assert(a1 =~= b1.subrange(0, a1.len() as int));
        }
        if a1.len() < b1.len() && a1 == b1.subrange(0, a1.len() as int) {
            assert(a =~= b.subrange(0, a.len() as int)) by {
                assert forall|j: int| 0 <= j < a.len() implies #[trigger] a[j] == b.subrange(0, a.len() as int)[j] by {
                    if j > 0 {
                        assert(a1[j - 1] == b1.subrange(0, a1.len() as int)[j - 1]);
                    }
                }
            }
        }
        // the first difference moves one place
        if differs {
            let i = choose|i: int|
                #![trigger a[i], b[i]]
                0 <= i < a.len() && i < b.len() && a.subrange(0, i) == b.subrange(0, i) && a[i] < b[i];
            assert(i > 0);
            assert(a1.subrange(0, i - 1) =~= b1.subrange(0, i - 1)) by {
                assert forall|j: int| 0 <= j < i - 1 implies #[trigger] a1.subrange(0, i - 1)[j] == b1.subrange(0, i - 1)[j] by {
                    assert(a.subrange(0, i)[j + 1] == b.subrange(0, i)[j + 1]);
                }
            }
            assert(a1[i - 1] < b1[i - 1]);
        }
        if exists|i: int|
            #![trigger a1[i], b1[i]]
            0 <= i < a1.len() && i < b1.len() && a1.subrange(0, i) == b1.subrange(0, i) && a1[i] < b1[i] {
            let i = choose|i: int|
                #![trigger a1[i], b1[i]]
                0 <= i < a1.len() && i < b1.len() && a1.subrange(0, i) == b1.subrange(0, i) && a1[i] < b1[i];
            assert(a.subrange(0, i + 1) =~= b.subrange(0, i + 1)) by {
                assert forall|j: int| 0 <= j < i + 1 implies #[trigger] a.subrange(0, i + 1)[j] == b.subrange(0, i + 1)[j] by {
                    if j > 0 {
                        assert(a1.subrange(0, i)[j - 1] == b1.subrange(0, i)[j - 1]);
                    }
                }
            }
            assert(a[i + 1] < b[i + 1]);
        }
    }
}

/// For `String` keys the index order is `String`'s own: lexicographic on the
/// UTF-8 bytes, with a proper prefix before its extensions (`"app"` before
/// `"apple"`, `"ab"` before `"b"`).
pub proof fn law_string_key_order(a: Seq<char>, b: Seq<char>)
    ensures
        <String as IndexKey>::key_lt(a, b) <==> ({
            let x = string_bytes(a);
            let y = string_bytes(b);
            ||| (x.len() < y.len() && x == y.subrange(0, x.len() as int))
            ||| exists|i: int|
                #![trigger x[i], y[i]]
                0 <= i < x.len() && i < y.len() && x.subrange(0, i) == y.subrange(0, i) && x[i] < y[i]
        }),
{
    law_bytes_order(string_bytes(a), string_bytes(b));
}

} // verus!
