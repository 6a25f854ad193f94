//! Lexicographic order on byte keys.
//!
//! Keys are compared as sequences of unsigned bytes.  The spec-level order
//! [`key_lt`] is the reference; [`compare_keys`] is the executable
//! three-way comparison proved against it.

use vstd::prelude::*;

verus! {

/// Strict lexicographic order on byte sequences: `a` comes before `b`.
pub open spec fn key_lt(a: Seq<u8>, b: Seq<u8>) -> bool
    decreases a.len(),
{
    if b.len() == 0 {
        false
    } else if a.len() == 0 {
        true
    } else if a[0] < b[0] {
        true
    } else if a[0] > b[0] {
        false
    } else {
        key_lt(a.skip(1), b.skip(1))
    }
}

/// The order is irreflexive: no key comes before itself.
pub proof fn lemma_key_lt_irreflexive(a: Seq<u8>)
    ensures
        !key_lt(a, a),
    decreases a.len(),
{
    if a.len() > 0 {
        lemma_key_lt_irreflexive(a.skip(1));
    }
}

/// Exactly one of `a < b`, `a == b`, `b < a` holds.
pub proof fn lemma_key_lt_trichotomy(a: Seq<u8>, b: Seq<u8>)
    ensures
        key_lt(a, b) || key_lt(b, a) || a == b,
        key_lt(a, b) ==> !key_lt(b, a) && a != b,
        key_lt(b, a) ==> !key_lt(a, b) && a != b,
    decreases a.len(),
{
    lemma_key_lt_irreflexive(a);
    lemma_key_lt_irreflexive(b);
    if a.len() > 0 && b.len() > 0 && a[0] == b[0] {
        lemma_key_lt_trichotomy(a.skip(1), b.skip(1));
        if a.skip(1) == b.skip(1) {
            assert(a == seq![a[0]] + a.skip(1));
            assert(b == seq![b[0]] + b.skip(1));
            assert(a == b);
        }
    }
}

/// The order is transitive.
pub proof fn lemma_key_lt_transitive(a: Seq<u8>, b: Seq<u8>, c: Seq<u8>)
    requires
        key_lt(a, b),
        key_lt(b, c),
    ensures
        key_lt(a, c),
    decreases a.len(),
{
    if c.len() > 0 && b.len() > 0 && a.len() > 0 {
        if a[0] == b[0] && b[0] == c[0] {
            lemma_key_lt_transitive(a.skip(1), b.skip(1), c.skip(1));
        }
    }
}

/// Stepping past a shared first byte of the suffixes at `i` changes neither
/// the order nor the equality of the remainders.
proof fn lemma_key_suffix_step(a: Seq<u8>, b: Seq<u8>, i: int)
    requires
        0 <= i < a.len(),
        i < b.len(),
        a[i] == b[i],
    ensures
        key_lt(a.skip(i), b.skip(i)) == key_lt(a.skip(i + 1), b.skip(i + 1)),
        key_lt(b.skip(i), a.skip(i)) == key_lt(b.skip(i + 1), a.skip(i + 1)),
        (a.skip(i) == b.skip(i)) == (a.skip(i + 1) == b.skip(i + 1)),
{
    assert(a.skip(i).skip(1) =~= a.skip(i + 1));
    assert(b.skip(i).skip(1) =~= b.skip(i + 1));
    assert(a.skip(i)[0] == a[i]);
    assert(b.skip(i)[0] == b[i]);
    if a.skip(i + 1) == b.skip(i + 1) {
        assert forall|k: int| 0 <= k < a.skip(i).len() implies a.skip(i)[k] == b.skip(i)[k] by {
            if k > 0 {
                assert(a.skip(i)[k] == a.skip(i + 1)[k - 1]);
                assert(b.skip(i)[k] == b.skip(i + 1)[k - 1]);
            }
        }
        assert(a.skip(i) =~= b.skip(i));
    }
    if a.skip(i) == b.skip(i) {
        assert(a.skip(i + 1) =~= b.skip(i + 1));
    }
}

/// Three-way comparison of two byte keys.
///
/// Returns `-1` when `a` comes first, `0` when the keys are equal, and `1`
/// when `b` comes first.
pub fn compare_keys(a: &[u8], b: &[u8]) -> (r: i8)
    ensures
        r == -1 <==> key_lt(a@, b@),
        r == 0 <==> a@ == b@,
        r == 1 <==> key_lt(b@, a@),
{
    proof {
        lemma_key_lt_trichotomy(a@, b@);
        assert(a@.skip(0) =~= a@);
        assert(b@.skip(0) =~= b@);
    }
    let mut i: usize = 0;
    while i < a.len() && i < b.len()
        invariant
            i <= a.len(),
            i <= b.len(),
            key_lt(a@, b@) <==> key_lt(a@.skip(i as int), b@.skip(i as int)),
            key_lt(b@, a@) <==> key_lt(b@.skip(i as int), a@.skip(i as int)),
            a@ == b@ <==> a@.skip(i as int) == b@.skip(i as int),
        decreases a.len() - i,
    {
        let x = a[i];
        let y = b[i];
        proof {
            assert(a@.skip(i as int)[0] == x);
            assert(b@.skip(i as int)[0] == y);
            if x == y {
                lemma_key_suffix_step(a@, b@, i as int);
            }
        }
        if x < y {
            return -1;
        }
        if x > y {
            return 1;
        }
        i = i + 1;
    }
    proof {
        let ra = a@.skip(i as int);
        let rb = b@.skip(i as int);
        if a.len() == b.len() {
            assert(ra =~= rb);
        } else if i == a.len() {
            assert(ra.len() == 0 && rb.len() > 0);
            assert(key_lt(ra, rb));
        } else {
            assert(rb.len() == 0 && ra.len() > 0);
            assert(key_lt(rb, ra));
        }
    }
    if a.len() == b.len() {
        0
    } else if a.len() < b.len() {
        -1
    } else {
        1
    }
}

/// The keys of `items` are strictly increasing, `items` given as bare keys.
pub open spec fn keys_sorted(keys: Seq<Seq<u8>>) -> bool {
    forall|i: int, j: int| 0 <= i < j < keys.len() ==> key_lt(keys[i], keys[j])
}

} // verus!
