//! Small facts about byte sequences that the codec proofs lean on.

use vstd::prelude::*;

verus! {

/// Byte-for-byte equality of two byte slices.
pub fn bytes_eq(a: &[u8], b: &[u8]) -> (r: bool)
    ensures
        r == (a@ == b@),
{
    if a.len() != b.len() {
        return false;
    }
    let mut i: usize = 0;
    while i < a.len()
        invariant
            i <= a@.len(),
            a@.len() == b@.len(),
            forall|k: int| 0 <= k < i ==> a@[k] == b@[k],
        decreases a@.len() - i,
    {
        if a[i] != b[i] {
            proof {
                assert(a@[i as int] != b@[i as int]);
            }
            return false;
        }
        i += 1;
    }
    proof {
        assert(a@ =~= b@);
    }
    true
}

/// If the suffix of `s` at `i` splits as `x + y`, then `x` sits exactly at
/// `i..i + x.len()` and `y` is the suffix after it.
pub proof fn lemma_skip_split(s: Seq<u8>, i: int, x: Seq<u8>, y: Seq<u8>)
    requires
        0 <= i <= s.len(),
        s.skip(i) == x + y,
    ensures
        i + x.len() <= s.len(),
        s.subrange(i, i + x.len()) == x,
        s.skip(i + x.len()) == y,
{
    assert(s.skip(i).len() == s.len() - i);
    assert(s.subrange(i, i + x.len()) =~= x) by {
        assert forall|k: int| 0 <= k < x.len() implies s.subrange(i, i + x.len())[k] == x[k] by {
            assert(s.skip(i)[k] == (x + y)[k]);
        }
    }
    assert(s.skip(i + x.len()) =~= y) by {
        assert(s.skip(i + x.len()).len() == y.len());
        assert forall|k: int| 0 <= k < y.len() implies s.skip(i + x.len())[k] == y[k] by {
            assert(s.skip(i)[x.len() + k] == (x + y)[x.len() + k]);
            assert(s.skip(i)[x.len() + k] == s[i + x.len() + k]);
            assert(s.skip(i + x.len())[k] == s[i + x.len() + k]);
            assert((x + y)[x.len() + k] == y[k]);
        }
    }
}

/// Adjacent subranges concatenate.
pub proof fn lemma_subrange_concat(s: Seq<u8>, a: int, b: int, c: int)
    requires
        0 <= a <= b <= c <= s.len(),
    ensures
        s.subrange(a, c) == s.subrange(a, b) + s.subrange(b, c),
{
    assert(s.subrange(a, c) =~= s.subrange(a, b) + s.subrange(b, c));
}


/// Does `s` begin with `p`?
pub open spec fn starts_with(s: Seq<u8>, p: Seq<u8>) -> bool {
    s.len() >= p.len() && s.subrange(0, p.len() as int) == p
}

/// A concatenation decomposition of a suffix yields a prefix fact and the
/// position of the remainder.
pub proof fn lemma_prefix_from_concat(s: Seq<u8>, i: int, x: Seq<u8>, y: Seq<u8>)
    requires
        0 <= i <= s.len(),
        s.skip(i) == x + y,
    ensures
        starts_with(s.skip(i), x),
        i + x.len() <= s.len(),
        s.subrange(i, i + x.len()) == x,
        s.skip(i + x.len()) == y,
{
    lemma_skip_split(s, i, x, y);
    assert(s.skip(i).subrange(0, x.len() as int) =~= x);
}

/// A prefix fact yields a concatenation decomposition.
pub proof fn lemma_concat_from_prefix(s: Seq<u8>, i: int, x: Seq<u8>)
    requires
        0 <= i <= s.len(),
        starts_with(s.skip(i), x),
    ensures
        i + x.len() <= s.len(),
        s.skip(i) == x + s.skip(i + x.len()),
        s.subrange(i, i + x.len()) == x,
{
    assert(s.skip(i) =~= x + s.skip(i + x.len())) by {
        let rest = s.skip(i + x.len());
        assert forall|k: int| 0 <= k < s.len() - i implies s.skip(i)[k] == (x + rest)[k] by {
            if k < x.len() {
                assert(s.skip(i).subrange(0, x.len() as int)[k] == x[k]);
            } else {
                assert(rest[k - x.len()] == s[i + x.len() + k - x.len()]);
            }
        }
    }
    lemma_skip_split(s, i, x, s.skip(i + x.len()));
}

/// Consuming a known prefix up to `j` leaves exactly the rest.
pub proof fn lemma_consume(s: Seq<u8>, i: int, j: int, x: Seq<u8>, y: Seq<u8>)
    requires
        0 <= i <= j <= s.len(),
        s.skip(i) == x + y,
        s.subrange(i, j) == x,
    ensures
        s.skip(j) == y,
        j == i + x.len(),
{
    lemma_skip_split(s, i, x, y);
}


/// Concatenation of byte sequences is associative.
pub proof fn lemma_add_assoc(a: Seq<u8>, b: Seq<u8>, c: Seq<u8>)
    ensures
        (a + b) + c == a + (b + c),
{
    assert((a + b) + c =~= a + (b + c));
}

} // verus!
