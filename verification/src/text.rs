//! Names and emails as byte strings, and the way they are compared.
//!
//! Two texts match when they are equal once every ASCII capital letter is
//! replaced by its small letter. The order of texts is the order of a
//! dictionary over the bytes so replaced.

use vstd::prelude::*;

verus! {

/// The byte `b` with an ASCII capital letter replaced by its small letter.
pub open spec fn fold(b: u8) -> u8 {
    if 0x41 <= b <= 0x5a {
        (b + 0x20) as u8
    } else {
        b
    }
}

/// The text `s` with every byte folded: the key under which `s` is found.
pub open spec fn folded(s: Seq<u8>) -> Seq<u8> {
    Seq::new(s.len(), |i: int| fold(s[i]))
}

/// `a` and `b` are alike in their first `k` bytes, and there `a` ends before
/// `b` does or holds the smaller byte.
pub open spec fn parts_at(a: Seq<u8>, b: Seq<u8>, k: int) -> bool {
    &&& 0 <= k <= a.len()
    &&& k <= b.len()
    &&& a.subrange(0, k) == b.subrange(0, k)
    &&& if k == a.len() {
        k < b.len()
    } else {
        k < b.len() && a[k] < b[k]
    }
}

/// `a` comes before `b` in the order of a dictionary.
pub open spec fn precedes(a: Seq<u8>, b: Seq<u8>) -> bool {
    exists|k: int| parts_at(a, b, k)
}

/// Where a text stands against another.
#[derive(Debug, Copy, Clone, PartialEq, Eq, Structural)]
pub enum Rank {
    /// It comes first.
    Before,
    /// The two match.
    Same,
    /// It comes second.
    After,
}

/// The rank of the key `a` against the key `b`.
pub open spec fn rank(a: Seq<u8>, b: Seq<u8>) -> Rank {
    if precedes(a, b) {
        Rank::Before
    } else if a == b {
        Rank::Same
    } else {
        Rank::After
    }
}

/// No text comes before itself, and of two texts only one comes before the other.
pub proof fn lemma_precedes_asymmetric(a: Seq<u8>, b: Seq<u8>)
    requires
        precedes(a, b),
    ensures
        a != b,
        !precedes(b, a),
{
    let k = choose|k: int| parts_at(a, b, k);
    if a == b {
        assert(false);
    }
    if precedes(b, a) {
        let j = choose|j: int| parts_at(b, a, j);
        if j < k {
            assert(a.subrange(0, k)[j] == b.subrange(0, k)[j]);
        } else if k < j {
            assert(b.subrange(0, j)[k] == a.subrange(0, j)[k]);
        }
        assert(false);
    }
}

/// What comes before a text comes before all that the text comes before.
pub proof fn lemma_precedes_transitive(a: Seq<u8>, b: Seq<u8>, c: Seq<u8>)
    requires
        precedes(a, b),
        precedes(b, c),
    ensures
        precedes(a, c),
{
    let k = choose|k: int| parts_at(a, b, k);
    let j = choose|j: int| parts_at(b, c, j);
    let m = if k <= j { k } else { j };
    assert forall|i: int| 0 <= i < m implies a[i] == c[i] by {
        assert(a.subrange(0, k)[i] == b.subrange(0, k)[i]);
        assert(b.subrange(0, j)[i] == c.subrange(0, j)[i]);
    }
    assert(a.subrange(0, m) =~= c.subrange(0, m));
    if k < j {
        assert(b.subrange(0, j)[k] == c.subrange(0, j)[k]);
    } else if j < k {
        assert(a.subrange(0, k)[j] == b.subrange(0, k)[j]);
    }
    assert(parts_at(a, c, m));
}

/// Of two different texts one comes before the other.
pub proof fn lemma_precedes_total(a: Seq<u8>, b: Seq<u8>)
    ensures
        precedes(a, b) || a == b || precedes(b, a),
{
    assert(a.subrange(0, 0) =~= b.subrange(0, 0));
    lemma_total_from(a, b, 0);
}

proof fn lemma_total_from(a: Seq<u8>, b: Seq<u8>, k: int)
    requires
        0 <= k <= a.len(),
        k <= b.len(),
        a.subrange(0, k) == b.subrange(0, k),
    ensures
        precedes(a, b) || a == b || precedes(b, a),
    decreases a.len() - k,
{
    if k == a.len() {
        if k == b.len() {
            assert(a.subrange(0, k) =~= a);
            assert(b.subrange(0, k) =~= b);
        } else {
            assert(parts_at(a, b, k));
        }
    } else if k == b.len() {
        assert(parts_at(b, a, k));
    } else if a[k] < b[k] {
        assert(parts_at(a, b, k));
    } else if b[k] < a[k] {
        assert(parts_at(b, a, k));
    } else {
        assert(a[k] == b[k]);
        assert forall|i: int| 0 <= i < k + 1 implies a[i] == b[i] by {
            if i < k {
                assert(a.subrange(0, k)[i] == a[i]);
                assert(b.subrange(0, k)[i] == b[i]);
            } else {
                assert(i == k);
            }
        }
        assert(a.subrange(0, k + 1) =~= b.subrange(0, k + 1));
        lemma_total_from(a, b, k + 1);
    }
}

/// Folding a byte, as executable code.
pub fn fold_byte(b: u8) -> (small: u8)
    ensures
        small == fold(b),
{
    if 0x41 <= b && b <= 0x5a {
        b + 0x20
    } else {
        b
    }
}

/// Ranks the key of `a` against the key of `b`.
pub fn rank_folded(a: &[u8], b: &[u8]) -> (r: Rank)
    ensures
        r == rank(folded(a@), folded(b@)),
{
    let ghost fa = folded(a@);
    let ghost fb = folded(b@);
    let mut i: usize = 0;
    while i < a.len() && i < b.len()
        invariant
            i <= a.len(),
            i <= b.len(),
            fa == folded(a@),
            fb == folded(b@),
            fa.subrange(0, i as int) == fb.subrange(0, i as int),
        decreases a.len() - i,
    {
        let x: u8 = fold_byte(a[i]);
        let y: u8 = fold_byte(b[i]);
        if x < y {
            proof {
                assert(parts_at(fa, fb, i as int));
            }
            return Rank::Before;
        }
        if y < x {
            proof {
                assert(parts_at(fb, fa, i as int));
                lemma_precedes_asymmetric(fb, fa);
            }
            return Rank::After;
        }
        proof {
            assert forall|j: int| 0 <= j < i + 1 implies fa[j] == fb[j] by {
                if j < i {
                    assert(fa.subrange(0, i as int)[j] == fb.subrange(0, i as int)[j]);
                }
            }
            assert(fa.subrange(0, i + 1) =~= fb.subrange(0, i + 1));
        }
        i += 1;
    }
    if i < b.len() {
        proof {
            assert(parts_at(fa, fb, i as int));
        }
        Rank::Before
    } else if i < a.len() {
        proof {
            assert(parts_at(fb, fa, i as int));
            lemma_precedes_asymmetric(fb, fa);
        }
        Rank::After
    } else {
        proof {
            assert(fa.subrange(0, i as int) =~= fa);
            assert(fb.subrange(0, i as int) =~= fb);
            if precedes(fa, fb) {
                lemma_precedes_asymmetric(fa, fb);
            }
        }
        Rank::Same
    }
}

/// Whether `a` and `b` hold the same bytes.
pub fn same_bytes(a: &[u8], b: &[u8]) -> (same: bool)
    ensures
        same == (a@ == b@),
{
    if a.len() != b.len() {
        return false;
    }
    let mut i: usize = 0;
    while i < a.len()
        invariant
            i <= a.len(),
            a.len() == b.len(),
            a@.subrange(0, i as int) == b@.subrange(0, i as int),
        decreases a.len() - i,
    {
        if a[i] != b[i] {
            return false;
        }
        proof {
            assert forall|j: int| 0 <= j < i + 1 implies a@[j] == b@[j] by {
                if j < i {
                    assert(a@.subrange(0, i as int)[j] == b@.subrange(0, i as int)[j]);
                }
            }
            assert(a@.subrange(0, i + 1) =~= b@.subrange(0, i + 1));
        }
        i += 1;
    }
    proof {
        assert(a@.subrange(0, i as int) =~= a@);
        assert(b@.subrange(0, i as int) =~= b@);
    }
    true
}

/// A new text with the bytes of `s`.
pub fn copy_text(s: &[u8]) -> (out: Vec<u8>)
    ensures
        out@ == s@,
{
    let mut out: Vec<u8> = Vec::with_capacity(s.len());
    let mut i: usize = 0;
    while i < s.len()
        invariant
            i <= s.len(),
            out@ == s@.subrange(0, i as int),
        decreases s.len() - i,
    {
        out.push(s[i]);
        proof {
            assert(out@ =~= s@.subrange(0, i + 1));
        }
        i += 1;
    }
    proof {
        assert(s@.subrange(0, i as int) =~= s@);
    }
    out
}

} // verus!
