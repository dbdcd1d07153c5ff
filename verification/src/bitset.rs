//! Bit sets stored as vectors of 32-bit words; bit `i` lives in word `i / 32`
//! at position `i % 32`.
use vstd::prelude::*;

verus! {

/// Whether bit `m` of the word `w` is set.
pub open spec fn wbit(w: u32, m: int) -> bool {
    (w >> (m as u32)) & 1u32 == 1u32
}

/// Whether bit `i` of the bit set `v` is set.
pub open spec fn bit(v: Seq<u32>, i: int) -> bool {
    0 <= i < 32 * v.len() && wbit(v[i / 32], i % 32)
}

/// Number of words that hold `n` bits.
pub open spec fn words_for(n: int) -> int {
    (n + 31) / 32
}

/// A bit of `a | b` is set when it is set in `a` or in `b`.
pub proof fn lemma_wbit_or(a: u32, b: u32, m: u32)
    requires
        m < 32,
    ensures
        wbit(a | b, m as int) == (wbit(a, m as int) || wbit(b, m as int)),
{
    assert(((a | b) >> m) & 1u32 == 1u32 <==> ((a >> m) & 1u32 == 1u32 || (b >> m) & 1u32 == 1u32))
        by (bit_vector)
        requires
            m < 32,
    ;
}

/// A bit of `a & b` is set when it is set in both.
pub proof fn lemma_wbit_and(a: u32, b: u32, m: u32)
    requires
        m < 32,
    ensures
        wbit(a & b, m as int) == (wbit(a, m as int) && wbit(b, m as int)),
{
    assert(((a & b) >> m) & 1u32 == 1u32 <==> ((a >> m) & 1u32 == 1u32 && (b >> m) & 1u32 == 1u32))
        by (bit_vector)
        requires
            m < 32,
    ;
}

/// A bit of `a & !b` is set when it is set in `a` and not in `b`.
pub proof fn lemma_wbit_andn(a: u32, b: u32, m: u32)
    requires
        m < 32,
    ensures
        wbit(a & !b, m as int) == (wbit(a, m as int) && !wbit(b, m as int)),
{
    assert(((a & !b) >> m) & 1u32 == 1u32 <==> ((a >> m) & 1u32 == 1u32 && !((b >> m) & 1u32
        == 1u32))) by (bit_vector)
        requires
            m < 32,
    ;
}

/// Setting bit `k` of `a` sets that bit and leaves the others as they were.
pub proof fn lemma_wbit_set(a: u32, k: u32, m: u32)
    requires
        m < 32,
        k < 32,
    ensures
        wbit(a | (1u32 << k), m as int) == (wbit(a, m as int) || m == k),
{
    assert(((a | (1u32 << k)) >> m) & 1u32 == 1u32 <==> ((a >> m) & 1u32 == 1u32 || m == k))
        by (bit_vector)
        requires
            m < 32,
            k < 32,
    ;
}

/// Every bit of the all-ones word is set.
pub proof fn lemma_wbit_ones(m: u32)
    requires
        m < 32,
    ensures
        wbit(!0u32, m as int),
{
    assert((!0u32 >> m) & 1u32 == 1u32) by (bit_vector)
        requires
            m < 32,
    ;
}

/// No bit of the zero word is set.
pub proof fn lemma_wbit_zero(m: u32)
    requires
        m < 32,
    ensures
        !wbit(0u32, m as int),
{
    assert((0u32 >> m) & 1u32 != 1u32) by (bit_vector);
}

/// Bits of a word-wise `|`.
pub proof fn lemma_bits_or(a: Seq<u32>, b: Seq<u32>, c: Seq<u32>)
    requires
        a.len() == b.len(),
        c.len() == a.len(),
        forall|k: int| 0 <= k < c.len() ==> c[k] == a[k] | b[k],
    ensures
        forall|j: int| bit(c, j) == (bit(a, j) || bit(b, j)),
{
    assert forall|j: int| bit(c, j) == (bit(a, j) || bit(b, j)) by {
        if 0 <= j < 32 * c.len() {
            lemma_wbit_or(a[j / 32], b[j / 32], (j % 32) as u32);
        }
    }
}

/// Bits of a word-wise `&`.
pub proof fn lemma_bits_and(a: Seq<u32>, b: Seq<u32>, c: Seq<u32>)
    requires
        a.len() == b.len(),
        c.len() == a.len(),
        forall|k: int| 0 <= k < c.len() ==> c[k] == a[k] & b[k],
    ensures
        forall|j: int| bit(c, j) == (bit(a, j) && bit(b, j)),
{
    assert forall|j: int| bit(c, j) == (bit(a, j) && bit(b, j)) by {
        if 0 <= j < 32 * c.len() {
            lemma_wbit_and(a[j / 32], b[j / 32], (j % 32) as u32);
        }
    }
}

/// Bits of a word-wise `& !`.
pub proof fn lemma_bits_andn(a: Seq<u32>, b: Seq<u32>, c: Seq<u32>)
    requires
        a.len() == b.len(),
        c.len() == a.len(),
        forall|k: int| 0 <= k < c.len() ==> c[k] == a[k] & !b[k],
    ensures
        forall|j: int| bit(c, j) == (bit(a, j) && !bit(b, j)),
{
    assert forall|j: int| bit(c, j) == (bit(a, j) && !bit(b, j)) by {
        if 0 <= j < 32 * c.len() {
            lemma_wbit_andn(a[j / 32], b[j / 32], (j % 32) as u32);
        }
    }
}

/// A bit set of `words` words with no bit set.
pub fn bs_zeros(words: usize) -> (v: Vec<u32>)
    ensures
        v@.len() == words,
        forall|k: int| 0 <= k < words ==> v@[k] == 0u32,
        forall|i: int| !bit(v@, i),
{
    let mut v: Vec<u32> = Vec::new();
    for k in 0..words
        invariant
            v@.len() == k,
            forall|j: int| 0 <= j < k ==> v@[j] == 0u32,
    {
        v.push(0u32);
    }
    assert forall|i: int| !bit(v@, i) by {
        if 0 <= i < 32 * v@.len() {
            lemma_wbit_zero((i % 32) as u32);
        }
    }
    v
}

/// A bit set of `words` words with every bit set.
pub fn bs_ones(words: usize) -> (v: Vec<u32>)
    ensures
        v@.len() == words,
        forall|k: int| 0 <= k < words ==> v@[k] == !0u32,
{
    let mut v: Vec<u32> = Vec::new();
    for k in 0..words
        invariant
            v@.len() == k,
            forall|j: int| 0 <= j < k ==> v@[j] == !0u32,
    {
        v.push(!0u32);
    }
    v
}

/// Whether `a` and `b` hold the same words.
pub fn bs_eq(a: &Vec<u32>, b: &Vec<u32>) -> (r: bool)
    ensures
        r == (a@ == b@),
{
    if a.len() != b.len() {
        return false;
    }
    let n = a.len();
    for k in 0..n
        invariant
            n == a@.len(),
            n == b@.len(),
            forall|j: int| 0 <= j < k ==> a@[j] == b@[j],
    {
        if a[k] != b[k] {
            return false;
        }
    }
    assert(a@ =~= b@);
    true
}

/// Whether bit `i` of `v` is set.
pub fn bsget(v: &Vec<u32>, i: u32) -> (r: bool)
    requires
        (i as int) < 32 * v@.len(),
    ensures
        r == bit(v@, i as int),
{
    let w = v[(i / 32) as usize];
    (w >> (i % 32)) & 1u32 == 1u32
}

/// Sets bit `i` of `v`.
pub fn bsset(v: &mut Vec<u32>, i: u32)
    requires
        (i as int) < 32 * old(v)@.len(),
    ensures
        final(v)@.len() == old(v)@.len(),
        forall|j: int| #[trigger] bit(final(v)@, j) == (bit(old(v)@, j) || j == i),
{
    let k = (i / 32) as usize;
    let w = v[k] | (1u32 << (i % 32));
    v.set(k, w);
    proof {
        assert forall|j: int| bit(v@, j) == (bit(old(v)@, j) || j == i) by {
            if 0 <= j < 32 * v@.len() {
                if j / 32 == k {
                    lemma_wbit_set(old(v)@[k as int], i % 32, (j % 32) as u32);
                }
            }
        }
    }
}

/// Adds every bit of `w` to `v`.
pub fn bsor(v: &mut Vec<u32>, w: &Vec<u32>)
    requires
        old(v)@.len() == w@.len(),
    ensures
        final(v)@.len() == old(v)@.len(),
        forall|j: int| #[trigger] bit(final(v)@, j) == (bit(old(v)@, j) || bit(w@, j)),
        forall|k: int| 0 <= k < w@.len() ==> final(v)@[k] == old(v)@[k] | w@[k],
{
    let n = v.len();
    for k in 0..n
        invariant
            n == v@.len(),
            n == w@.len(),
            forall|j: int| 0 <= j < k ==> v@[j] == old(v)@[j] | w@[j],
            forall|j: int| k <= j < n ==> v@[j] == old(v)@[j],
    {
        let x = v[k] | w[k];
        v.set(k, x);
    }
    proof {
        lemma_bits_or(old(v)@, w@, v@);
    }
}

/// Keeps in `v` only the bits that `w` has too.
pub fn bsand(v: &mut Vec<u32>, w: &Vec<u32>)
    requires
        old(v)@.len() == w@.len(),
    ensures
        final(v)@.len() == old(v)@.len(),
        forall|j: int| #[trigger] bit(final(v)@, j) == (bit(old(v)@, j) && bit(w@, j)),
        forall|k: int| 0 <= k < w@.len() ==> final(v)@[k] == old(v)@[k] & w@[k],
{
    let n = v.len();
    for k in 0..n
        invariant
            n == v@.len(),
            n == w@.len(),
            forall|j: int| 0 <= j < k ==> v@[j] == old(v)@[j] & w@[j],
            forall|j: int| k <= j < n ==> v@[j] == old(v)@[j],
    {
        let x = v[k] & w[k];
        v.set(k, x);
    }
    proof {
        lemma_bits_and(old(v)@, w@, v@);
    }
}

/// Removes from `v` every bit of `w`.
pub fn bsandn(v: &mut Vec<u32>, w: &Vec<u32>)
    requires
        old(v)@.len() == w@.len(),
    ensures
        final(v)@.len() == old(v)@.len(),
        forall|j: int| #[trigger] bit(final(v)@, j) == (bit(old(v)@, j) && !bit(w@, j)),
        forall|k: int| 0 <= k < w@.len() ==> final(v)@[k] == old(v)@[k] & !w@[k],
{
    let n = v.len();
    for k in 0..n
        invariant
            n == v@.len(),
            n == w@.len(),
            forall|j: int| 0 <= j < k ==> v@[j] == old(v)@[j] & !w@[j],
            forall|j: int| k <= j < n ==> v@[j] == old(v)@[j],
    {
        let x = v[k] & !w[k];
        v.set(k, x);
    }
    proof {
        lemma_bits_andn(old(v)@, w@, v@);
    }
}

/// Number of words that hold `len` bits.
pub fn bs_words(len: usize) -> (r: usize)
    ensures
        r == words_for(len as int),
{
    if len % 32 == 0 {
        len / 32
    } else {
        len / 32 + 1
    }
}

/// The bit set of `words_for(len)` words whose bits are the elements of `ids`.
pub fn iter2bs(ids: &Vec<u32>, len: usize) -> (v: Vec<u32>)
    requires
        forall|k: int| 0 <= k < ids@.len() ==> ids@[k] < len,
        len <= u32::MAX,
    ensures
        v@.len() == words_for(len as int),
        forall|i: int| bit(v@, i) == (0 <= i < len && ids@.contains(i as u32)),
{
    let mut v = bs_zeros(bs_words(len));
    for k in 0..ids.len()
        invariant
            v@.len() == words_for(len as int),
            forall|k: int| 0 <= k < ids@.len() ==> ids@[k] < len,
            forall|i: int| bit(v@, i) == (exists|j: int| 0 <= j < k && ids@[j] == i),
    {
        bsset(&mut v, ids[k]);
        proof {
            assert forall|i: int| bit(v@, i) == (exists|j: int| 0 <= j < k + 1 && ids@[j] == i) by {
                if i == ids@[k as int] {
                    assert(0 <= k < k + 1 && ids@[k as int] == i);
                }
            }
        }
    }
    proof {
        assert forall|i: int| bit(v@, i) == (0 <= i < len && ids@.contains(i as u32)) by {
            if bit(v@, i) {
                let j = choose|j: int| 0 <= j < ids@.len() && ids@[j] == i;
                assert(ids@[j] == i as u32);
            }
            if 0 <= i < len && ids@.contains(i as u32) {
                let j = choose|j: int| 0 <= j < ids@.len() && ids@[j] == i as u32;
                assert(i as u32 as int == i);
            }
        }
    }
    v
}

} // verus!
