use vstd::prelude::*;
use bit_vec::BitVec;

verus! {

#[verifier::external_type_specification]
#[verifier::external_body]
#[verifier::reject_recursive_types(B)]
pub struct ExBitVec<B>(bit_vec::BitVec<B>);

/// The bits a `BitVec` holds, in index order.
pub uninterp spec fn bits_of(b: BitVec) -> Seq<bool>;

/// Relies on `BitVec::from_elem`: `n` bits, each equal to `v`.
#[verifier::external_body]
pub(crate) fn bits_filled(n: usize, v: bool) -> (r: BitVec)
    ensures
        bits_of(r) == Seq::new(n as nat, |_i: int| v),
{
    BitVec::from_elem(n, v)
}

/// Relies on `BitVec::len`: the number of bits.
#[verifier::external_body]
pub(crate) fn bits_len(b: &BitVec) -> (r: usize)
    ensures
        r == bits_of(*b).len(),
{
    b.len()
}

/// Relies on `BitVec::get`: the bit at `i`, or `None` past the end.
#[verifier::external_body]
pub(crate) fn bits_get(b: &BitVec, i: usize) -> (r: Option<bool>)
    ensures
        i < bits_of(*b).len() ==> r == Some(bits_of(*b)[i as int]),
        i >= bits_of(*b).len() ==> r.is_none(),
{
    b.get(i)
}

/// Relies on `BitVec::set`: replaces the bit at `i`; panics past the end.
#[verifier::external_body]
pub(crate) fn bits_set(b: &mut BitVec, i: usize, v: bool)
    requires
        i < bits_of(*old(b)).len(),
    ensures
        bits_of(*final(b)) == bits_of(*old(b)).update(i as int, v),
{
    b.set(i, v)
}

/// Relies on `BitVec::or`: bitwise union in place; panics on different lengths.
#[verifier::external_body]
pub(crate) fn bits_or(b: &mut BitVec, other: &BitVec)
    requires
        bits_of(*old(b)).len() == bits_of(*other).len(),
    ensures
        bits_of(*final(b)).len() == bits_of(*old(b)).len(),
        forall|i: int|
            0 <= i < bits_of(*old(b)).len() ==> #[trigger] bits_of(*final(b))[i] == (bits_of(*old(b))[i]
                || bits_of(*other)[i]),
{
    b.or(other);
}

/// Relies on `Clone for BitVec`: the same bits.
#[verifier::external_body]
pub(crate) fn bits_clone(b: &BitVec) -> (r: BitVec)
    ensures
        bits_of(r) == bits_of(*b),
{
    b.clone()
}

/// Relies on `BitVec::truncate`: keeps the first `n` bits when there are more.
#[verifier::external_body]
pub(crate) fn bits_truncate(b: &mut BitVec, n: usize)
    ensures
        n < bits_of(*old(b)).len() ==> bits_of(*final(b)) == bits_of(*old(b)).take(n as int),
        n >= bits_of(*old(b)).len() ==> bits_of(*final(b)) == bits_of(*old(b)),
{
    b.truncate(n)
}

/// Bit `i` of a byte sequence, most significant bit of each byte first.
pub open spec fn byte_bit(bytes: Seq<u8>, i: int) -> bool {
    (bytes[i / 8] >> ((7 - i % 8) as u8)) & 1u8 == 1u8
}

/// Relies on `BitVec::from_bytes`: eight bits per byte, most significant first.
#[verifier::external_body]
pub(crate) fn bits_from_bytes(bytes: &[u8]) -> (r: BitVec)
    requires
        bytes@.len() * 8 <= usize::MAX,
    ensures
        bits_of(r).len() == bytes@.len() * 8,
        forall|i: int| 0 <= i < bytes@.len() * 8 ==> bits_of(r)[i] == byte_bit(bytes@, i),
{
    BitVec::from_bytes(bytes)
}

/// Relies on `BitVec::to_bytes`: bits packed most significant first, the
/// last byte padded with zeros.
#[verifier::external_body]
pub(crate) fn bits_to_bytes(b: &BitVec) -> (r: Vec<u8>)
    ensures
        r@.len() == (bits_of(*b).len() + 7) / 8,
        forall|i: int| 0 <= i < r@.len() * 8 ==> byte_bit(r@, i) == (i < bits_of(*b).len() && bits_of(*b)[i]),
{
    b.to_bytes()
}

/// Number of set bits among the first `k`.
pub open spec fn count_true(s: Seq<bool>, k: int) -> nat
    decreases k,
{
    if k <= 0 {
        0
    } else {
        count_true(s, k - 1) + if s[k - 1] { 1nat } else { 0nat }
    }
}

/// Number of positions among the first `k` set in `a` and clear in `b`.
pub open spec fn count_missing(a: Seq<bool>, b: Seq<bool>, k: int) -> nat
    decreases k,
{
    if k <= 0 {
        0
    } else {
        count_missing(a, b, k - 1) + if a[k - 1] && !b[k - 1] { 1nat } else { 0nat }
    }
}

/// Every bit set in `a` is set in `b`.
pub open spec fn subset_bits(a: Seq<bool>, b: Seq<bool>) -> bool {
    forall|i: int| 0 <= i < a.len() && #[trigger] a[i] ==> i < b.len() && b[i]
}

/// Acknowledged by more than half of the trusted set: fewer than
/// `max(|trusted| / 2, 1)` trusted nodes are missing from `recv_by`.
pub open spec fn ack_by_majority(trusted: Seq<bool>, recv_by: Seq<bool>) -> bool {
    let t = count_true(trusted, trusted.len() as int);
    let m = count_missing(trusted, recv_by, trusted.len() as int);
    m < if t / 2 >= 1 { t / 2 } else { 1 }
}

pub proof fn lemma_count_true_bound(s: Seq<bool>, k: int)
    requires
        0 <= k <= s.len(),
    ensures
        count_true(s, k) <= k,
    decreases k,
{
    if k > 0 {
        lemma_count_true_bound(s, k - 1);
    }
}

pub proof fn lemma_count_missing_bound(a: Seq<bool>, b: Seq<bool>, k: int)
    requires
        0 <= k <= a.len(),
    ensures
        count_missing(a, b, k) <= k,
    decreases k,
{
    if k > 0 {
        lemma_count_missing_bound(a, b, k - 1);
    }
}

/// Whether every bit set in `a` is also set in `b`.
pub fn is_subset(a: &BitVec, b: &BitVec) -> (r: bool)
    requires
        bits_of(*a).len() == bits_of(*b).len(),
    ensures
        r == subset_bits(bits_of(*a), bits_of(*b)),
{
    let n = bits_len(a);
    let mut i: usize = 0;
    while i < n
        invariant
            n == bits_of(*a).len(),
            n == bits_of(*b).len(),
            i <= n,
            forall|j: int| 0 <= j < i && bits_of(*a)[j] ==> bits_of(*b)[j],
        decreases n - i,
    {
        let x = bits_get(a, i);
        let y = bits_get(b, i);
        if x == Some(true) && y != Some(true) {
            return false;
        }
        i = i + 1;
    }
    true
}

/// Number of set bits.
pub fn count_ones(a: &BitVec) -> (r: usize)
    ensures
        r == count_true(bits_of(*a), bits_of(*a).len() as int),
{
    let n = bits_len(a);
    let mut i: usize = 0;
    let mut c: usize = 0;
    while i < n
        invariant
            n == bits_of(*a).len(),
            i <= n,
            c == count_true(bits_of(*a), i as int),
        decreases n - i,
    {
        proof {
            lemma_count_true_bound(bits_of(*a), i as int);
        }
        if bits_get(a, i) == Some(true) {
            c = c + 1;
        }
        i = i + 1;
    }
    c
}

/// Whether more than half of the trusted nodes acknowledged: the number of
/// trusted nodes missing from `recv_by` is below `max(|trusted| / 2, 1)`.
pub fn urb_is_ack_by_majority(trusted: &BitVec, recv_by: &BitVec) -> (r: bool)
    requires
        bits_of(*trusted).len() == bits_of(*recv_by).len(),
    ensures
        r == ack_by_majority(bits_of(*trusted), bits_of(*recv_by)),
{
    let t = count_ones(trusted);
    let n = bits_len(trusted);
    let mut i: usize = 0;
    let mut m: usize = 0;
    while i < n
        invariant
            n == bits_of(*trusted).len(),
            n == bits_of(*recv_by).len(),
            i <= n,
            m == count_missing(bits_of(*trusted), bits_of(*recv_by), i as int),
        decreases n - i,
    {
        proof {
            lemma_count_missing_bound(bits_of(*trusted), bits_of(*recv_by), i as int);
        }
        if bits_get(trusted, i) == Some(true) && bits_get(recv_by, i) == Some(false) {
            m = m + 1;
        }
        i = i + 1;
    }
    let half = if t / 2 >= 1 { t / 2 } else { 1 };
    m < half
}

} // verus!
