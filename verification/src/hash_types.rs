//! Identifiers of transactions and blocks, held as the bytes that they are made of.

use core::cmp::Ordering;
use vstd::prelude::*;
use vstd::std_specs::cmp::PartialEqSpec;
use vstd::std_specs::cmp::PartialOrdSpec;

verus! {

/// A transaction id.
#[derive(Clone, Copy, Debug, Eq, Ord, Hash)]
pub struct Txid(pub [u8; 32]);

/// A block hash.
#[derive(Clone, Copy, Debug, Eq, PartialOrd, Ord, Hash)]
pub struct BlockHash(pub [u8; 32]);

impl View for Txid {
    type V = Seq<u8>;

    open spec fn view(&self) -> Seq<u8> {
        self.0@
    }
}

impl View for BlockHash {
    type V = Seq<u8>;

    open spec fn view(&self) -> Seq<u8> {
        self.0@
    }
}

/// `a` comes before `b` byte by byte: they agree up to some place, where `a` has the smaller byte.
pub open spec fn bytes_lt(a: Seq<u8>, b: Seq<u8>) -> bool {
    exists|k: int|
        0 <= k < a.len() && k < b.len() && #[trigger] a[k] < #[trigger] b[k] && a.take(k) == b.take(
            k,
        )
}

/// The first place at which the two arrays differ; their length if there is none.
fn first_difference(a: &[u8; 32], b: &[u8; 32]) -> (k: usize)
    ensures
        k <= 32,
        a@.take(k as int) == b@.take(k as int),
        k < 32 ==> a@[k as int] != b@[k as int],
{
    let mut k: usize = 0;
    while k < 32
        invariant_except_break
            k <= 32,
            a@.take(k as int) == b@.take(k as int),
        ensures
            k <= 32,
            a@.take(k as int) == b@.take(k as int),
            k < 32 ==> a@[k as int] != b@[k as int],
        decreases 32 - k,
    {
        if a[k] != b[k] {
            break;
        }
        assert(a@.take(k + 1) =~= a@.take(k as int).push(a@[k as int]));
        assert(b@.take(k + 1) =~= b@.take(k as int).push(b@[k as int]));
        k = k + 1;
    }
    k
}

impl vstd::std_specs::cmp::PartialEqSpecImpl for Txid {
    open spec fn obeys_eq_spec() -> bool {
        true
    }

    open spec fn eq_spec(&self, other: &Self) -> bool {
        self@ == other@
    }
}

impl PartialEq for Txid {
    fn eq(&self, other: &Self) -> (r: bool) {
        let k: usize = first_difference(&self.0, &other.0);
        proof {
            lemma_first_difference(self@, other@, k);
        }
        k == 32
    }
}

impl vstd::std_specs::cmp::PartialEqSpecImpl for BlockHash {
    open spec fn obeys_eq_spec() -> bool {
        true
    }

    open spec fn eq_spec(&self, other: &Self) -> bool {
        self@ == other@
    }
}

impl PartialEq for BlockHash {
    fn eq(&self, other: &Self) -> (r: bool) {
        let k: usize = first_difference(&self.0, &other.0);
        proof {
            lemma_first_difference(self@, other@, k);
        }
        k == 32
    }
}

impl vstd::std_specs::cmp::PartialOrdSpecImpl for Txid {
    open spec fn obeys_partial_cmp_spec() -> bool {
        true
    }

    open spec fn partial_cmp_spec(&self, other: &Self) -> Option<Ordering> {
        if self@ == other@ {
            Some(Ordering::Equal)
        } else if bytes_lt(self@, other@) {
            Some(Ordering::Less)
        } else {
            Some(Ordering::Greater)
        }
    }
}

impl PartialOrd for Txid {
    fn partial_cmp(&self, other: &Self) -> (r: Option<Ordering>) {
        let k: usize = first_difference(&self.0, &other.0);
        proof {
            lemma_first_difference(self@, other@, k);
        }
        if k == 32 {
            Some(Ordering::Equal)
        } else if self.0[k] < other.0[k] {
            Some(Ordering::Less)
        } else {
            Some(Ordering::Greater)
        }
    }
}

/// No two byte strings come before each other both ways.
proof fn lemma_bytes_lt_asymmetric(a: Seq<u8>, b: Seq<u8>)
    requires
        bytes_lt(a, b),
    ensures
        a != b,
        !bytes_lt(b, a),
{
    let k = choose|k: int|
        0 <= k < a.len() && k < b.len() && #[trigger] a[k] < #[trigger] b[k] && a.take(k) == b.take(
            k,
        );
    if bytes_lt(b, a) {
        let m = choose|m: int|
            0 <= m < b.len() && m < a.len() && #[trigger] b[m] < #[trigger] a[m] && b.take(m)
                == a.take(m);
        if k < m {
            assert(a.take(m)[k] == a[k] && b.take(m)[k] == b[k]);
        } else if m < k {
            assert(a.take(k)[m] == a[m] && b.take(k)[m] == b[m]);
        }
    }
}

/// Two byte strings are ordered by the first place at which they differ.
proof fn lemma_first_difference(a: Seq<u8>, b: Seq<u8>, k: usize)
    requires
        a.len() == b.len(),
        k <= a.len(),
        a.take(k as int) == b.take(k as int),
        k < a.len() ==> a[k as int] != b[k as int],
    ensures
        k == a.len() <==> a == b,
        k < a.len() && a[k as int] < b[k as int] ==> bytes_lt(a, b),
        k < a.len() && b[k as int] < a[k as int] ==> !bytes_lt(a, b),
{
    if k == a.len() {
        assert(a =~= a.take(k as int) && b =~= b.take(k as int));
    } else if b[k as int] < a[k as int] {
        assert(bytes_lt(b, a));
        lemma_bytes_lt_asymmetric(b, a);
    }
}

/// The byte order is transitive.
proof fn lemma_bytes_lt_transitive(a: Seq<u8>, b: Seq<u8>, c: Seq<u8>)
    requires
        bytes_lt(a, b),
        bytes_lt(b, c),
    ensures
        bytes_lt(a, c),
{
    let k = choose|k: int|
        0 <= k < a.len() && k < b.len() && #[trigger] a[k] < #[trigger] b[k] && a.take(k) == b.take(
            k,
        );
    let m = choose|m: int|
        0 <= m < b.len() && m < c.len() && #[trigger] b[m] < #[trigger] c[m] && b.take(m) == c.take(
            m,
        );
    let n = if k < m { k } else { m };
    assert(a.take(n) =~= a.take(k).take(n));
    assert(b.take(n) =~= b.take(k).take(n));
    assert(b.take(n) =~= b.take(m).take(n));
    assert(c.take(n) =~= c.take(m).take(n));
    if k < m {
        assert(b.take(m)[k] == b[k] && c.take(m)[k] == c[k]);
    } else if m < k {
        assert(a.take(k)[m] == a[m] && b.take(k)[m] == b[m]);
    }
    assert(a[n] < c[n]);
}

/// Of two different byte strings of one length, one comes first.
proof fn lemma_bytes_lt_total(a: Seq<u8>, b: Seq<u8>)
    requires
        a.len() == b.len(),
        a != b,
    ensures
        bytes_lt(a, b) || bytes_lt(b, a),
    decreases a.len(),
{
    if a.len() > 0 {
        let n = a.len() - 1;
        if a.take(n) == b.take(n) {
            assert(a[n] != b[n]) by {
                if a[n] == b[n] {
                    assert(a =~= a.take(n).push(a[n]));
                    assert(b =~= b.take(n).push(b[n]));
                }
            }
            assert(a[n] < b[n] || b[n] < a[n]);
        } else {
            let p = a.take(n);
            let q = b.take(n);
            lemma_bytes_lt_total(p, q);
            if bytes_lt(p, q) {
                let k = choose|k: int|
                    0 <= k < p.len() && k < q.len() && #[trigger] p[k] < #[trigger] q[k] && p.take(k)
                        == q.take(k);
                assert(p.take(k) =~= a.take(k) && q.take(k) =~= b.take(k));
                assert(a[k] < b[k]);
            } else {
                let k = choose|k: int|
                    0 <= k < q.len() && k < p.len() && #[trigger] q[k] < #[trigger] p[k] && q.take(k)
                        == p.take(k);
                assert(p.take(k) =~= a.take(k) && q.take(k) =~= b.take(k));
                assert(b[k] < a[k]);
            }
        }
    } else {
        assert(a =~= b);
    }
}

/// Transaction ids with the same bytes are the same.
pub proof fn lemma_txid_from_bytes(a: Txid, b: Txid)
    requires
        a@ == b@,
    ensures
        a == b,
{
    assert(a.0 =~= b.0) by {
        assert forall|i: int| 0 <= i < 32 implies a.0[i] == b.0[i] by {
            assert(a@[i] == b@[i]);
        }
    }
}

/// Block hashes with the same bytes are the same.
pub proof fn lemma_block_hash_from_bytes(a: BlockHash, b: BlockHash)
    requires
        a@ == b@,
    ensures
        a == b,
{
    assert(a.0 =~= b.0) by {
        assert forall|i: int| 0 <= i < 32 implies a.0[i] == b.0[i] by {
            assert(a@[i] == b@[i]);
        }
    }
}

/// Whether two block hashes are the same.
pub(crate) fn same_hash(a: &BlockHash, b: &BlockHash) -> (r: bool)
    ensures
        r == (*a == *b),
{
    proof {
        if a@ == b@ {
            lemma_block_hash_from_bytes(*a, *b);
        }
    }
    *a == *b
}

/// Transaction ids are totally ordered by their bytes.
pub proof fn lemma_txid_lawful()
    ensures
        crate::order::lawful::<Txid>(),
{
    reveal(crate::order::lawful);
    assert forall|a: Txid, b: Txid| #[trigger] a.eq_spec(&b) implies a == b by {
        lemma_txid_from_bytes(a, b);
    }
    assert forall|a: Txid, b: Txid| #[trigger] a.partial_cmp_spec(&b) == Some(
        Ordering::Equal,
    ) implies a == b by {
        lemma_txid_from_bytes(a, b);
    }
    assert forall|a: Txid, b: Txid|
        a == b || #[trigger] crate::order::lt(a, b) || crate::order::lt(b, a) by {
        if a@ == b@ {
            lemma_txid_from_bytes(a, b);
        } else {
            lemma_bytes_lt_total(a@, b@);
        }
    }
    assert forall|a: Txid, b: Txid, c: Txid|
        #[trigger] crate::order::lt(a, b) && #[trigger] crate::order::lt(
            b,
            c,
        ) implies crate::order::lt(a, c) by {
        lemma_bytes_lt_transitive(a@, b@, c@);
        lemma_bytes_lt_asymmetric(a@, c@);
    }
}

/// The transaction id that is made of `bytes`, by way of `bitcoin::Txid::from_inner`.
///
/// Trusted: `from_inner` keeps the bytes that it is given, and `into_inner` hands them back.
#[verifier::external_body]
fn txid_from_inner(bytes: [u8; 32]) -> (txid: Txid)
    ensures
        txid@ == bytes@,
{
    Txid(
        <bitcoin::Txid as bitcoin::hashes::Hash>::into_inner(
            <bitcoin::Txid as bitcoin::hashes::Hash>::from_inner(bytes),
        ),
    )
}

/// The transaction id that `bitcoin::Txid::all_zeros` returns.
///
/// Trusted: each of its bytes is zero.
#[verifier::external_body]
pub(crate) fn txid_all_zeros() -> (txid: Txid)
    ensures
        txid@ == Seq::new(32, |i: int| 0u8),
{
    Txid(
        <bitcoin::Txid as bitcoin::hashes::Hash>::into_inner(
            <bitcoin::Txid as bitcoin::hashes::Hash>::all_zeros(),
        ),
    )
}

/// The hexadecimal digit that stands for `n`.
pub open spec fn hex_digit(n: int) -> char {
    if 0 <= n < 10 {
        ('0' as int + n) as char
    } else {
        ('a' as int + n - 10) as char
    }
}

/// The bytes in hexadecimal, the last byte first.
pub open spec fn reversed_hex(bytes: Seq<u8>) -> Seq<char> {
    Seq::new(
        2 * bytes.len(),
        |i: int|
            {
                let byte = bytes[bytes.len() - 1 - i / 2] as int;
                if i % 2 == 0 {
                    hex_digit(byte / 16)
                } else {
                    hex_digit(byte % 16)
                }
            },
    )
}

/// The text that `bitcoin::Txid` displays itself as.
///
/// Trusted: two lower-case hexadecimal digits for each byte, the last byte first.
#[verifier::external_body]
pub(crate) fn txid_to_string(txid: &Txid) -> (text: String)
    ensures
        text@ == reversed_hex(txid@),
{
    <bitcoin::Txid as bitcoin::hashes::Hash>::from_inner(txid.0).to_string()
}

/// The least transaction id.
pub(crate) fn min_txid() -> (txid: Txid)
    ensures
        txid@ == Seq::new(32, |i: int| 0x00u8),
        forall|t: Txid| #[trigger] crate::order::le(txid, t),
{
    let txid = txid_from_inner([0x00u8; 32]);
    assert(txid@ =~= Seq::new(32, |i: int| 0x00u8));
    proof {
        lemma_all_zeros_least(txid);
    }
    txid
}

/// The greatest transaction id.
pub(crate) fn max_txid() -> (txid: Txid)
    ensures
        txid@ == Seq::new(32, |i: int| 0xffu8),
        forall|t: Txid| #[trigger] crate::order::le(t, txid),
{
    let txid = txid_from_inner([0xffu8; 32]);
    assert(txid@ =~= Seq::new(32, |i: int| 0xffu8));
    assert forall|t: Txid| #[trigger] crate::order::le(t, txid) by {
        lemma_txid_lawful();
        crate::order::lemma_total(txid, t);
        if crate::order::lt(txid, t) {
            let k = choose|k: int|
                0 <= k < 32 && k < t@.len() && #[trigger] txid@[k] < #[trigger] t@[k]
                    && txid@.take(k) == t@.take(k);
            assert(txid@[k] == 0xffu8);
        }
    }
    txid
}

/// No transaction id comes before one that is all zeros.
pub proof fn lemma_all_zeros_least(zeros: Txid)
    requires
        zeros@ == Seq::new(32, |i: int| 0x00u8),
    ensures
        forall|t: Txid| #[trigger] crate::order::le(zeros, t),
{
    lemma_txid_lawful();
    assert forall|t: Txid| #[trigger] crate::order::le(zeros, t) by {
        crate::order::lemma_total(zeros, t);
        if crate::order::lt(t, zeros) {
            let k = choose|k: int|
                0 <= k < t@.len() && k < 32 && #[trigger] t@[k] < #[trigger] zeros@[k]
                    && t@.take(k) == zeros@.take(k);
            assert(zeros@[k] == 0x00u8);
        }
    }
}

} // verus!
