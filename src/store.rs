//! The in-memory chart store: records kept in load order, written to and read
//! from the versioned container, with a content fingerprint.
//!
//! The record type is the chart codec's; the store takes the codec's encoder
//! (`&T -> bytes`) and decoder (`(buffer, offset) -> (record, consumed)`) as
//! functions.

use crate::container::{
    container_bytes, deserialize, deserialized, serialize, views_of, concat_all,
};
use crate::text::{hex_digits, lemma_hex_digits_injective, pow16, push_hex};
use vstd::prelude::*;

verus! {

/// FNV-1a offset basis (64-bit).
pub const FNV_OFFSET: u64 = 0xcbf29ce484222325;

/// FNV-1a prime (64-bit).
pub const FNV_PRIME: u64 = 0x100000001b3;

/// 64-bit FNV-1a of `bytes`: start from the offset basis; for each byte, xor
/// it into the state, then multiply by the prime modulo 2^64.
pub open spec fn fnv1a(bytes: Seq<u8>) -> u64
    decreases bytes.len(),
{
    if bytes.len() == 0 {
        FNV_OFFSET
    } else {
        let h = fnv1a(bytes.drop_last()) ^ (bytes.last() as u64);
        ((h as nat * FNV_PRIME as nat) % 0x1_0000_0000_0000_0000) as u64
    }
}

/// `encs[i]` is an encoding that `encode` gives for `data[i]`, for every `i`.
pub open spec fn encoded_by<T, F: Fn(&T) -> Vec<u8>>(
    encode: F,
    data: Seq<T>,
    encs: Seq<Vec<u8>>,
) -> bool {
    &&& encs.len() == data.len()
    &&& forall|i: int| 0 <= i < data.len() ==> #[trigger] encode.ensures((&data[i],), encs[i])
}

/// The fingerprint text of a sequence of encodings: 16 lowercase hex digits
/// of the FNV-1a hash of all their bytes in order.
pub open spec fn fingerprint_of(encs: Seq<Seq<u8>>) -> Seq<char> {
    hex_digits(fnv1a(concat_all(encs)) as nat, 16)
}

/// Chart records in load order.
pub struct ChartMetaData<T> {
    data: Vec<T>,
}

impl<T> View for ChartMetaData<T> {
    type V = Seq<T>;

    closed spec fn view(&self) -> Seq<T> {
        self.data@
    }
}

/// FNV-1a over `bytes`, continued from state `h`.
fn fnv1a_extend(h: u64, bytes: &Vec<u8>, Ghost(prefix): Ghost<Seq<u8>>) -> (r: u64)
    requires
        h == fnv1a(prefix),
    ensures
        r == fnv1a(prefix + bytes@),
{
    let mut hash = h;
    let mut i: usize = 0;
    while i < bytes.len()
        invariant
            i <= bytes@.len(),
            hash == fnv1a(prefix + bytes@.subrange(0, i as int)),
        decreases bytes@.len() - i,
    {
        let ghost before = prefix + bytes@.subrange(0, i as int);
        hash = hash ^ (bytes[i] as u64);
        hash = hash.wrapping_mul(FNV_PRIME);
        i = i + 1;
        proof {
            let after = prefix + bytes@.subrange(0, i as int);
            assert(after.drop_last() =~= before);
            assert(after.last() == bytes@[i - 1]);
        }
    }
    assert(bytes@.subrange(0, i as int) =~= bytes@);
    hash
}

impl<T> ChartMetaData<T> {
    /// A store holding `data`, in order.
    pub fn new(data: Vec<T>) -> (r: Self)
        ensures
            r@ == data@,
    {
        ChartMetaData { data }
    }

    /// The records, in order.
    pub fn charts(&self) -> (r: &Vec<T>)
        ensures
            r@ == self@,
    {
        &self.data
    }

    /// The encoding of every record, in order.
    fn encodings<F: Fn(&T) -> Vec<u8>>(&self, encode: &F) -> (r: Vec<Vec<u8>>)
        requires
            forall|x: &T| #[trigger] encode.requires((x,)),
        ensures
            encoded_by(*encode, self@, r@),
    {
        let mut out: Vec<Vec<u8>> = Vec::new();
        let mut i: usize = 0;
        while i < self.data.len()
            invariant
                i <= self@.len(),
                out@.len() == i,
                forall|x: &T| #[trigger] encode.requires((x,)),
                forall|j: int| 0 <= j < i ==> #[trigger] encode.ensures((&self@[j],), out@[j]),
            decreases self@.len() - i,
        {
            let e = encode(&self.data[i]);
            out.push(e);
            i = i + 1;
        }
        out
    }

    /// The container bytes for the store: the current version, the record
    /// count, then each record's encoding by `encode`, in order. The caller
    /// writes them to the cache file.
    pub fn save<F: Fn(&T) -> Vec<u8>>(&self, encode: F) -> (r: Vec<u8>)
        requires
            forall|x: &T| #[trigger] encode.requires((x,)),
            self@.len() <= u32::MAX,
        ensures
            exists|encs: Seq<Vec<u8>>|
                #[trigger] encoded_by(encode, self@, encs) && r@ == container_bytes(
                    views_of(encs),
                ),
    {
        let encs = self.encodings(&encode);
        let r = serialize(&encs);
        assert(encoded_by(encode, self@, encs@));
        r
    }

    /// The store read from the container `bytes` with `decode`: empty when
    /// the headers are short or of another version, else the records read
    /// before the declared count or the first refused decode.
    pub fn load<F: Fn(&Vec<u8>, usize) -> Option<(T, usize)>>(bytes: &Vec<u8>, decode: F) -> (r:
        Self)
        requires
            forall|p: usize| p <= bytes@.len() ==> #[trigger] decode.requires((bytes, p)),
        ensures
            deserialized(decode, bytes, r@),
    {
        ChartMetaData { data: deserialize(bytes, decode) }
    }

    /// A fingerprint of the store: the FNV-1a hash over the encodings of all
    /// records by `encode`, in order, as 16 lowercase hex digits.
    pub fn get_md5<F: Fn(&T) -> Vec<u8>>(&self, encode: F) -> (r: String)
        requires
            forall|x: &T| #[trigger] encode.requires((x,)),
        ensures
            exists|encs: Seq<Vec<u8>>|
                #[trigger] encoded_by(encode, self@, encs) && r@ == fingerprint_of(
                    views_of(encs),
                ),
    {
        let encs = self.encodings(&encode);
        let mut hash: u64 = FNV_OFFSET;
        let mut i: usize = 0;
        let ghost views = views_of(encs@);
        while i < encs.len()
            invariant
                i <= encs@.len(),
                views == views_of(encs@),
                hash == fnv1a(concat_all(views.take(i as int))),
            decreases encs@.len() - i,
        {
            hash = fnv1a_extend(hash, &encs[i], Ghost(concat_all(views.take(i as int))));
            proof {
                assert(views.take(i + 1).drop_last() =~= views.take(i as int));
            }
            i = i + 1;
        }
        assert(views.take(i as int) =~= views);
        let mut out = String::new();
        push_hex(&mut out, hash, 16);
        assert(out@ =~= hex_digits(hash as nat, 16));
        out
    }
}

/// Determinism: two stores whose records have the same encodings, in the
/// same order, have the same fingerprint.
pub proof fn lemma_fingerprint_deterministic<T, F: Fn(&T) -> Vec<u8>>(
    encode: F,
    a: Seq<T>,
    b: Seq<T>,
    ea: Seq<Vec<u8>>,
    eb: Seq<Vec<u8>>,
    ra: Seq<char>,
    rb: Seq<char>,
)
    requires
        encoded_by(encode, a, ea),
        encoded_by(encode, b, eb),
        views_of(ea) == views_of(eb),
        ra == fingerprint_of(views_of(ea)),
        rb == fingerprint_of(views_of(eb)),
    ensures
        ra == rb,
{
}

/// The modular inverse of the FNV prime modulo 2^64.
pub const FNV_PRIME_INVERSE: u64 = 0xce965057aff6957b;

/// Multiplying by the FNV prime modulo 2^64 loses nothing.
proof fn lemma_prime_step_injective(a: int, b: int)
    requires
        0 <= a < 0x1_0000_0000_0000_0000,
        0 <= b < 0x1_0000_0000_0000_0000,
        (a * FNV_PRIME) % 0x1_0000_0000_0000_0000 == (b * FNV_PRIME) % 0x1_0000_0000_0000_0000,
    ensures
        a == b,
{
    let m: int = 0x1_0000_0000_0000_0000;
    let p: int = FNV_PRIME as int;
    let q: int = FNV_PRIME_INVERSE as int;
    let k: int = 887285111055;
    assert(p * q == 1 + k * m);
    let ka = (a * p) / m;
    let kb = (b * p) / m;
    let x = (a * p) % m;
    assert(a * p == m * ka + x);
    assert(b * p == m * kb + x);
    assert((a - b) * p == (ka - kb) * m);
    let t = (ka - kb) * q - (a - b) * k;
    assert(a - b == m * t) by (nonlinear_arith)
        requires
            (a - b) * p == (ka - kb) * m,
            p * q == 1 + k * m,
            t == (ka - kb) * q - (a - b) * k,
    ;
    if t > 0 {
        assert(m * t >= m) by (nonlinear_arith)
            requires
                t >= 1,
                m > 0,
        ;
    } else if t < 0 {
        assert(m * t <= -m) by (nonlinear_arith)
            requires
                t <= -1,
                m > 0,
        ;
    }
}

/// One FNV-1a step from two different states gives two different states,
/// and so does one step with two different bytes from the same state.
proof fn lemma_fnv_step_differs(h1: u64, x1: u8, h2: u64, x2: u8)
    requires
        h1 != h2 || x1 != x2,
        h1 != h2 ==> x1 == x2,
    ensures
        ((h1 ^ (x1 as u64)) as nat * FNV_PRIME as nat) % 0x1_0000_0000_0000_0000 != ((h2 ^ (
        x2 as u64)) as nat * FNV_PRIME as nat) % 0x1_0000_0000_0000_0000,
{
    let y1 = x1 as u64;
    let y2 = x2 as u64;
    assert((h1 != h2 && y1 == y2) ==> (h1 ^ y1) != (h2 ^ y2)) by (bit_vector);
    assert((h1 == h2 && y1 != y2) ==> (h1 ^ y1) != (h2 ^ y2)) by (bit_vector);
    let g1 = h1 ^ y1;
    let g2 = h2 ^ y2;
    if (g1 as nat * FNV_PRIME as nat) % 0x1_0000_0000_0000_0000 == (g2 as nat * FNV_PRIME as nat)
        % 0x1_0000_0000_0000_0000 {
        lemma_prime_step_injective(g1 as int, g2 as int);
    }
}

/// Two byte sequences of one length that differ at position `d` alone have
/// different FNV-1a hashes.
proof fn lemma_fnv1a_single_change(c1: Seq<u8>, c2: Seq<u8>, d: int)
    requires
        c1.len() == c2.len(),
        0 <= d < c1.len(),
        c1[d] != c2[d],
        forall|i: int| 0 <= i < c1.len() && i != d ==> c1[i] == c2[i],
    ensures
        fnv1a(c1) != fnv1a(c2),
    decreases c1.len(),
{
    let n = c1.len() - 1;
    if d == n {
        assert(c1.drop_last() =~= c2.drop_last());
        lemma_fnv_step_differs(fnv1a(c1.drop_last()), c1.last(), fnv1a(c2.drop_last()), c2.last());
    } else {
        lemma_fnv1a_single_change(c1.drop_last(), c2.drop_last(), d);
        assert(c1.last() == c2.last());
        lemma_fnv_step_differs(fnv1a(c1.drop_last()), c1.last(), fnv1a(c2.drop_last()), c2.last());
    }
}

/// Change detection: two sequences of encodings whose bytes, taken in order,
/// have one length and differ in exactly one byte have different fingerprints.
pub proof fn lemma_fingerprint_detects_single_byte(x: Seq<Seq<u8>>, y: Seq<Seq<u8>>, d: int)
    requires
        concat_all(x).len() == concat_all(y).len(),
        0 <= d < concat_all(x).len(),
        concat_all(x)[d] != concat_all(y)[d],
        forall|i: int|
            0 <= i < concat_all(x).len() && i != d ==> concat_all(x)[i] == concat_all(y)[i],
    ensures
        fingerprint_of(x) != fingerprint_of(y),
{
    let hx = fnv1a(concat_all(x));
    let hy = fnv1a(concat_all(y));
    lemma_fnv1a_single_change(concat_all(x), concat_all(y), d);
    reveal_with_fuel(pow16, 17);
    assert(pow16(16) == 0x1_0000_0000_0000_0000);
    if fingerprint_of(x) == fingerprint_of(y) {
        lemma_hex_digits_injective(hx as nat, hy as nat, 16);
    }
}

} // verus!
