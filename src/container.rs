//! The versioned container: `[version u32 LE][count u32 LE][record 0]...[record count-1]`.
//!
//! Records are self-delimiting encodings produced and read by a record codec
//! that lives outside this module. Writing takes the encodings as bytes;
//! reading takes the codec's decoder as a function from (buffer, offset) to
//! an optional (record, bytes consumed) pair.

use vstd::prelude::*;

verus! {

/// The only container version this library reads and writes.
pub const CURRENT_VERSION: u32 = 1;

/// Size of the two u32 headers.
pub const HEADER_LEN: usize = 8;

/// The four little-endian bytes of `v`.
pub open spec fn u32_le(v: u32) -> Seq<u8> {
    seq![
        (v % 256) as u8,
        ((v / 256) % 256) as u8,
        ((v / 65536) % 256) as u8,
        (v / 16777216) as u8,
    ]
}

/// The little-endian u32 held by the four bytes of `b` starting at `at`.
pub open spec fn le_u32_at(b: Seq<u8>, at: int) -> int {
    b[at] + 256 * b[at + 1] + 65536 * b[at + 2] + 16777216 * b[at + 3]
}

/// All encodings, one after another.
pub open spec fn concat_all(encs: Seq<Seq<u8>>) -> Seq<u8>
    decreases encs.len(),
{
    if encs.len() == 0 {
        Seq::empty()
    } else {
        concat_all(encs.drop_last()) + encs.last()
    }
}

/// The container that holds `count` as its record count and `body` after the headers.
pub open spec fn framed(count: u32, body: Seq<u8>) -> Seq<u8> {
    u32_le(CURRENT_VERSION) + u32_le(count) + body
}

/// The container that the writer produces for these encodings.
pub open spec fn container_bytes(encs: Seq<Seq<u8>>) -> Seq<u8> {
    framed(encs.len() as u32, concat_all(encs))
}

/// The views of a sequence of byte vectors.
pub open spec fn views_of(v: Seq<Vec<u8>>) -> Seq<Seq<u8>> {
    v.map_values(|e: Vec<u8>| e@)
}

/// Whether the headers can be read and name the current version.
pub open spec fn header_ok(b: Seq<u8>) -> bool {
    b.len() >= HEADER_LEN && le_u32_at(b, 0) == CURRENT_VERSION
}

/// The record count stated in the header.
pub open spec fn declared_count(b: Seq<u8>) -> int {
    le_u32_at(b, 4)
}

/// A decoder outcome that the reader takes: a record that consumed at least
/// one byte and no more bytes than remain after `pos`.
pub open spec fn accepted<T>(o: Option<(T, usize)>, pos: int, len: int) -> bool {
    match o {
        Some((_, used)) => 0 < used && pos + used <= len,
        None => false,
    }
}

/// Record `i` of `recs` is what `decode` returned at offset `ends[i]`, and it
/// consumed the `ends[i + 1] - ends[i] > 0` bytes up to `ends[i + 1]`.
pub open spec fn chain_link<T, F: Fn(&Vec<u8>, usize) -> Option<(T, usize)>>(
    decode: F,
    bytes: &Vec<u8>,
    recs: Seq<T>,
    ends: Seq<int>,
    i: int,
) -> bool {
    &&& ends[i] < ends[i + 1] <= bytes@.len()
    &&& decode.ensures(
        (bytes, ends[i] as usize),
        Some((recs[i], (ends[i + 1] - ends[i]) as usize)),
    )
}

/// `recs` were read one after another from `bytes`, the first at the end of
/// the headers, each where the one before ended.
pub open spec fn decode_chain<T, F: Fn(&Vec<u8>, usize) -> Option<(T, usize)>>(
    decode: F,
    bytes: &Vec<u8>,
    recs: Seq<T>,
    ends: Seq<int>,
) -> bool {
    &&& ends.len() == recs.len() + 1
    &&& ends[0] == HEADER_LEN
    &&& forall|i: int| 0 <= i < recs.len() ==> #[trigger] chain_link(decode, bytes, recs, ends, i)
}

/// `decode` may give, at offset `pos`, an outcome that the reader does not take.
pub open spec fn refused_at<T, F: Fn(&Vec<u8>, usize) -> Option<(T, usize)>>(
    decode: F,
    bytes: &Vec<u8>,
    pos: int,
) -> bool {
    exists|o: Option<(T, usize)>|
        #[trigger] decode.ensures((bytes, pos as usize), o) && !accepted(o, pos, bytes@.len() as int)
}

/// `recs` is what reading the container `bytes` with `decode` yields: nothing
/// when the headers are short or of another version; otherwise the records read
/// in order until the declared count is reached or the decoder's outcome at the
/// next offset is refused.
pub open spec fn deserialized<T, F: Fn(&Vec<u8>, usize) -> Option<(T, usize)>>(
    decode: F,
    bytes: &Vec<u8>,
    recs: Seq<T>,
) -> bool {
    if !header_ok(bytes@) {
        recs.len() == 0
    } else {
        &&& recs.len() <= declared_count(bytes@)
        &&& exists|ends: Seq<int>|
            #[trigger] decode_chain(decode, bytes, recs, ends) && (recs.len()
                == declared_count(bytes@) || refused_at(decode, bytes, ends.last()))
    }
}

proof fn lemma_u32_le_round_trip(v: u32)
    ensures
        le_u32_at(u32_le(v), 0) == v,
        u32_le(v).len() == 4,
{
    let b = u32_le(v);
    assert(b[0] == v % 256);
    assert(b[1] == (v / 256) % 256);
    assert(b[2] == (v / 65536) % 256);
    assert(b[3] == v / 16777216);
    assert((v % 256) + 256 * ((v / 256) % 256) + 65536 * ((v / 65536) % 256) + 16777216 * (v
        / 16777216) == v) by (nonlinear_arith);
}

proof fn lemma_chain_push<T, F: Fn(&Vec<u8>, usize) -> Option<(T, usize)>>(
    decode: F,
    bytes: &Vec<u8>,
    recs: Seq<T>,
    ends: Seq<int>,
    r: T,
    p: int,
)
    requires
        decode_chain(decode, bytes, recs, ends),
        ends.last() < p <= bytes@.len(),
        decode.ensures((bytes, ends.last() as usize), Some((r, (p - ends.last()) as usize))),
    ensures
        decode_chain(decode, bytes, recs.push(r), ends.push(p)),
{
    let recs2 = recs.push(r);
    let ends2 = ends.push(p);
    assert forall|i: int| 0 <= i < recs2.len() implies #[trigger] chain_link(
        decode,
        bytes,
        recs2,
        ends2,
        i,
    ) by {
        if i < recs.len() {
            assert(chain_link(decode, bytes, recs, ends, i));
            assert(ends2[i] == ends[i] && ends2[i + 1] == ends[i + 1] && recs2[i] == recs[i]);
        } else {
            assert(ends2[i] == ends.last() && ends2[i + 1] == p && recs2[i] == r);
        }
    }
    assert(ends2.len() == recs2.len() + 1);
    assert(ends2[0] == HEADER_LEN);
}

/// Appends the little-endian bytes of `v`.
fn push_u32_le(out: &mut Vec<u8>, v: u32)
    ensures
        final(out)@ == old(out)@ + u32_le(v),
{
    out.push((v % 256) as u8);
    out.push(((v / 256) % 256) as u8);
    out.push(((v / 65536) % 256) as u8);
    out.push((v / 16777216) as u8);
    assert(final(out)@ =~= old(out)@ + u32_le(v));
}

/// Reads the little-endian u32 at `at`.
fn read_u32_le(b: &Vec<u8>, at: usize) -> (r: u32)
    requires
        at + 4 <= b.len(),
    ensures
        r == le_u32_at(b@, at as int),
{
    let b0 = b[at] as u32;
    let b1 = b[at + 1] as u32;
    let b2 = b[at + 2] as u32;
    let b3 = b[at + 3] as u32;
    b0 + 256 * b1 + 65536 * b2 + 16777216 * b3
}

/// Appends all bytes of `src`.
fn push_all(out: &mut Vec<u8>, src: &Vec<u8>)
    ensures
        final(out)@ == old(out)@ + src@,
{
    let mut i: usize = 0;
    while i < src.len()
        invariant
            i <= src@.len(),
            out@ == old(out)@ + src@.subrange(0, i as int),
        decreases src@.len() - i,
    {
        out.push(src[i]);
        i = i + 1;
        assert(out@ =~= old(out)@ + src@.subrange(0, i as int));
    }
    assert(src@.subrange(0, i as int) =~= src@);
}

/// Writes the container for the given record encodings: the current version,
/// the number of encodings, then each encoding in order. An empty encoding is
/// still counted.
pub fn serialize(encodings: &Vec<Vec<u8>>) -> (r: Vec<u8>)
    requires
        encodings@.len() <= u32::MAX,
    ensures
        r@ == container_bytes(views_of(encodings@)),
{
    let ghost encs = views_of(encodings@);
    let mut out: Vec<u8> = Vec::new();
    push_u32_le(&mut out, CURRENT_VERSION);
    push_u32_le(&mut out, encodings.len() as u32);
    let mut i: usize = 0;
    while i < encodings.len()
        invariant
            i <= encodings@.len(),
            encs == views_of(encodings@),
            out@ == u32_le(CURRENT_VERSION) + u32_le(encodings@.len() as u32) + concat_all(
                encs.take(i as int),
            ),
        decreases encodings@.len() - i,
    {
        push_all(&mut out, &encodings[i]);
        proof {
            assert(encs.take(i + 1).drop_last() =~= encs.take(i as int));
            assert(encs.take(i + 1).last() == encodings@[i as int]@);
        }
        i = i + 1;
    }
    assert(encs.take(i as int) =~= encs);
    out
}

/// Reads a container with `decode`, the record codec's decoder applied at an
/// offset into the buffer. Yields nothing when the buffer is shorter than the
/// headers or holds another version. Otherwise reads up to the declared count
/// of records and stops early, keeping what was read, when the decoder fails,
/// consumes nothing, or claims more bytes than remain.
pub fn deserialize<T, F: Fn(&Vec<u8>, usize) -> Option<(T, usize)>>(
    bytes: &Vec<u8>,
    decode: F,
) -> (r: Vec<T>)
    requires
        forall|p: usize| p <= bytes@.len() ==> #[trigger] decode.requires((bytes, p)),
    ensures
        deserialized(decode, bytes, r@),
        bytes@.len() < HEADER_LEN ==> r@.len() == 0,
        bytes@.len() >= HEADER_LEN && le_u32_at(bytes@, 0) != CURRENT_VERSION ==> r@.len() == 0,
{
    let mut out: Vec<T> = Vec::new();
    if bytes.len() < HEADER_LEN {
        return out;
    }
    let version = read_u32_le(bytes, 0);
    if version != CURRENT_VERSION {
        return out;
    }
    let count = read_u32_le(bytes, 4);
    let mut pos: usize = HEADER_LEN;
    let mut stopped = false;
    let ghost mut ends: Seq<int> = seq![HEADER_LEN as int];
    while out.len() < count as usize && !stopped
        invariant
            header_ok(bytes@),
            count == declared_count(bytes@),
            out@.len() <= count,
            pos <= bytes@.len(),
            ends.last() == pos,
            decode_chain(decode, bytes, out@, ends),
            stopped ==> refused_at(decode, bytes, pos as int),
            forall|p: usize| p <= bytes@.len() ==> #[trigger] decode.requires((bytes, p)),
        decreases count - out@.len() + (if stopped { 0int } else { 1int }),
    {
        let o = decode(bytes, pos);
        match o {
            Some((rec, used)) => {
                if used == 0 || used > bytes.len() - pos {
                    stopped = true;
                    proof {
                        assert(!accepted(o, pos as int, bytes@.len() as int));
                    }
                } else {
                    let ghost old_out = out@;
                    let ghost old_ends = ends;
                    let ghost at_pos = pos;
                    let ghost r0 = rec;
                    assert(decode.ensures((bytes, at_pos), Some((r0, used))));
                    out.push(rec);
                    pos = pos + used;
                    proof {
                        lemma_chain_push(decode, bytes, old_out, old_ends, r0, pos as int);
                        ends = ends.push(pos as int);
                        assert(out@ =~= old_out.push(r0));
                    }
                }
            },
            None => {
                stopped = true;
                proof {
                    assert(!accepted(o, pos as int, bytes@.len() as int));
                }
            },
        }
    }
    proof {
        assert(decode_chain(decode, bytes, out@, ends));
    }
    out
}

/// The decoder reads each record back from its encoding: wherever `encs[i]`
/// stands in a buffer, `decode` at its first byte gives `recs[i]` and consumes
/// exactly `encs[i].len()` bytes. Every encoding is non-empty.
pub open spec fn reads_back<T, F: Fn(&Vec<u8>, usize) -> Option<(T, usize)>>(
    decode: F,
    recs: Seq<T>,
    encs: Seq<Seq<u8>>,
) -> bool {
    &&& recs.len() == encs.len()
    &&& forall|i: int| 0 <= i < encs.len() ==> #[trigger] encs[i].len() > 0
    &&& forall|i: int, b: &Vec<u8>, p: usize, o: Option<(T, usize)>|
        #![trigger decode.ensures((b, p), o), encs[i]]
        0 <= i < encs.len() && p + encs[i].len() <= b@.len() && b@.subrange(
            p as int,
            p + encs[i].len(),
        ) == encs[i] && decode.ensures((b, p), o) ==> o == Some((recs[i], encs[i].len() as usize))
}

proof fn lemma_concat_step(encs: Seq<Seq<u8>>, b: int)
    requires
        0 < b <= encs.len(),
    ensures
        concat_all(encs.take(b)) == concat_all(encs.take(b - 1)) + encs[b - 1],
{
    assert(encs.take(b).drop_last() =~= encs.take(b - 1));
}

/// The concatenation of the first `a` encodings begins the concatenation of
/// the first `b`, and encoding `a` follows it there.
proof fn lemma_concat_take(encs: Seq<Seq<u8>>, a: int, b: int)
    requires
        0 <= a <= b <= encs.len(),
    ensures
        concat_all(encs.take(a)).len() <= concat_all(encs.take(b)).len(),
        concat_all(encs.take(b)).subrange(0, concat_all(encs.take(a)).len() as int) == concat_all(
            encs.take(a),
        ),
        a < b ==> concat_all(encs.take(a)).len() + encs[a].len() <= concat_all(encs.take(b)).len(),
        a < b ==> concat_all(encs.take(b)).subrange(
            concat_all(encs.take(a)).len() as int,
            (concat_all(encs.take(a)).len() + encs[a].len()) as int,
        ) == encs[a],
    decreases b - a,
{
    let ca = concat_all(encs.take(a));
    let cb = concat_all(encs.take(b));
    if a == b {
        assert(cb.subrange(0, ca.len() as int) =~= ca);
    } else {
        lemma_concat_take(encs, a, b - 1);
        lemma_concat_take(encs, a + 1, b);
        lemma_concat_step(encs, b);
        lemma_concat_step(encs, a + 1);
        let cp = concat_all(encs.take(b - 1));
        assert(cb.subrange(0, ca.len() as int) =~= cp.subrange(0, ca.len() as int));
        if a == b - 1 {
            assert(cb.subrange(ca.len() as int, (ca.len() + encs[a].len()) as int) =~= encs[a]);
        } else {
            assert(cb.subrange(ca.len() as int, (ca.len() + encs[a].len()) as int) =~= cp.subrange(
                ca.len() as int,
                (ca.len() + encs[a].len()) as int,
            ));
        }
    }
}

/// Along a chain read from a container whose body is the first `k` encodings,
/// record `i` starts where encoding `i` starts and is `recs[i]`.
proof fn lemma_chain_follows<T, F: Fn(&Vec<u8>, usize) -> Option<(T, usize)>>(
    decode: F,
    recs: Seq<T>,
    encs: Seq<Seq<u8>>,
    k: int,
    bytes: &Vec<u8>,
    out: Seq<T>,
    ends: Seq<int>,
    j: int,
)
    requires
        reads_back(decode, recs, encs),
        0 <= k <= encs.len() <= u32::MAX,
        bytes@ == framed(encs.len() as u32, concat_all(encs.take(k))),
        decode_chain(decode, bytes, out, ends),
        0 <= j <= out.len(),
    ensures
        j <= k,
        ends[j] == HEADER_LEN + concat_all(encs.take(j)).len(),
        out.take(j) == recs.take(j),
    decreases j,
{
    if j == 0 {
        assert(out.take(0) =~= recs.take(0));
    } else {
        lemma_chain_follows(decode, recs, encs, k, bytes, out, ends, j - 1);
        let i = j - 1;
        assert(bytes.len() == bytes@.len());
        assert(chain_link(decode, bytes, out, ends, i));
        let ci = concat_all(encs.take(i));
        let ck = concat_all(encs.take(k));
        if i >= k {
            lemma_concat_take(encs, k, i);
            assert(false);
        }
        lemma_concat_take(encs, i, k);
        lemma_concat_step(encs, j);
        lemma_u32_le_round_trip(CURRENT_VERSION);
        lemma_u32_le_round_trip(encs.len() as u32);
        let p = ends[i] as usize;
        assert(bytes@.subrange(p as int, p + encs[i].len()) =~= ck.subrange(
            ci.len() as int,
            (ci.len() + encs[i].len()) as int,
        ));
        let o = Some((out[i], (ends[j] - ends[i]) as usize));
        assert(decode.ensures((bytes, p), o));
        assert(o == Some((recs[i], encs[i].len() as usize)));
        assert(out.take(j) =~= out.take(i).push(out[i]));
        assert(recs.take(j) =~= recs.take(i).push(recs[i]));
    }
}

/// Whatever `decode` reads from a container whose header declares `encs.len()`
/// records and whose body is the first `k` encodings is the first `k` records.
proof fn lemma_reads_first<T, F: Fn(&Vec<u8>, usize) -> Option<(T, usize)>>(
    decode: F,
    recs: Seq<T>,
    encs: Seq<Seq<u8>>,
    k: int,
    bytes: &Vec<u8>,
    out: Seq<T>,
)
    requires
        reads_back(decode, recs, encs),
        0 <= k <= encs.len() <= u32::MAX,
        bytes@ == framed(encs.len() as u32, concat_all(encs.take(k))),
        deserialized(decode, bytes, out),
    ensures
        out == recs.take(k),
{
    lemma_u32_le_round_trip(CURRENT_VERSION);
    lemma_u32_le_round_trip(encs.len() as u32);
    let h = u32_le(CURRENT_VERSION) + u32_le(encs.len() as u32);
    assert(bytes@[0] == h[0] && bytes@[1] == h[1] && bytes@[2] == h[2] && bytes@[3] == h[3]);
    assert(bytes@[4] == h[4] && bytes@[5] == h[5] && bytes@[6] == h[6] && bytes@[7] == h[7]);
    assert(header_ok(bytes@));
    assert(declared_count(bytes@) == encs.len());
    let ends = choose|ends: Seq<int>|
        #[trigger] decode_chain(decode, bytes, out, ends) && (out.len() == declared_count(bytes@)
            || refused_at(decode, bytes, ends.last()));
    let m = out.len() as int;
    assert(bytes.len() == bytes@.len());
    lemma_chain_follows(decode, recs, encs, k, bytes, out, ends, m);
    if m < k {
        assert(refused_at(decode, bytes, ends.last()));
        let o = choose|o: Option<(T, usize)>|
            #[trigger] decode.ensures((bytes, ends.last() as usize), o) && !accepted(
                o,
                ends.last(),
                bytes@.len() as int,
            );
        let ck = concat_all(encs.take(k));
        let cm = concat_all(encs.take(m));
        lemma_concat_take(encs, m, k);
        let p = ends.last() as usize;
        assert(bytes@.subrange(p as int, p + encs[m].len()) =~= ck.subrange(
            cm.len() as int,
            (cm.len() + encs[m].len()) as int,
        ));
        assert(o == Some((recs[m], encs[m].len() as usize)));
        assert(false);
    }
    assert(out =~= out.take(m));
}

/// Round trip: reading back the container written for the encodings of
/// `recs` with a decoder that reads each record back from its encoding
/// yields exactly `recs`, in order.
pub proof fn lemma_round_trip<T, F: Fn(&Vec<u8>, usize) -> Option<(T, usize)>>(
    decode: F,
    recs: Seq<T>,
    encs: Seq<Seq<u8>>,
    bytes: &Vec<u8>,
    out: Seq<T>,
)
    requires
        reads_back(decode, recs, encs),
        encs.len() <= u32::MAX,
        bytes@ == container_bytes(encs),
        deserialized(decode, bytes, out),
    ensures
        out == recs,
{
    assert(encs.take(encs.len() as int) =~= encs);
    lemma_reads_first(decode, recs, encs, encs.len() as int, bytes, out);
    assert(recs.take(recs.len() as int) =~= recs);
}

/// Partial recovery: when the container written for `recs` is cut right after
/// record `k < recs.len()`, reading it yields exactly the first `k` records.
pub proof fn lemma_truncated_recovery<T, F: Fn(&Vec<u8>, usize) -> Option<(T, usize)>>(
    decode: F,
    recs: Seq<T>,
    encs: Seq<Seq<u8>>,
    k: int,
    bytes: &Vec<u8>,
    out: Seq<T>,
)
    requires
        reads_back(decode, recs, encs),
        encs.len() <= u32::MAX,
        0 <= k < encs.len(),
        bytes@ == container_bytes(encs).subrange(
            0,
            HEADER_LEN + concat_all(encs.take(k)).len(),
        ),
        deserialized(decode, bytes, out),
    ensures
        out == recs.take(k),
{
    let n = encs.len() as int;
    lemma_concat_take(encs, k, n);
    assert(encs.take(n) =~= encs);
    lemma_u32_le_round_trip(CURRENT_VERSION);
    lemma_u32_le_round_trip(encs.len() as u32);
    assert(bytes@ =~= framed(encs.len() as u32, concat_all(encs.take(k))));
    lemma_reads_first(decode, recs, encs, k, bytes, out);
}

} // verus!
