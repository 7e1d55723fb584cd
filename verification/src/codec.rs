//! The stable binary encoding of transactions: the format under which
//! records are written to the ledger and hashed into a merkle root.
//!
//! A record is one tag byte for the transaction type, eight little-endian
//! bytes for the timestamp, then length-prefixed segments for the key
//! (UTF-8), the value, the signature and the public key, then the
//! metadata pair count and one pair of segments per metadata entry.
//! The encoding is canonical: a byte string is the encoding of at most
//! one record, and decoding accepts exactly the encodings.
use vstd::prelude::*;
use vstd::utf8::{encode_utf8, valid_utf8, encode_utf8_valid_utf8, encode_utf8_decode_utf8};
use crate::bytes::{u64_le, le_to_u64, seg, seg_fits, starts_at, lemma_le_inverse,
    lemma_le_injective, lemma_le_round_trip, lemma_starts_at_concat, lemma_seg_deterministic,
    read_u64_at, read_seg, push_u64_le, push_seg};
use crate::block::{Transaction, TransactionData, TransactionType, meta_view};

verus! {

/// The mathematical contents of a record payload.
#[verifier::ext_equal]
pub ghost struct TxDataV {
    /// The logical key.
    pub key: Seq<char>,
    /// The value bytes.
    pub value: Seq<u8>,
    /// The metadata pairs, in order.
    pub metadata: Seq<(Seq<char>, Seq<char>)>,
}

/// The mathematical contents of a transaction.
#[verifier::ext_equal]
pub ghost struct TxV {
    /// The kind of record.
    pub transaction_type: TransactionType,
    /// The record payload.
    pub data: TxDataV,
    /// Creation time in milliseconds.
    pub timestamp: i64,
    /// Signature bytes.
    pub signature: Seq<u8>,
    /// Public key bytes.
    pub public_key: Seq<u8>,
}

/// The tag byte of a transaction type.
pub open spec fn tag_of(t: TransactionType) -> u8 {
    match t {
        TransactionType::StoreToken => 0,
        TransactionType::UpdateToken => 1,
        TransactionType::DeleteToken => 2,
        TransactionType::StoreCache => 3,
        TransactionType::UpdateCache => 4,
        TransactionType::DeleteCache => 5,
    }
}

pub proof fn lemma_tag_injective(a: TransactionType, b: TransactionType)
    requires
        tag_of(a) == tag_of(b),
    ensures
        a == b,
{
}

/// The unsigned 64-bit pattern that stands for a signed timestamp.
pub open spec fn ts_repr(t: i64) -> u64 {
    if t >= 0 {
        t as u64
    } else {
        (t + 0x1_0000_0000_0000_0000) as u64
    }
}

pub proof fn lemma_ts_repr_injective(a: i64, b: i64)
    requires
        ts_repr(a) == ts_repr(b),
    ensures
        a == b,
{
}

/// The segment that encodes a string: its UTF-8 bytes, length-prefixed.
pub open spec fn enc_str(s: Seq<char>) -> Seq<u8> {
    seg(encode_utf8(s))
}

/// The concatenated encodings of a list of metadata pairs.
pub open spec fn enc_pairs(m: Seq<(Seq<char>, Seq<char>)>) -> Seq<u8>
    decreases m.len(),
{
    if m.len() == 0 {
        Seq::empty()
    } else {
        enc_str(m[0].0) + enc_str(m[0].1) + enc_pairs(m.skip(1))
    }
}

/// Whether a metadata pair's strings fit the segment length prefix.
pub open spec fn pair_fits(p: (Seq<char>, Seq<char>)) -> bool {
    encode_utf8(p.0).len() <= u64::MAX && encode_utf8(p.1).len() <= u64::MAX
}

/// Whether every pair of a metadata list fits.
pub open spec fn pairs_fit(m: Seq<(Seq<char>, Seq<char>)>) -> bool {
    forall|i: int| 0 <= i < m.len() ==> pair_fits(#[trigger] m[i])
}

/// Whether a transaction's components fit the segment length prefixes.
/// Every transaction held in memory fits.
pub open spec fn tx_fits(v: TxV) -> bool {
    &&& encode_utf8(v.data.key).len() <= u64::MAX
    &&& v.data.value.len() <= u64::MAX
    &&& v.signature.len() <= u64::MAX
    &&& v.public_key.len() <= u64::MAX
    &&& v.data.metadata.len() <= u64::MAX
    &&& pairs_fit(v.data.metadata)
}

/// The canonical encoding of a transaction.
pub open spec fn enc_tx(v: TxV) -> Seq<u8> {
    seq![tag_of(v.transaction_type)] + u64_le(ts_repr(v.timestamp)) + enc_str(v.data.key) + seg(
        v.data.value,
    ) + seg(v.signature) + seg(v.public_key) + u64_le(v.data.metadata.len() as u64) + enc_pairs(
        v.data.metadata,
    )
}

/// Whether a byte string is the encoding of some transaction.
pub open spec fn is_tx_encoding(b: Seq<u8>) -> bool {
    exists|v: TxV| tx_fits(v) && enc_tx(v) == b
}

/// The transaction a byte string encodes, where it encodes one.
pub open spec fn decoded_tx(b: Seq<u8>) -> TxV {
    choose|v: TxV| tx_fits(v) && enc_tx(v) == b
}

/// The concatenated encodings of a list of transactions.
pub open spec fn enc_tx_list(s: Seq<TxV>) -> Seq<u8>
    decreases s.len(),
{
    if s.len() == 0 {
        Seq::empty()
    } else {
        enc_tx(s[0]) + enc_tx_list(s.skip(1))
    }
}

/// The encoding of a transaction batch: the count, then each record.
pub open spec fn enc_tx_batch(s: Seq<TxV>) -> Seq<u8> {
    u64_le(s.len() as u64) + enc_tx_list(s)
}

#[verifier::rlimit(50)]
pub proof fn lemma_enc_tx_list_push(s: Seq<TxV>, v: TxV)
    ensures
        enc_tx_list(s.push(v)) == enc_tx_list(s) + enc_tx(v),
    decreases s.len(),
{
    if s.len() == 0 {
        assert(s.push(v).len() == 1);
        assert(s.push(v)[0] == v);
        assert(s.push(v).skip(1) =~= Seq::<TxV>::empty());
        assert(enc_tx_list(s.push(v)) == enc_tx(v) + enc_tx_list(Seq::<TxV>::empty()));
        assert(enc_tx_list(s.push(v)) =~= enc_tx_list(s) + enc_tx(v));
    } else {
        assert(s.push(v)[0] == s[0]);
        assert(s.push(v).skip(1) =~= s.skip(1).push(v));
        lemma_enc_tx_list_push(s.skip(1), v);
        assert(enc_tx_list(s.push(v)) == enc_tx(s[0]) + (enc_tx_list(s.skip(1)) + enc_tx(v)));
        assert(enc_tx_list(s.push(v)) =~= enc_tx_list(s) + enc_tx(v));
    }
}

#[verifier::rlimit(50)]
pub proof fn lemma_enc_pairs_push(m: Seq<(Seq<char>, Seq<char>)>, p: (Seq<char>, Seq<char>))
    ensures
        enc_pairs(m.push(p)) == enc_pairs(m) + enc_str(p.0) + enc_str(p.1),
    decreases m.len(),
{
    if m.len() == 0 {
        assert(m.push(p).len() == 1);
        assert(m.push(p)[0] == p);
        assert(m.push(p).skip(1) =~= Seq::<(Seq<char>, Seq<char>)>::empty());
        assert(enc_pairs(m.push(p)) == enc_str(p.0) + enc_str(p.1) + enc_pairs(
            Seq::<(Seq<char>, Seq<char>)>::empty(),
        ));
        assert(enc_pairs(m.push(p)) =~= enc_pairs(m) + enc_str(p.0) + enc_str(p.1));
    } else {
        assert(m.push(p)[0] == m[0]);
        assert(m.push(p).skip(1) =~= m.skip(1).push(p));
        lemma_enc_pairs_push(m.skip(1), p);
        assert(enc_pairs(m.push(p)) == enc_str(m[0].0) + enc_str(m[0].1) + (enc_pairs(m.skip(1))
            + enc_str(p.0) + enc_str(p.1)));
        assert(enc_pairs(m.push(p)) =~= enc_pairs(m) + enc_str(p.0) + enc_str(p.1));
    }
}

pub proof fn lemma_enc_pairs_split(m: Seq<(Seq<char>, Seq<char>)>, k: int)
    requires
        0 <= k <= m.len(),
    ensures
        enc_pairs(m) == enc_pairs(m.take(k)) + enc_pairs(m.skip(k)),
    decreases k,
{
    if k == 0 {
        assert(m.take(0) =~= Seq::<(Seq<char>, Seq<char>)>::empty());
        assert(m.skip(0) =~= m);
        assert(enc_pairs(m) =~= enc_pairs(m.take(0)) + enc_pairs(m.skip(0)));
    } else {
        lemma_enc_pairs_split(m.skip(1), k - 1);
        assert(m.skip(1).take(k - 1) =~= m.take(k).skip(1));
        assert(m.skip(1).skip(k - 1) =~= m.skip(k));
        assert(m.take(k)[0] == m[0]);
        assert(enc_pairs(m) =~= enc_pairs(m.take(k)) + enc_pairs(m.skip(k)));
    }
}

/// UTF-8 encoding is injective.
pub proof fn lemma_utf8_injective(a: Seq<char>, b: Seq<char>)
    requires
        encode_utf8(a) == encode_utf8(b),
    ensures
        a == b,
{
    encode_utf8_decode_utf8(a);
    encode_utf8_decode_utf8(b);
}

/// The timestamp word of a signed timestamp, as executable code.
pub fn ts_to_u64(t: i64) -> (r: u64)
    ensures
        r == ts_repr(t),
{
    if t >= 0 {
        t as u64
    } else {
        ((t as i128) + 0x1_0000_0000_0000_0000i128) as u64
    }
}

/// The signed timestamp a timestamp word stands for.
pub fn u64_to_ts(n: u64) -> (r: i64)
    ensures
        ts_repr(r) == n,
{
    if n <= 0x7fff_ffff_ffff_ffffu64 {
        n as i64
    } else {
        ((n as i128) - 0x1_0000_0000_0000_0000i128) as i64
    }
}

/// The tag byte of a transaction type, as executable code.
pub fn type_tag(t: &TransactionType) -> (r: u8)
    ensures
        r == tag_of(*t),
{
    match t {
        TransactionType::StoreToken => 0,
        TransactionType::UpdateToken => 1,
        TransactionType::DeleteToken => 2,
        TransactionType::StoreCache => 3,
        TransactionType::UpdateCache => 4,
        TransactionType::DeleteCache => 5,
    }
}

/// The transaction type of a tag byte, exactly for the six assigned tags.
pub fn tag_to_type(tag: u8) -> (r: Option<TransactionType>)
    ensures
        match r {
            Some(t) => tag_of(t) == tag,
            None => tag >= 6,
        },
{
    match tag {
        0 => Some(TransactionType::StoreToken),
        1 => Some(TransactionType::UpdateToken),
        2 => Some(TransactionType::DeleteToken),
        3 => Some(TransactionType::StoreCache),
        4 => Some(TransactionType::UpdateCache),
        5 => Some(TransactionType::DeleteCache),
        _ => None,
    }
}

/// The UTF-8 bytes of a string.
fn str_bytes(s: &String) -> (r: &[u8])
    ensures
        r@ == encode_utf8(s@),
        encode_utf8(s@).len() <= usize::MAX,
{
    let t: &str = s;
    let r = t.as_bytes();
    let n = r.len();
    proof {
        assert(r@.len() == n);
    }
    r
}

/// Appends the segment that encodes a string.
fn push_seg_str(out: &mut Vec<u8>, s: &String)
    ensures
        final(out)@ == old(out)@ + enc_str(s@),
        encode_utf8(s@).len() <= usize::MAX,
{
    push_seg(out, str_bytes(s));
}

/// Relies on String::from_utf8: it succeeds exactly on valid UTF-8 and
/// returns the string those bytes encode.
#[verifier::external_body]
fn string_from_utf8(bytes: Vec<u8>) -> (r: Option<String>)
    ensures
        r is Some <==> valid_utf8(bytes@),
        r is Some ==> encode_utf8(r.unwrap()@) == bytes@,
{
    String::from_utf8(bytes).ok()
}

/// Where the components of an encoded transaction stand: the tag byte,
/// the timestamp word, the four segments, the pair count and the pairs.
#[verifier::rlimit(100)]
pub proof fn lemma_enc_tx_parts(v: TxV)
    ensures
        ({
            let b = enc_tx(v);
            let kb = encode_utf8(v.data.key);
            let i2 = 17 + kb.len() as int;
            let i3 = i2 + 8 + v.data.value.len() as int;
            let i4 = i3 + 8 + v.signature.len() as int;
            let i5 = i4 + 8 + v.public_key.len() as int;
            let i6 = i5 + 8;
            &&& b.len() == i6 + enc_pairs(v.data.metadata).len()
            &&& b[0] == tag_of(v.transaction_type)
            &&& b.subrange(1, 9) == u64_le(ts_repr(v.timestamp))
            &&& starts_at(b, 9, seg(kb))
            &&& starts_at(b, i2, seg(v.data.value))
            &&& starts_at(b, i3, seg(v.signature))
            &&& starts_at(b, i4, seg(v.public_key))
            &&& b.subrange(i5, i6) == u64_le(v.data.metadata.len() as u64)
            &&& b.subrange(i6, b.len() as int) == enc_pairs(v.data.metadata)
        }),
{
    let b = enc_tx(v);
    let p0 = seq![tag_of(v.transaction_type)];
    let p1 = u64_le(ts_repr(v.timestamp));
    let kb = encode_utf8(v.data.key);
    let p2 = seg(kb);
    let p3 = seg(v.data.value);
    let p4 = seg(v.signature);
    let p5 = seg(v.public_key);
    let p6 = u64_le(v.data.metadata.len() as u64);
    let p7 = enc_pairs(v.data.metadata);
    let i2 = 17 + kb.len() as int;
    let i3 = i2 + 8 + v.data.value.len() as int;
    let i4 = i3 + 8 + v.signature.len() as int;
    let i5 = i4 + 8 + v.public_key.len() as int;
    let i6 = i5 + 8;
    assert(b == p0 + p1 + p2 + p3 + p4 + p5 + p6 + p7);
    assert(b.subrange(1, 9) =~= p1);
    assert(b =~= (p0 + p1) + p2 + (p3 + p4 + p5 + p6 + p7));
    lemma_starts_at_concat(p0 + p1, p2, p3 + p4 + p5 + p6 + p7);
    assert(b =~= (p0 + p1 + p2) + p3 + (p4 + p5 + p6 + p7));
    lemma_starts_at_concat(p0 + p1 + p2, p3, p4 + p5 + p6 + p7);
    assert(b =~= (p0 + p1 + p2 + p3) + p4 + (p5 + p6 + p7));
    lemma_starts_at_concat(p0 + p1 + p2 + p3, p4, p5 + p6 + p7);
    assert(b =~= (p0 + p1 + p2 + p3 + p4) + p5 + (p6 + p7));
    lemma_starts_at_concat(p0 + p1 + p2 + p3 + p4, p5, p6 + p7);
    assert(b.subrange(i5, i6) =~= p6);
    assert(b.subrange(i6, b.len() as int) =~= p7);
}

/// Two equally long pair lists whose encodings start the same byte
/// string are the same lists with the same remainder.
#[verifier::rlimit(100)]
pub proof fn lemma_enc_pairs_prefix_det(
    m1: Seq<(Seq<char>, Seq<char>)>,
    m2: Seq<(Seq<char>, Seq<char>)>,
    r1: Seq<u8>,
    r2: Seq<u8>,
)
    requires
        m1.len() == m2.len(),
        pairs_fit(m1),
        pairs_fit(m2),
        enc_pairs(m1) + r1 == enc_pairs(m2) + r2,
    ensures
        m1 == m2,
        r1 == r2,
    decreases m1.len(),
{
    if m1.len() == 0 {
        assert(m1 =~= m2);
        assert(r1 =~= enc_pairs(m1) + r1);
        assert(r2 =~= enc_pairs(m2) + r2);
    } else {
        let b = enc_pairs(m1) + r1;
        let a0 = encode_utf8(m1[0].0);
        let a1 = encode_utf8(m1[0].1);
        let c0 = encode_utf8(m2[0].0);
        let c1 = encode_utf8(m2[0].1);
        assert(pair_fits(m1[0]) && pair_fits(m2[0]));
        let t1 = seg(a1) + enc_pairs(m1.skip(1)) + r1;
        let t2 = seg(c1) + enc_pairs(m2.skip(1)) + r2;
        assert(b =~= Seq::<u8>::empty() + seg(a0) + t1);
        lemma_starts_at_concat(Seq::<u8>::empty(), seg(a0), t1);
        assert(b =~= Seq::<u8>::empty() + seg(c0) + t2);
        lemma_starts_at_concat(Seq::<u8>::empty(), seg(c0), t2);
        lemma_seg_deterministic(b, 0, a0, c0);
        lemma_utf8_injective(m1[0].0, m2[0].0);
        let pre = seg(a0);
        assert(b =~= pre + seg(a1) + (enc_pairs(m1.skip(1)) + r1));
        lemma_starts_at_concat(pre, seg(a1), enc_pairs(m1.skip(1)) + r1);
        assert(b =~= pre + seg(c1) + (enc_pairs(m2.skip(1)) + r2));
        lemma_starts_at_concat(pre, seg(c1), enc_pairs(m2.skip(1)) + r2);
        lemma_seg_deterministic(b, pre.len() as int, a1, c1);
        lemma_utf8_injective(m1[0].1, m2[0].1);
        let h = (pre + seg(a1)).len() as int;
        assert(enc_pairs(m1.skip(1)) + r1 =~= b.subrange(h, b.len() as int));
        assert(enc_pairs(m2.skip(1)) + r2 =~= b.subrange(h, b.len() as int));
        assert(pairs_fit(m1.skip(1))) by {
            assert(forall|i: int|
                0 <= i < m1.skip(1).len() ==> #[trigger] m1.skip(1)[i] == m1[i + 1]);
        }
        assert(pairs_fit(m2.skip(1))) by {
            assert(forall|i: int|
                0 <= i < m2.skip(1).len() ==> #[trigger] m2.skip(1)[i] == m2[i + 1]);
        }
        lemma_enc_pairs_prefix_det(m1.skip(1), m2.skip(1), r1, r2);
        assert(m1[0] == m2[0]);
        assert forall|i: int| 0 <= i < m1.len() implies m1[i] == m2[i] by {
            if i > 0 {
                assert(m1.skip(1)[i - 1] == m1[i]);
                assert(m2.skip(1)[i - 1] == m2[i]);
            }
        }
        assert(m1 =~= m2);
    }
}

/// The encoding is injective: a byte string encodes at most one
/// transaction.
#[verifier::rlimit(100)]
pub proof fn lemma_enc_tx_injective(v1: TxV, v2: TxV)
    requires
        tx_fits(v1),
        tx_fits(v2),
        enc_tx(v1) == enc_tx(v2),
    ensures
        v1 == v2,
{
    let b = enc_tx(v1);
    lemma_enc_tx_parts(v1);
    lemma_enc_tx_parts(v2);
    lemma_tag_injective(v1.transaction_type, v2.transaction_type);
    lemma_le_injective(ts_repr(v1.timestamp), ts_repr(v2.timestamp));
    lemma_ts_repr_injective(v1.timestamp, v2.timestamp);
    lemma_seg_deterministic(b, 9, encode_utf8(v1.data.key), encode_utf8(v2.data.key));
    lemma_utf8_injective(v1.data.key, v2.data.key);
    let i2 = 17 + encode_utf8(v1.data.key).len() as int;
    lemma_seg_deterministic(b, i2, v1.data.value, v2.data.value);
    let i3 = i2 + 8 + v1.data.value.len() as int;
    lemma_seg_deterministic(b, i3, v1.signature, v2.signature);
    let i4 = i3 + 8 + v1.signature.len() as int;
    lemma_seg_deterministic(b, i4, v1.public_key, v2.public_key);
    let i5 = i4 + 8 + v1.public_key.len() as int;
    lemma_le_injective(v1.data.metadata.len() as u64, v2.data.metadata.len() as u64);
    assert(v1.data.metadata.len() == v2.data.metadata.len());
    assert(enc_pairs(v1.data.metadata) + Seq::<u8>::empty() == enc_pairs(v2.data.metadata)
        + Seq::<u8>::empty()) by {
        assert(enc_pairs(v1.data.metadata) + Seq::<u8>::empty() =~= b.subrange(
            i5 + 8,
            b.len() as int,
        ));
        assert(enc_pairs(v2.data.metadata) + Seq::<u8>::empty() =~= b.subrange(
            i5 + 8,
            b.len() as int,
        ));
    }
    lemma_enc_pairs_prefix_det(
        v1.data.metadata,
        v2.data.metadata,
        Seq::<u8>::empty(),
        Seq::<u8>::empty(),
    );
    assert(v1.data =~= v2.data);
    assert(v1 =~= v2);
}

/// Serializes a transaction into its canonical binary encoding.
#[verifier::loop_isolation(false)]
pub fn encode_transaction(tx: &Transaction) -> (out: Vec<u8>)
    ensures
        out@ == enc_tx(tx@),
        tx_fits(tx@),
{
    let mut out: Vec<u8> = Vec::new();
    out.push(type_tag(&tx.transaction_type));
    push_u64_le(&mut out, ts_to_u64(tx.timestamp));
    push_seg_str(&mut out, &tx.data.key);
    push_seg(&mut out, tx.data.value.as_slice());
    push_seg(&mut out, tx.signature.as_slice());
    push_seg(&mut out, tx.public_key.as_slice());
    let vlen = tx.data.value.len();
    let slen = tx.signature.len();
    let plen = tx.public_key.len();
    proof {
        assert(tx.data.value@.len() == vlen);
        assert(tx.signature@.len() == slen);
        assert(tx.public_key@.len() == plen);
    }
    push_u64_le(&mut out, tx.data.metadata.len() as u64);
    let ghost hdr = out@;
    let ghost m = meta_view(tx.data.metadata@);
    let mut i: usize = 0;
    while i < tx.data.metadata.len()
        invariant
            i <= m.len(),
            out@ == hdr + enc_pairs(m.take(i as int)),
            pairs_fit(m.take(i as int)),
        decreases m.len() - i,
    {
        push_seg_str(&mut out, &tx.data.metadata[i].0);
        push_seg_str(&mut out, &tx.data.metadata[i].1);
        proof {
            lemma_enc_pairs_push(m.take(i as int), m[i as int]);
            assert(m.take(i + 1) =~= m.take(i as int).push(m[i as int]));
            assert(out@ =~= hdr + enc_pairs(m.take(i + 1)));
            assert(pair_fits(m[i as int]));
            assert(pairs_fit(m.take(i + 1)));
        }
        i = i + 1;
    }
    proof {
        assert(m.take(m.len() as int) =~= m);
        assert(out@ =~= enc_tx(tx@));
        assert(tx_fits(tx@));
    }
    out
}


/// Inside the metadata loop: a transaction encoded by the whole byte
/// string keeps its pair count in the count word, its next pair's two
/// segments at the current position, and, once every pair is read, no
/// further bytes.
#[verifier::rlimit(100)]
proof fn pairs_loop_pin(
    b: Seq<u8>,
    kbv: Seq<u8>,
    vbv: Seq<u8>,
    sbv: Seq<u8>,
    pbv: Seq<u8>,
    cnt: u64,
    k: u64,
    pos: int,
    mv: Seq<(Seq<char>, Seq<char>)>,
)
    requires
        starts_at(b, 9, seg(kbv)),
        seg_fits(kbv),
        starts_at(b, 17 + kbv.len() as int, seg(vbv)),
        seg_fits(vbv),
        starts_at(b, 25 + (kbv.len() + vbv.len()) as int, seg(sbv)),
        seg_fits(sbv),
        starts_at(b, 33 + (kbv.len() + vbv.len() + sbv.len()) as int, seg(pbv)),
        seg_fits(pbv),
        49 + kbv.len() + vbv.len() + sbv.len() + pbv.len() <= b.len(),
        cnt == le_to_u64(
            b.subrange(
                41 + (kbv.len() + vbv.len() + sbv.len() + pbv.len()) as int,
                49 + (kbv.len() + vbv.len() + sbv.len() + pbv.len()) as int,
            ),
        ),
        k <= cnt,
        mv.len() == k,
        pairs_fit(mv),
        49 + kbv.len() + vbv.len() + sbv.len() + pbv.len() <= pos <= b.len(),
        b.subrange(49 + (kbv.len() + vbv.len() + sbv.len() + pbv.len()) as int, pos)
            == enc_pairs(mv),
    ensures
        is_tx_encoding(b) ==> {
            let v = choose|v: TxV| tx_fits(v) && enc_tx(v) == b;
            &&& v.data.metadata.len() == cnt
            &&& k < cnt ==> {
                let p = v.data.metadata[k as int];
                &&& pair_fits(p)
                &&& starts_at(b, pos, seg(encode_utf8(p.0)))
                &&& starts_at(b, pos + 8 + encode_utf8(p.0).len(), seg(encode_utf8(p.1)))
            }
            &&& k == cnt ==> pos == b.len()
        },
{
    if is_tx_encoding(b) {
        let v = choose|v: TxV| tx_fits(v) && enc_tx(v) == b;
        lemma_enc_tx_parts(v);
        lemma_seg_deterministic(b, 9, kbv, encode_utf8(v.data.key));
        let i2 = 17 + kbv.len() as int;
        lemma_seg_deterministic(b, i2, vbv, v.data.value);
        let i3 = i2 + 8 + vbv.len() as int;
        lemma_seg_deterministic(b, i3, sbv, v.signature);
        let i4 = i3 + 8 + sbv.len() as int;
        lemma_seg_deterministic(b, i4, pbv, v.public_key);
        let i5 = i4 + 8 + pbv.len() as int;
        let i6 = i5 + 8;
        lemma_le_round_trip(v.data.metadata.len() as u64);
        assert(v.data.metadata.len() == cnt);
        let m = v.data.metadata;
        lemma_enc_pairs_split(m, k as int);
        assert(pairs_fit(m.take(k as int))) by {
            assert(forall|i: int|
                0 <= i < m.take(k as int).len() ==> #[trigger] m.take(k as int)[i] == m[i]);
        }
        assert(enc_pairs(m.take(k as int)) + enc_pairs(m.skip(k as int)) =~= b.subrange(
            i6,
            b.len() as int,
        ));
        assert(enc_pairs(mv) + b.subrange(pos, b.len() as int) =~= b.subrange(
            i6,
            b.len() as int,
        ));
        lemma_enc_pairs_prefix_det(
            m.take(k as int),
            mv,
            enc_pairs(m.skip(k as int)),
            b.subrange(pos, b.len() as int),
        );
        assert(enc_pairs(m.skip(k as int)) == b.subrange(pos, b.len() as int));
        if k < cnt {
            let p = m.skip(k as int)[0];
            assert(p == m[k as int]);
            assert(pair_fits(p));
            let rest = seg(encode_utf8(p.1)) + enc_pairs(m.skip(k as int).skip(1));
            assert(b =~= b.take(pos) + seg(encode_utf8(p.0)) + rest);
            lemma_starts_at_concat(b.take(pos), seg(encode_utf8(p.0)), rest);
            assert(b =~= (b.take(pos) + seg(encode_utf8(p.0))) + seg(encode_utf8(p.1))
                + enc_pairs(m.skip(k as int).skip(1)));
            lemma_starts_at_concat(
                b.take(pos) + seg(encode_utf8(p.0)),
                seg(encode_utf8(p.1)),
                enc_pairs(m.skip(k as int).skip(1)),
            );
        } else {
            assert(m.skip(k as int) =~= Seq::<(Seq<char>, Seq<char>)>::empty());
            assert(b.subrange(pos, b.len() as int).len() == 0);
        }
    }
}


/// The facts that hold once the fixed header and the four segments have
/// been parsed: each component's segment stands at its offset and the
/// pair count word was read.
pub open spec fn outer_parsed(
    b: Seq<u8>,
    kbv: Seq<u8>,
    vbv: Seq<u8>,
    sbv: Seq<u8>,
    pbv: Seq<u8>,
    cnt: u64,
) -> bool {
    &&& starts_at(b, 9, seg(kbv))
    &&& seg_fits(kbv)
    &&& starts_at(b, 17 + kbv.len() as int, seg(vbv))
    &&& seg_fits(vbv)
    &&& starts_at(b, 25 + (kbv.len() + vbv.len()) as int, seg(sbv))
    &&& seg_fits(sbv)
    &&& starts_at(b, 33 + (kbv.len() + vbv.len() + sbv.len()) as int, seg(pbv))
    &&& seg_fits(pbv)
    &&& 49 + kbv.len() + vbv.len() + sbv.len() + pbv.len() <= b.len()
    &&& cnt == le_to_u64(
        b.subrange(
            41 + (kbv.len() + vbv.len() + sbv.len() + pbv.len()) as int,
            49 + (kbv.len() + vbv.len() + sbv.len() + pbv.len()) as int,
        ),
    )
}

/// The facts that hold after `k` metadata pairs have been parsed up to
/// offset `pos`: the region so far is the encoding of those pairs.
pub open spec fn pairs_parsed(
    b: Seq<u8>,
    kbv: Seq<u8>,
    vbv: Seq<u8>,
    sbv: Seq<u8>,
    pbv: Seq<u8>,
    k: u64,
    pos: int,
    mv: Seq<(Seq<char>, Seq<char>)>,
) -> bool {
    &&& mv.len() == k
    &&& pairs_fit(mv)
    &&& 49 + kbv.len() + vbv.len() + sbv.len() + pbv.len() <= pos <= b.len()
    &&& b.subrange(49 + (kbv.len() + vbv.len() + sbv.len() + pbv.len()) as int, pos) == enc_pairs(
        mv,
    )
}

/// A byte string shorter than the fixed parts of a record encodes
/// nothing.
proof fn lemma_no_tx_short(b: Seq<u8>)
    requires
        b.len() < 49,
    ensures
        !is_tx_encoding(b),
{
    if is_tx_encoding(b) {
        let v = choose|v: TxV| tx_fits(v) && enc_tx(v) == b;
        lemma_enc_tx_parts(v);
    }
}

/// A byte string whose first byte is no assigned tag encodes nothing.
proof fn lemma_no_tx_tag(b: Seq<u8>)
    requires
        b.len() >= 1,
        b[0] >= 6,
    ensures
        !is_tx_encoding(b),
{
    if is_tx_encoding(b) {
        let v = choose|v: TxV| tx_fits(v) && enc_tx(v) == b;
        lemma_enc_tx_parts(v);
        assert(tag_of(v.transaction_type) <= 5);
    }
}

/// Without a segment at the key offset, nothing is encoded.
proof fn lemma_no_tx_at_key(b: Seq<u8>)
    requires
        forall|x: Seq<u8>| seg_fits(x) ==> !starts_at(b, 9, seg(x)),
    ensures
        !is_tx_encoding(b),
{
    if is_tx_encoding(b) {
        let v = choose|v: TxV| tx_fits(v) && enc_tx(v) == b;
        lemma_enc_tx_parts(v);
        assert(seg_fits(encode_utf8(v.data.key)));
        assert(starts_at(b, 9, seg(encode_utf8(v.data.key))));
    }
}

/// With key bytes that are not valid UTF-8, nothing is encoded.
proof fn lemma_no_tx_key_utf8(b: Seq<u8>, kbv: Seq<u8>)
    requires
        starts_at(b, 9, seg(kbv)),
        seg_fits(kbv),
        !valid_utf8(kbv),
    ensures
        !is_tx_encoding(b),
{
    if is_tx_encoding(b) {
        let v = choose|v: TxV| tx_fits(v) && enc_tx(v) == b;
        lemma_enc_tx_parts(v);
        lemma_seg_deterministic(b, 9, kbv, encode_utf8(v.data.key));
        encode_utf8_valid_utf8(v.data.key);
    }
}

/// Without a segment at the value offset, nothing is encoded.
proof fn lemma_no_tx_at_value(b: Seq<u8>, kbv: Seq<u8>)
    requires
        starts_at(b, 9, seg(kbv)),
        seg_fits(kbv),
        forall|x: Seq<u8>| seg_fits(x) ==> !starts_at(b, 17 + kbv.len() as int, seg(x)),
    ensures
        !is_tx_encoding(b),
{
    if is_tx_encoding(b) {
        let v = choose|v: TxV| tx_fits(v) && enc_tx(v) == b;
        lemma_enc_tx_parts(v);
        lemma_seg_deterministic(b, 9, kbv, encode_utf8(v.data.key));
        assert(seg_fits(v.data.value));
        assert(starts_at(b, 17 + kbv.len() as int, seg(v.data.value)));
    }
}

/// Without a segment at the signature offset, nothing is encoded.
proof fn lemma_no_tx_at_sig(b: Seq<u8>, kbv: Seq<u8>, vbv: Seq<u8>)
    requires
        starts_at(b, 9, seg(kbv)),
        seg_fits(kbv),
        starts_at(b, 17 + kbv.len() as int, seg(vbv)),
        seg_fits(vbv),
        forall|x: Seq<u8>|
            seg_fits(x) ==> !starts_at(b, 25 + (kbv.len() + vbv.len()) as int, seg(x)),
    ensures
        !is_tx_encoding(b),
{
    if is_tx_encoding(b) {
        let v = choose|v: TxV| tx_fits(v) && enc_tx(v) == b;
        lemma_enc_tx_parts(v);
        lemma_seg_deterministic(b, 9, kbv, encode_utf8(v.data.key));
        lemma_seg_deterministic(b, 17 + kbv.len() as int, vbv, v.data.value);
        assert(seg_fits(v.signature));
        assert(starts_at(b, 25 + (kbv.len() + vbv.len()) as int, seg(v.signature)));
    }
}

/// Without a segment at the public-key offset, nothing is encoded.
proof fn lemma_no_tx_at_pk(b: Seq<u8>, kbv: Seq<u8>, vbv: Seq<u8>, sbv: Seq<u8>)
    requires
        starts_at(b, 9, seg(kbv)),
        seg_fits(kbv),
        starts_at(b, 17 + kbv.len() as int, seg(vbv)),
        seg_fits(vbv),
        starts_at(b, 25 + (kbv.len() + vbv.len()) as int, seg(sbv)),
        seg_fits(sbv),
        forall|x: Seq<u8>|
            seg_fits(x) ==> !starts_at(b, 33 + (kbv.len() + vbv.len() + sbv.len()) as int, seg(x)),
    ensures
        !is_tx_encoding(b),
{
    if is_tx_encoding(b) {
        let v = choose|v: TxV| tx_fits(v) && enc_tx(v) == b;
        lemma_enc_tx_parts(v);
        lemma_seg_deterministic(b, 9, kbv, encode_utf8(v.data.key));
        lemma_seg_deterministic(b, 17 + kbv.len() as int, vbv, v.data.value);
        lemma_seg_deterministic(b, 25 + (kbv.len() + vbv.len()) as int, sbv, v.signature);
        assert(seg_fits(v.public_key));
        assert(starts_at(
            b,
            33 + (kbv.len() + vbv.len() + sbv.len()) as int,
            seg(v.public_key),
        ));
    }
}

/// Without room for the pair count word, nothing is encoded.
proof fn lemma_no_tx_at_cnt(b: Seq<u8>, kbv: Seq<u8>, vbv: Seq<u8>, sbv: Seq<u8>, pbv: Seq<u8>)
    requires
        starts_at(b, 9, seg(kbv)),
        seg_fits(kbv),
        starts_at(b, 17 + kbv.len() as int, seg(vbv)),
        seg_fits(vbv),
        starts_at(b, 25 + (kbv.len() + vbv.len()) as int, seg(sbv)),
        seg_fits(sbv),
        starts_at(b, 33 + (kbv.len() + vbv.len() + sbv.len()) as int, seg(pbv)),
        seg_fits(pbv),
        b.len() < 49 + kbv.len() + vbv.len() + sbv.len() + pbv.len(),
    ensures
        !is_tx_encoding(b),
{
    if is_tx_encoding(b) {
        let v = choose|v: TxV| tx_fits(v) && enc_tx(v) == b;
        lemma_enc_tx_parts(v);
        lemma_seg_deterministic(b, 9, kbv, encode_utf8(v.data.key));
        lemma_seg_deterministic(b, 17 + kbv.len() as int, vbv, v.data.value);
        lemma_seg_deterministic(b, 25 + (kbv.len() + vbv.len()) as int, sbv, v.signature);
        lemma_seg_deterministic(
            b,
            33 + (kbv.len() + vbv.len() + sbv.len()) as int,
            pbv,
            v.public_key,
        );
    }
}

/// Without a segment at the next pair's key offset, nothing is encoded.
proof fn lemma_no_tx_pair_key(
    b: Seq<u8>,
    kbv: Seq<u8>,
    vbv: Seq<u8>,
    sbv: Seq<u8>,
    pbv: Seq<u8>,
    cnt: u64,
    k: u64,
    pos: int,
    mv: Seq<(Seq<char>, Seq<char>)>,
)
    requires
        outer_parsed(b, kbv, vbv, sbv, pbv, cnt),
        pairs_parsed(b, kbv, vbv, sbv, pbv, k, pos, mv),
        k < cnt,
        forall|x: Seq<u8>| seg_fits(x) ==> !starts_at(b, pos, seg(x)),
    ensures
        !is_tx_encoding(b),
{
    pairs_loop_pin(b, kbv, vbv, sbv, pbv, cnt, k, pos, mv);
    if is_tx_encoding(b) {
        let v = choose|v: TxV| tx_fits(v) && enc_tx(v) == b;
        let p = v.data.metadata[k as int];
        assert(seg_fits(encode_utf8(p.0)));
        assert(starts_at(b, pos, seg(encode_utf8(p.0))));
    }
}

/// With pair-key bytes that are not valid UTF-8, nothing is encoded.
proof fn lemma_no_tx_pair_key_utf8(
    b: Seq<u8>,
    kbv: Seq<u8>,
    vbv: Seq<u8>,
    sbv: Seq<u8>,
    pbv: Seq<u8>,
    cnt: u64,
    k: u64,
    pos: int,
    mv: Seq<(Seq<char>, Seq<char>)>,
    kb1v: Seq<u8>,
)
    requires
        outer_parsed(b, kbv, vbv, sbv, pbv, cnt),
        pairs_parsed(b, kbv, vbv, sbv, pbv, k, pos, mv),
        k < cnt,
        starts_at(b, pos, seg(kb1v)),
        seg_fits(kb1v),
        !valid_utf8(kb1v),
    ensures
        !is_tx_encoding(b),
{
    pairs_loop_pin(b, kbv, vbv, sbv, pbv, cnt, k, pos, mv);
    if is_tx_encoding(b) {
        let v = choose|v: TxV| tx_fits(v) && enc_tx(v) == b;
        let p = v.data.metadata[k as int];
        lemma_seg_deterministic(b, pos, kb1v, encode_utf8(p.0));
        encode_utf8_valid_utf8(p.0);
    }
}

/// Without a segment at the next pair's value offset, nothing is
/// encoded.
proof fn lemma_no_tx_pair_value(
    b: Seq<u8>,
    kbv: Seq<u8>,
    vbv: Seq<u8>,
    sbv: Seq<u8>,
    pbv: Seq<u8>,
    cnt: u64,
    k: u64,
    pos: int,
    mv: Seq<(Seq<char>, Seq<char>)>,
    kb1v: Seq<u8>,
)
    requires
        outer_parsed(b, kbv, vbv, sbv, pbv, cnt),
        pairs_parsed(b, kbv, vbv, sbv, pbv, k, pos, mv),
        k < cnt,
        starts_at(b, pos, seg(kb1v)),
        seg_fits(kb1v),
        forall|x: Seq<u8>|
            seg_fits(x) ==> !starts_at(b, pos + 8 + kb1v.len() as int, seg(x)),
    ensures
        !is_tx_encoding(b),
{
    pairs_loop_pin(b, kbv, vbv, sbv, pbv, cnt, k, pos, mv);
    if is_tx_encoding(b) {
        let v = choose|v: TxV| tx_fits(v) && enc_tx(v) == b;
        let p = v.data.metadata[k as int];
        lemma_seg_deterministic(b, pos, kb1v, encode_utf8(p.0));
        assert(seg_fits(encode_utf8(p.1)));
        assert(starts_at(b, pos + 8 + kb1v.len() as int, seg(encode_utf8(p.1))));
    }
}

/// With pair-value bytes that are not valid UTF-8, nothing is encoded.
proof fn lemma_no_tx_pair_value_utf8(
    b: Seq<u8>,
    kbv: Seq<u8>,
    vbv: Seq<u8>,
    sbv: Seq<u8>,
    pbv: Seq<u8>,
    cnt: u64,
    k: u64,
    pos: int,
    mv: Seq<(Seq<char>, Seq<char>)>,
    kb1v: Seq<u8>,
    vb1v: Seq<u8>,
)
    requires
        outer_parsed(b, kbv, vbv, sbv, pbv, cnt),
        pairs_parsed(b, kbv, vbv, sbv, pbv, k, pos, mv),
        k < cnt,
        starts_at(b, pos, seg(kb1v)),
        seg_fits(kb1v),
        starts_at(b, pos + 8 + kb1v.len() as int, seg(vb1v)),
        seg_fits(vb1v),
        !valid_utf8(vb1v),
    ensures
        !is_tx_encoding(b),
{
    pairs_loop_pin(b, kbv, vbv, sbv, pbv, cnt, k, pos, mv);
    if is_tx_encoding(b) {
        let v = choose|v: TxV| tx_fits(v) && enc_tx(v) == b;
        let p = v.data.metadata[k as int];
        lemma_seg_deterministic(b, pos, kb1v, encode_utf8(p.0));
        assert(starts_at(b, pos + 8 + kb1v.len() as int, seg(encode_utf8(p.1))));
        lemma_seg_deterministic(b, pos + 8 + kb1v.len() as int, vb1v, encode_utf8(p.1));
        encode_utf8_valid_utf8(p.1);
    }
}

/// With bytes left over after the last pair, nothing is encoded.
proof fn lemma_no_tx_trailing(
    b: Seq<u8>,
    kbv: Seq<u8>,
    vbv: Seq<u8>,
    sbv: Seq<u8>,
    pbv: Seq<u8>,
    cnt: u64,
    pos: int,
    mv: Seq<(Seq<char>, Seq<char>)>,
)
    requires
        outer_parsed(b, kbv, vbv, sbv, pbv, cnt),
        pairs_parsed(b, kbv, vbv, sbv, pbv, cnt, pos, mv),
        pos != b.len(),
    ensures
        !is_tx_encoding(b),
{
    pairs_loop_pin(b, kbv, vbv, sbv, pbv, cnt, cnt, pos, mv);
}

/// A byte string that carries every component of a record at its place
/// is that record's encoding.
#[verifier::rlimit(100)]
proof fn lemma_assemble(b: Seq<u8>, tx: TxV)
    requires
        b.subrange(0, 1) == seq![tag_of(tx.transaction_type)],
        b.subrange(1, 9) == u64_le(ts_repr(tx.timestamp)),
        starts_at(b, 9, seg(encode_utf8(tx.data.key))),
        starts_at(b, 17 + encode_utf8(tx.data.key).len() as int, seg(tx.data.value)),
        starts_at(
            b,
            25 + (encode_utf8(tx.data.key).len() + tx.data.value.len()) as int,
            seg(tx.signature),
        ),
        starts_at(
            b,
            33 + (encode_utf8(tx.data.key).len() + tx.data.value.len()
                + tx.signature.len()) as int,
            seg(tx.public_key),
        ),
        b.subrange(
            41 + (encode_utf8(tx.data.key).len() + tx.data.value.len() + tx.signature.len()
                + tx.public_key.len()) as int,
            49 + (encode_utf8(tx.data.key).len() + tx.data.value.len() + tx.signature.len()
                + tx.public_key.len()) as int,
        ) == u64_le(tx.data.metadata.len() as u64),
        b.subrange(
            49 + (encode_utf8(tx.data.key).len() + tx.data.value.len() + tx.signature.len()
                + tx.public_key.len()) as int,
            b.len() as int,
        ) == enc_pairs(tx.data.metadata),
        b.len() >= 49 + encode_utf8(tx.data.key).len() + tx.data.value.len() + tx.signature.len()
            + tx.public_key.len(),
    ensures
        enc_tx(tx) == b,
{
    let kb = encode_utf8(tx.data.key);
    let i2 = 17 + kb.len() as int;
    let i3 = i2 + 8 + tx.data.value.len() as int;
    let i4 = i3 + 8 + tx.signature.len() as int;
    let i5 = i4 + 8 + tx.public_key.len() as int;
    let i6 = i5 + 8;
    assert(b.subrange(9, i2) == seg(kb));
    assert(b.subrange(i2, i3) == seg(tx.data.value));
    assert(b.subrange(i3, i4) == seg(tx.signature));
    assert(b.subrange(i4, i5) == seg(tx.public_key));
    assert(b =~= b.subrange(0, 1) + b.subrange(1, 9) + b.subrange(9, i2) + b.subrange(i2, i3)
        + b.subrange(i3, i4) + b.subrange(i4, i5) + b.subrange(i5, i6) + b.subrange(
        i6,
        b.len() as int,
    ));
    assert(enc_tx(tx) == b);
}

/// Round trip: a transaction's canonical encoding decodes back to
/// exactly that transaction, in every process and on every run.
pub proof fn lemma_tx_round_trip(v: TxV)
    requires
        tx_fits(v),
    ensures
        is_tx_encoding(enc_tx(v)),
        decoded_tx(enc_tx(v)) == v,
{
    assert(tx_fits(v) && enc_tx(v) == enc_tx(v));
    assert(is_tx_encoding(enc_tx(v)));
    lemma_enc_tx_injective(decoded_tx(enc_tx(v)), v);
}

/// The encoding of the empty batch is the zero count word alone, the
/// same on every run.
pub proof fn lemma_empty_batch()
    ensures
        enc_tx_batch(Seq::<TxV>::empty()) == u64_le(0),
{
    assert(enc_tx_batch(Seq::<TxV>::empty()) =~= u64_le(0));
}

/// Parses a byte string as a transaction. Decoding accepts exactly the
/// canonical encodings: it returns the one transaction the bytes encode,
/// and rejects every other byte string.
#[verifier::loop_isolation(false)]
#[verifier::rlimit(100)]
pub fn decode_transaction(b: &Vec<u8>) -> (r: Option<Transaction>)
    ensures
        match r {
            Some(tx) => {
                &&& is_tx_encoding(b@)
                &&& tx_fits(tx@)
                &&& enc_tx(tx@) == b@
                &&& tx@ == decoded_tx(b@)
            },
            None => !is_tx_encoding(b@),
        },
{
    let n = b.len();
    if n < 49 {
        proof {
            lemma_no_tx_short(b@);
        }
        return None;
    }
    let tag = b[0];
    let tt = match tag_to_type(tag) {
        Some(t) => t,
        None => {
            proof {
                lemma_no_tx_tag(b@);
            }
            return None;
        },
    };
    let tsu = read_u64_at(b, 1);
    let ts = u64_to_ts(tsu);
    let (kb, i2) = match read_seg(b, 9) {
        Some(p) => p,
        None => {
            proof {
                lemma_no_tx_at_key(b@);
            }
            return None;
        },
    };
    let ghost kbv = kb@;
    let key = match string_from_utf8(kb) {
        Some(s) => s,
        None => {
            proof {
                lemma_no_tx_key_utf8(b@, kbv);
            }
            return None;
        },
    };
    let (value, i3) = match read_seg(b, i2) {
        Some(p) => p,
        None => {
            proof {
                lemma_no_tx_at_value(b@, kbv);
            }
            return None;
        },
    };
    let (sig, i4) = match read_seg(b, i3) {
        Some(p) => p,
        None => {
            proof {
                lemma_no_tx_at_sig(b@, kbv, value@);
            }
            return None;
        },
    };
    let (pk, i5) = match read_seg(b, i4) {
        Some(p) => p,
        None => {
            proof {
                lemma_no_tx_at_pk(b@, kbv, value@, sig@);
            }
            return None;
        },
    };
    if n - i5 < 8 {
        proof {
            lemma_no_tx_at_cnt(b@, kbv, value@, sig@, pk@);
        }
        return None;
    }
    let cnt = read_u64_at(b, i5);
    let i6 = i5 + 8;
    proof {
        assert(outer_parsed(b@, kbv, value@, sig@, pk@, cnt));
    }
    let mut meta: Vec<(String, String)> = Vec::new();
    let mut pos: usize = i6;
    let mut k: u64 = 0;
    proof {
        assert(meta_view(meta@) =~= Seq::<(Seq<char>, Seq<char>)>::empty());
        assert(b@.subrange(i6 as int, i6 as int) =~= enc_pairs(meta_view(meta@)));
    }
    while k < cnt
        invariant
            k <= cnt,
            i6 <= pos <= n,
            pairs_parsed(b@, kbv, value@, sig@, pk@, k, pos as int, meta_view(meta@)),
        decreases cnt - k,
    {
        let ghost mv = meta_view(meta@);
        let (kb1, q1) = match read_seg(b, pos) {
            Some(p) => p,
            None => {
                proof {
                    lemma_no_tx_pair_key(b@, kbv, value@, sig@, pk@, cnt, k, pos as int, mv);
                }
                return None;
            },
        };
        let ghost kb1v = kb1@;
        let ks = match string_from_utf8(kb1) {
            Some(s) => s,
            None => {
                proof {
                    lemma_no_tx_pair_key_utf8(
                        b@,
                        kbv,
                        value@,
                        sig@,
                        pk@,
                        cnt,
                        k,
                        pos as int,
                        mv,
                        kb1v,
                    );
                }
                return None;
            },
        };
        let (vb1, q2) = match read_seg(b, q1) {
            Some(p) => p,
            None => {
                proof {
                    lemma_no_tx_pair_value(
                        b@,
                        kbv,
                        value@,
                        sig@,
                        pk@,
                        cnt,
                        k,
                        pos as int,
                        mv,
                        kb1v,
                    );
                }
                return None;
            },
        };
        let ghost vb1v = vb1@;
        let vs = match string_from_utf8(vb1) {
            Some(s) => s,
            None => {
                proof {
                    lemma_no_tx_pair_value_utf8(
                        b@,
                        kbv,
                        value@,
                        sig@,
                        pk@,
                        cnt,
                        k,
                        pos as int,
                        mv,
                        kb1v,
                        vb1v,
                    );
                }
                return None;
            },
        };
        meta.push((ks, vs));
        proof {
            lemma_enc_pairs_push(mv, (ks@, vs@));
            assert(meta_view(meta@) =~= mv.push((ks@, vs@)));
            assert(b@.subrange(i6 as int, q2 as int) =~= b@.subrange(i6 as int, pos as int)
                + b@.subrange(pos as int, q1 as int) + b@.subrange(q1 as int, q2 as int));
            assert(b@.subrange(pos as int, q1 as int) == seg(kb1v));
            assert(b@.subrange(q1 as int, q2 as int) == seg(vb1v));
            assert(b@.subrange(i6 as int, q2 as int) == enc_pairs(meta_view(meta@)));
            assert(pairs_fit(meta_view(meta@))) by {
                assert(forall|i: int|
                    0 <= i < mv.len() ==> #[trigger] meta_view(meta@)[i] == mv[i]);
                assert(meta_view(meta@)[mv.len() as int] == (ks@, vs@));
            }
        }
        pos = q2;
        k = k + 1;
    }
    if pos != n {
        proof {
            lemma_no_tx_trailing(b@, kbv, value@, sig@, pk@, cnt, pos as int, meta_view(meta@));
        }
        return None;
    }
    let tx = Transaction {
        transaction_type: tt,
        data: TransactionData { key, value, metadata: meta },
        timestamp: ts,
        signature: sig,
        public_key: pk,
    };
    proof {
        lemma_le_inverse(b@.subrange(1, 9));
        lemma_le_inverse(b@.subrange(i5 as int, i6 as int));
        assert(b@.subrange(0, 1) =~= seq![tag_of(tt)]);
        assert(meta_view(meta@).len() == cnt);
        assert(tx.data.metadata@.len() == cnt);
        assert(b@.subrange(i5 as int, i6 as int) == u64_le(tx@.data.metadata.len() as u64));
        lemma_assemble(b@, tx@);
        assert(tx_fits(tx@));
        assert(is_tx_encoding(b@));
        let w = decoded_tx(b@);
        assert(tx_fits(w) && enc_tx(w) == b@);
        lemma_enc_tx_injective(w, tx@);
    }
    Some(tx)
}


} // verus!
