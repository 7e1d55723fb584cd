//! Byte-level helpers shared by the record codec and the ledger:
//! little-endian integers, length-prefixed segments, decimal digits,
//! and prefix tests on byte strings.
use vstd::prelude::*;

verus! {

/// The eight little-endian bytes of a 64-bit integer.
pub open spec fn u64_le(n: u64) -> Seq<u8> {
    seq![
        (n & 0xff) as u8,
        ((n >> 8) & 0xff) as u8,
        ((n >> 16) & 0xff) as u8,
        ((n >> 24) & 0xff) as u8,
        ((n >> 32) & 0xff) as u8,
        ((n >> 40) & 0xff) as u8,
        ((n >> 48) & 0xff) as u8,
        ((n >> 56) & 0xff) as u8,
    ]
}

/// The 64-bit integer read back from eight little-endian bytes.
pub open spec fn le_to_u64(s: Seq<u8>) -> u64
    recommends
        s.len() == 8,
{
    (s[0] as u64) | ((s[1] as u64) << 8) | ((s[2] as u64) << 16) | ((s[3] as u64) << 24) | ((s[4]
        as u64) << 32) | ((s[5] as u64) << 40) | ((s[6] as u64) << 48) | ((s[7] as u64) << 56)
}

pub proof fn lemma_le_round_trip(n: u64)
    ensures
        le_to_u64(u64_le(n)) == n,
{
    let s = u64_le(n);
    assert(((n & 0xff) as u8 as u64) | ((((n >> 8) & 0xff) as u8 as u64) << 8) | ((((n >> 16)
        & 0xff) as u8 as u64) << 16) | ((((n >> 24) & 0xff) as u8 as u64) << 24) | ((((n >> 32)
        & 0xff) as u8 as u64) << 32) | ((((n >> 40) & 0xff) as u8 as u64) << 40) | ((((n >> 48)
        & 0xff) as u8 as u64) << 48) | ((((n >> 56) & 0xff) as u8 as u64) << 56) == n)
        by (bit_vector);
}

pub proof fn lemma_le_inverse(s: Seq<u8>)
    requires
        s.len() == 8,
    ensures
        u64_le(le_to_u64(s)) == s,
{
    let b0 = s[0];
    let b1 = s[1];
    let b2 = s[2];
    let b3 = s[3];
    let b4 = s[4];
    let b5 = s[5];
    let b6 = s[6];
    let b7 = s[7];
    let n = le_to_u64(s);
    assert(n == (b0 as u64) | ((b1 as u64) << 8) | ((b2 as u64) << 16) | ((b3 as u64) << 24) | ((b4
        as u64) << 32) | ((b5 as u64) << 40) | ((b6 as u64) << 48) | ((b7 as u64) << 56));
    assert({
        let m = (b0 as u64) | ((b1 as u64) << 8) | ((b2 as u64) << 16) | ((b3 as u64) << 24) | ((b4
            as u64) << 32) | ((b5 as u64) << 40) | ((b6 as u64) << 48) | ((b7 as u64) << 56);
        (m & 0xff) as u8 == b0 && ((m >> 8) & 0xff) as u8 == b1 && ((m >> 16) & 0xff) as u8 == b2
            && ((m >> 24) & 0xff) as u8 == b3 && ((m >> 32) & 0xff) as u8 == b4 && ((m >> 40)
            & 0xff) as u8 == b5 && ((m >> 48) & 0xff) as u8 == b6 && ((m >> 56) & 0xff) as u8 == b7
    }) by (bit_vector);
    assert(u64_le(n) =~= s);
}

pub proof fn lemma_le_injective(a: u64, b: u64)
    requires
        u64_le(a) == u64_le(b),
    ensures
        a == b,
{
    lemma_le_round_trip(a);
    lemma_le_round_trip(b);
}

/// A length-prefixed segment: eight little-endian length bytes, then the bytes.
pub open spec fn seg(b: Seq<u8>) -> Seq<u8> {
    u64_le(b.len() as u64) + b
}

/// Whether a byte string's length fits the segment length prefix.
pub open spec fn seg_fits(b: Seq<u8>) -> bool {
    b.len() <= u64::MAX
}

/// `s` occurs in `b` at offset `i`.
pub open spec fn starts_at(b: Seq<u8>, i: int, s: Seq<u8>) -> bool {
    0 <= i && i + s.len() <= b.len() && b.subrange(i, i + s.len()) == s
}

pub proof fn lemma_starts_at_concat(pre: Seq<u8>, s: Seq<u8>, post: Seq<u8>)
    ensures
        starts_at(pre + s + post, pre.len() as int, s),
{
    let b = pre + s + post;
    assert(b.subrange(pre.len() as int, pre.len() + s.len() as int) =~= s);
}

/// Two segments at the same offset hold the same bytes.
pub proof fn lemma_seg_deterministic(b: Seq<u8>, i: int, x: Seq<u8>, y: Seq<u8>)
    requires
        starts_at(b, i, seg(x)),
        starts_at(b, i, seg(y)),
        seg_fits(x),
        seg_fits(y),
    ensures
        x == y,
{
    assert(b.subrange(i, i + 8) =~= seg(x).subrange(0, 8));
    assert(seg(x).subrange(0, 8) =~= u64_le(x.len() as u64));
    assert(b.subrange(i, i + 8) =~= seg(y).subrange(0, 8));
    assert(seg(y).subrange(0, 8) =~= u64_le(y.len() as u64));
    lemma_le_injective(x.len() as u64, y.len() as u64);
    assert(x.len() == y.len());
    assert(x =~= b.subrange(i + 8, i + 8 + x.len())) by {
        assert(seg(x).subrange(8, seg(x).len() as int) =~= x);
        assert(b.subrange(i + 8, i + 8 + x.len()) =~= seg(x).subrange(8, seg(x).len() as int));
    }
    assert(y =~= b.subrange(i + 8, i + 8 + y.len())) by {
        assert(seg(y).subrange(8, seg(y).len() as int) =~= y);
        assert(b.subrange(i + 8, i + 8 + y.len()) =~= seg(y).subrange(8, seg(y).len() as int));
    }
}

/// Reads the eight little-endian bytes at offset `i`.
pub fn read_u64_at(b: &Vec<u8>, i: usize) -> (n: u64)
    requires
        i + 8 <= b@.len(),
    ensures
        n == le_to_u64(b@.subrange(i as int, i as int + 8)),
{
    proof {
        assert(b.len() == b@.len());
    }
    let n = (b[i] as u64) | ((b[i + 1] as u64) << 8) | ((b[i + 2] as u64) << 16) | ((b[i + 3]
        as u64) << 24) | ((b[i + 4] as u64) << 32) | ((b[i + 5] as u64) << 40) | ((b[i + 6]
        as u64) << 48) | ((b[i + 7] as u64) << 56);
    proof {
        let s = b@.subrange(i as int, i as int + 8);
        assert(s[0] == b@[i as int] && s[1] == b@[i + 1] && s[2] == b@[i + 2] && s[3] == b@[i + 3]
            && s[4] == b@[i + 4] && s[5] == b@[i + 5] && s[6] == b@[i + 6] && s[7] == b@[i + 7]);
    }
    n
}

/// Reads the length-prefixed segment at offset `i`, or reports that none
/// is there.
#[verifier::loop_isolation(false)]
pub fn read_seg(b: &Vec<u8>, i: usize) -> (r: Option<(Vec<u8>, usize)>)
    requires
        i <= b@.len(),
    ensures
        match r {
            Some(p) => {
                &&& i + 8 + p.0@.len() == p.1
                &&& p.1 <= b@.len()
                &&& starts_at(b@, i as int, seg(p.0@))
            },
            None => forall|x: Seq<u8>| seg_fits(x) ==> !starts_at(b@, i as int, seg(x)),
        },
{
    if b.len() - i < 8 {
        proof {
            assert forall|x: Seq<u8>| seg_fits(x) implies !starts_at(b@, i as int, seg(x)) by {
                assert(seg(x).len() >= 8);
            }
        }
        return None;
    }
    let n = read_u64_at(b, i);
    let rem = b.len() - (i + 8);
    if n > rem as u64 {
        proof {
            assert forall|x: Seq<u8>| seg_fits(x) implies !starts_at(b@, i as int, seg(x)) by {
                if starts_at(b@, i as int, seg(x)) {
                    assert(b@.subrange(i as int, i as int + 8) =~= seg(x).subrange(0, 8));
                    assert(seg(x).subrange(0, 8) =~= u64_le(x.len() as u64));
                    lemma_le_inverse(b@.subrange(i as int, i as int + 8));
                    lemma_le_injective(n, x.len() as u64);
                    assert(x.len() > rem);
                    assert(i + seg(x).len() > b@.len());
                }
            }
        }
        return None;
    }
    let len = n as usize;
    let mut x: Vec<u8> = Vec::new();
    let mut j: usize = 0;
    while j < len
        invariant
            j <= len,
            x@ =~= b@.subrange(i + 8, i + 8 + j),
        decreases len - j,
    {
        x.push(b[i + 8 + j]);
        j = j + 1;
        proof {
            assert(x@ =~= b@.subrange(i + 8, i + 8 + j));
        }
    }
    proof {
        lemma_le_inverse(b@.subrange(i as int, i as int + 8));
        assert(u64_le(x@.len() as u64) == b@.subrange(i as int, i as int + 8));
        assert(b@.subrange(i as int, i + 8 + x@.len()) =~= seg(x@));
    }
    Some((x, i + 8 + len))
}

/// Appends the little-endian bytes of `n`.
pub fn push_u64_le(out: &mut Vec<u8>, n: u64)
    ensures
        final(out)@ == old(out)@ + u64_le(n),
{
    out.push((n & 0xff) as u8);
    out.push(((n >> 8) & 0xff) as u8);
    out.push(((n >> 16) & 0xff) as u8);
    out.push(((n >> 24) & 0xff) as u8);
    out.push(((n >> 32) & 0xff) as u8);
    out.push(((n >> 40) & 0xff) as u8);
    out.push(((n >> 48) & 0xff) as u8);
    out.push(((n >> 56) & 0xff) as u8);
    proof {
        assert(out@ =~= old(out)@ + u64_le(n));
    }
}

/// Appends the bytes of `s`.
#[verifier::loop_isolation(false)]
pub fn push_bytes(out: &mut Vec<u8>, s: &[u8])
    ensures
        final(out)@ == old(out)@ + s@,
{
    let mut j: usize = 0;
    while j < s.len()
        invariant
            j <= s@.len(),
            out@ =~= old(out)@ + s@.subrange(0, j as int),
        decreases s@.len() - j,
    {
        out.push(s[j]);
        j = j + 1;
        proof {
            assert(out@ =~= old(out)@ + s@.subrange(0, j as int));
        }
    }
    proof {
        assert(s@.subrange(0, s@.len() as int) =~= s@);
    }
}

/// Appends the length-prefixed segment that holds the bytes of `s`.
pub fn push_seg(out: &mut Vec<u8>, s: &[u8])
    ensures
        final(out)@ == old(out)@ + seg(s@),
{
    push_u64_le(out, s.len() as u64);
    push_bytes(out, s);
    proof {
        assert(out@ =~= old(out)@ + seg(s@));
    }
}

/// Whether `prefix` is a prefix of `v`.
#[verifier::loop_isolation(false)]
pub fn bytes_starts_with(v: &Vec<u8>, prefix: &Vec<u8>) -> (r: bool)
    ensures
        r == prefix@.is_prefix_of(v@),
{
    if prefix.len() > v.len() {
        return false;
    }
    let mut j: usize = 0;
    while j < prefix.len()
        invariant
            j <= prefix@.len(),
            prefix@.len() <= v@.len(),
            forall|k: int| 0 <= k < j ==> prefix@[k] == v@[k],
        decreases prefix@.len() - j,
    {
        if prefix[j] != v[j] {
            proof {
                assert(!prefix@.is_prefix_of(v@)) by {
                    assert(v@.subrange(0, prefix@.len() as int)[j as int] == v@[j as int]);
                }
            }
            return false;
        }
        j = j + 1;
    }
    proof {
        assert(prefix@ =~= v@.subrange(0, prefix@.len() as int));
    }
    true
}

/// Whether two byte strings are equal.
#[verifier::loop_isolation(false)]
pub fn bytes_eq(a: &Vec<u8>, b: &Vec<u8>) -> (r: bool)
    ensures
        r == (a@ == b@),
{
    if a.len() != b.len() {
        proof {
            assert(a@.len() != b@.len());
        }
        return false;
    }
    let mut j: usize = 0;
    while j < a.len()
        invariant
            j <= a@.len(),
            a@.len() == b@.len(),
            forall|k: int| 0 <= k < j ==> a@[k] == b@[k],
        decreases a@.len() - j,
    {
        if a[j] != b[j] {
            return false;
        }
        j = j + 1;
    }
    proof {
        assert(a@ =~= b@);
    }
    true
}

/// Bytewise lexicographic strict order on byte strings: the order in
/// which a persistent store lays out its composite keys.
pub open spec fn lex_lt(a: Seq<u8>, b: Seq<u8>) -> bool
    decreases a.len(),
{
    if b.len() == 0 {
        false
    } else if a.len() == 0 {
        true
    } else if a[0] < b[0] {
        true
    } else if a[0] > b[0] {
        false
    } else {
        lex_lt(a.skip(1), b.skip(1))
    }
}

/// Whether `a` comes strictly before `b` in bytewise lexicographic
/// order.
#[verifier::loop_isolation(false)]
pub fn bytes_lex_lt(a: &Vec<u8>, b: &Vec<u8>) -> (r: bool)
    ensures
        r == lex_lt(a@, b@),
{
    let mut i: usize = 0;
    proof {
        assert(a@.skip(0) =~= a@);
        assert(b@.skip(0) =~= b@);
    }
    loop
        invariant
            i <= a@.len(),
            i <= b@.len(),
            lex_lt(a@, b@) == lex_lt(a@.skip(i as int), b@.skip(i as int)),
        decreases a@.len() - i,
    {
        if i == b.len() {
            return false;
        }
        if i == a.len() {
            proof {
                assert(b@.skip(i as int).len() > 0);
            }
            return true;
        }
        proof {
            assert(a@.skip(i as int)[0] == a@[i as int]);
            assert(b@.skip(i as int)[0] == b@[i as int]);
        }
        if a[i] < b[i] {
            return true;
        }
        if a[i] > b[i] {
            return false;
        }
        proof {
            assert(a@.skip(i as int).skip(1) =~= a@.skip(i + 1));
            assert(b@.skip(i as int).skip(1) =~= b@.skip(i + 1));
        }
        i = i + 1;
    }
}

/// The decimal digits of `n`, most significant first.
pub open spec fn dec_u64(n: u64) -> Seq<u8>
    decreases n,
{
    if n < 10 {
        seq![(48 + n) as u8]
    } else {
        dec_u64(n / 10) + seq![(48 + n % 10) as u8]
    }
}

/// Appends the decimal digits of `n`.
pub fn push_dec_u64(out: &mut Vec<u8>, n: u64)
    ensures
        final(out)@ == old(out)@ + dec_u64(n),
    decreases n,
{
    if n < 10 {
        out.push(48 + n as u8);
        proof {
            assert(out@ =~= old(out)@ + dec_u64(n));
        }
    } else {
        push_dec_u64(out, n / 10);
        out.push(48 + (n % 10) as u8);
        proof {
            assert(out@ =~= old(out)@ + dec_u64(n));
        }
    }
}

} // verus!
