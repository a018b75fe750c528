use vstd::prelude::*;

verus! {

// ---------------------------------------------------------------------------
// The URL-safe base64 alphabet (RFC 4648 section 5), without padding.
// ---------------------------------------------------------------------------

/// Byte of the alphabet character at index `i` (valid for `0 <= i < 64`):
/// `A`..`Z`, `a`..`z`, `0`..`9`, `-`, `_`.
pub open spec fn b64_char(i: int) -> u8 {
    if i < 26 {
        (65 + i) as u8
    } else if i < 52 {
        (97 + (i - 26)) as u8
    } else if i < 62 {
        (48 + (i - 52)) as u8
    } else if i == 62 {
        45
    } else {
        95
    }
}

/// Index of an alphabet byte; inverse of `b64_char` on the alphabet.
pub open spec fn b64_val(c: u8) -> u8 {
    if 65 <= c && c <= 90 {
        (c - 65) as u8
    } else if 97 <= c && c <= 122 {
        (26 + (c - 97)) as u8
    } else if 48 <= c && c <= 57 {
        (52 + (c - 48)) as u8
    } else if c == 45 {
        62
    } else {
        63
    }
}

/// A byte that may appear in a URL path segment without escaping.
pub open spec fn url_safe(c: u8) -> bool {
    (48 <= c && c <= 57) || (65 <= c && c <= 90) || (97 <= c && c <= 122) || c == 45 || c == 95
}

/// Unpadded base64url encoding: each 3-byte group becomes 4 alphabet bytes;
/// a trailing byte becomes 2, a trailing pair becomes 3.
pub open spec fn b64_encode(s: Seq<u8>) -> Seq<u8>
    decreases s.len(),
{
    if s.len() == 0 {
        Seq::empty()
    } else if s.len() == 1 {
        let b0 = s[0];
        seq![b64_char((b0 >> 2) as int), b64_char(((b0 & 3) << 4) as int)]
    } else if s.len() == 2 {
        let b0 = s[0];
        let b1 = s[1];
        seq![
            b64_char((b0 >> 2) as int),
            b64_char((((b0 & 3) << 4) | (b1 >> 4)) as int),
            b64_char(((b1 & 15) << 2) as int),
        ]
    } else {
        let b0 = s[0];
        let b1 = s[1];
        let b2 = s[2];
        seq![
            b64_char((b0 >> 2) as int),
            b64_char((((b0 & 3) << 4) | (b1 >> 4)) as int),
            b64_char((((b1 & 15) << 2) | (b2 >> 6)) as int),
            b64_char((b2 & 63) as int),
        ] + b64_encode(s.skip(3))
    }
}

/// Inverse of `b64_encode` on its range: groups of 4 alphabet bytes back to 3
/// bytes, a trailing pair to 1 byte, a trailing triple to 2 bytes.
pub open spec fn b64_decode(s: Seq<u8>) -> Seq<u8>
    decreases s.len(),
{
    if s.len() < 2 {
        Seq::empty()
    } else if s.len() == 2 {
        let v0 = b64_val(s[0]);
        let v1 = b64_val(s[1]);
        seq![(v0 << 2) | (v1 >> 4)]
    } else if s.len() == 3 {
        let v0 = b64_val(s[0]);
        let v1 = b64_val(s[1]);
        let v2 = b64_val(s[2]);
        seq![(v0 << 2) | (v1 >> 4), ((v1 & 15) << 4) | (v2 >> 2)]
    } else {
        let v0 = b64_val(s[0]);
        let v1 = b64_val(s[1]);
        let v2 = b64_val(s[2]);
        let v3 = b64_val(s[3]);
        seq![
            (v0 << 2) | (v1 >> 4),
            ((v1 & 15) << 4) | (v2 >> 2),
            ((v2 & 3) << 6) | v3,
        ] + b64_decode(s.skip(4))
    }
}

/// Length of the unpadded encoding: 4 bytes out for every full 3 bytes in,
/// plus 2 or 3 for a 1- or 2-byte tail.
pub proof fn lemma_b64_encode_len(s: Seq<u8>)
    ensures
        s.len() % 3 == 0 ==> b64_encode(s).len() == 4 * (s.len() / 3),
        s.len() % 3 == 1 ==> b64_encode(s).len() == 4 * (s.len() / 3) + 2,
        s.len() % 3 == 2 ==> b64_encode(s).len() == 4 * (s.len() / 3) + 3,
    decreases s.len(),
{
    if s.len() > 2 {
        lemma_b64_encode_len(s.skip(3));
    }
}

/// The encoding is never shorter than its input.
pub proof fn lemma_b64_encode_len_ge(s: Seq<u8>)
    ensures
        b64_encode(s).len() >= s.len(),
        s.len() > 0 ==> b64_encode(s).len() >= 2,
    decreases s.len(),
{
    if s.len() > 2 {
        lemma_b64_encode_len_ge(s.skip(3));
    }
}

/// Decoding inverts encoding, so the encoding loses nothing.
pub proof fn lemma_b64_round_trip(s: Seq<u8>)
    ensures
        b64_decode(b64_encode(s)) == s,
    decreases s.len(),
{
    if s.len() == 0 {
        assert(b64_decode(b64_encode(s)) =~= s);
    } else if s.len() == 1 {
        let b0 = s[0];
        assert(((b0 >> 2) << 2) | (((b0 & 3) << 4) >> 4) == b0) by (bit_vector);
        assert(b0 >> 2 < 64 && (b0 & 3) << 4 < 64) by (bit_vector);
        assert(b64_decode(b64_encode(s)) =~= s);
    } else if s.len() == 2 {
        let b0 = s[0];
        let b1 = s[1];
        let c1 = ((b0 & 3) << 4) | (b1 >> 4);
        let c2 = (b1 & 15) << 2;
        assert(((b0 >> 2) << 2) | ((((b0 & 3) << 4) | (b1 >> 4)) >> 4) == b0) by (bit_vector);
        assert((((((b0 & 3) << 4) | (b1 >> 4)) & 15) << 4) | (((b1 & 15) << 2) >> 2) == b1)
            by (bit_vector);
        assert(b0 >> 2 < 64 && c1 < 64 && c2 < 64) by (bit_vector)
            requires
                c1 == ((b0 & 3) << 4) | (b1 >> 4),
                c2 == (b1 & 15) << 2,
        ;
        assert(b64_decode(b64_encode(s)) =~= s);
    } else {
        let b0 = s[0];
        let b1 = s[1];
        let b2 = s[2];
        let v0 = b0 >> 2;
        let v1 = ((b0 & 3) << 4) | (b1 >> 4);
        let v2 = ((b1 & 15) << 2) | (b2 >> 6);
        let v3 = b2 & 63;
        assert(v0 < 64 && v1 < 64 && v2 < 64 && v3 < 64) by (bit_vector)
            requires
                v0 == b0 >> 2,
                v1 == ((b0 & 3) << 4) | (b1 >> 4),
                v2 == ((b1 & 15) << 2) | (b2 >> 6),
                v3 == b2 & 63,
        ;
        assert((v0 << 2) | (v1 >> 4) == b0 && ((v1 & 15) << 4) | (v2 >> 2) == b1 && ((v2 & 3)
            << 6) | v3 == b2) by (bit_vector)
            requires
                v0 == b0 >> 2,
                v1 == ((b0 & 3) << 4) | (b1 >> 4),
                v2 == ((b1 & 15) << 2) | (b2 >> 6),
                v3 == b2 & 63,
        ;
        let tail = b64_encode(s.skip(3));
        lemma_b64_round_trip(s.skip(3));
        lemma_b64_encode_len_ge(s.skip(3));
        let grp = seq![b64_char(v0 as int), b64_char(v1 as int), b64_char(v2 as int), b64_char(
            v3 as int,
        )];
        assert(b64_encode(s) == grp + tail);
        assert((grp + tail).len() >= 4);
        assert((grp + tail).skip(4) =~= tail);
        assert(b64_decode(grp + tail) =~= seq![b0, b1, b2] + b64_decode(tail));
        assert(seq![b0, b1, b2] + s.skip(3) =~= s);
    }
}

/// Distinct inputs have distinct encodings.
pub proof fn lemma_b64_encode_injective(a: Seq<u8>, b: Seq<u8>)
    requires
        b64_encode(a) == b64_encode(b),
    ensures
        a == b,
{
    lemma_b64_round_trip(a);
    lemma_b64_round_trip(b);
}

/// Every byte of an encoding is URL-safe.
pub proof fn lemma_b64_encode_url_safe(s: Seq<u8>)
    ensures
        forall|j: int| 0 <= j < b64_encode(s).len() ==> url_safe(#[trigger] b64_encode(s)[j]),
    decreases s.len(),
{
    if s.len() == 0 {
    } else if s.len() == 1 {
        let b0 = s[0];
        assert(b0 >> 2 < 64 && (b0 & 3) << 4 < 64) by (bit_vector);
    } else if s.len() == 2 {
        let b0 = s[0];
        let b1 = s[1];
        assert(b0 >> 2 < 64 && (((b0 & 3) << 4) | (b1 >> 4)) < 64 && (b1 & 15) << 2 < 64)
            by (bit_vector);
    } else {
        let b0 = s[0];
        let b1 = s[1];
        let b2 = s[2];
        assert(b0 >> 2 < 64 && (((b0 & 3) << 4) | (b1 >> 4)) < 64 && ((((b1 & 15) << 2) | (b2
            >> 6))) < 64 && b2 & 63 < 64) by (bit_vector);
        lemma_b64_encode_url_safe(s.skip(3));
        assert forall|j: int| 0 <= j < b64_encode(s).len() implies url_safe(
            #[trigger] b64_encode(s)[j],
        ) by {
            if j >= 4 {
                assert(b64_encode(s)[j] == b64_encode(s.skip(3))[j - 4]);
            }
        }
    }
}

// ---------------------------------------------------------------------------
// Minimal big-endian representation of a sequence id.
// ---------------------------------------------------------------------------

/// Big-endian bytes of `id` without leading zero bytes; empty for `id <= 0`.
pub open spec fn be_bytes_of(id: int) -> Seq<u8>
    decreases id,
{
    if id <= 0 {
        Seq::empty()
    } else if id < 256 {
        seq![id as u8]
    } else {
        be_bytes_of(id / 256) + seq![(id % 256) as u8]
    }
}

/// A positive id has at least one byte.
pub proof fn lemma_be_bytes_nonempty(id: int)
    requires
        id >= 1,
    ensures
        be_bytes_of(id).len() >= 1,
{
}

/// The minimal big-endian representation is injective on positive ids.
pub proof fn lemma_be_bytes_injective(a: int, b: int)
    requires
        a >= 1,
        b >= 1,
        be_bytes_of(a) == be_bytes_of(b),
    ensures
        a == b,
    decreases a,
{
    if a < 256 && b < 256 {
        assert(be_bytes_of(a) == seq![a as u8]);
        assert(be_bytes_of(b) == seq![b as u8]);
        assert(seq![a as u8][0] == seq![b as u8][0]);
        assert(a as u8 == b as u8);
        assert(a as u8 as int == a);
        assert(b as u8 as int == b);
    } else if a < 256 {
        lemma_be_bytes_nonempty(b / 256);
        assert(be_bytes_of(b) == be_bytes_of(b / 256) + seq![(b % 256) as u8]);
        assert(be_bytes_of(b).len() >= 2);
        assert(be_bytes_of(a).len() == 1);
    } else if b < 256 {
        lemma_be_bytes_nonempty(a / 256);
        assert(be_bytes_of(a) == be_bytes_of(a / 256) + seq![(a % 256) as u8]);
        assert(be_bytes_of(a).len() >= 2);
        assert(be_bytes_of(b).len() == 1);
    } else {
        let pa = be_bytes_of(a / 256);
        let pb = be_bytes_of(b / 256);
        assert(be_bytes_of(a) == pa + seq![(a % 256) as u8]);
        assert(be_bytes_of(b) == pb + seq![(b % 256) as u8]);
        assert(pa.len() == pb.len());
        assert(pa =~= pb) by {
            assert(forall|i: int|
                0 <= i < pa.len() ==> pa[i] == (pa + seq![(a % 256) as u8])[i] && pb[i] == (pb
                    + seq![(b % 256) as u8])[i]);
        }
        lemma_be_bytes_injective(a / 256, b / 256);
        assert(be_bytes_of(a)[pa.len() as int] == (a % 256) as u8);
        assert(be_bytes_of(b)[pb.len() as int] == (b % 256) as u8);
        vstd::arithmetic::div_mod::lemma_fundamental_div_mod(a, 256);
        vstd::arithmetic::div_mod::lemma_fundamental_div_mod(b, 256);
    }
}

// ---------------------------------------------------------------------------
// The two identifiers: salted digest and id-derived label.
// ---------------------------------------------------------------------------

/// What SHA-256 returns, named; the digest is a function of the input alone.
pub uninterp spec fn sha256_of(data: Seq<u8>) -> Seq<u8>;

/// The content digest: base64url of the SHA-256 of `content || salt`.
pub open spec fn digest_spec(content: Seq<u8>, salt: Seq<u8>) -> Seq<u8> {
    b64_encode(sha256_of(content + salt))
}

/// The label derived from a sequence id.
pub open spec fn label_spec(id: int) -> Seq<u8> {
    b64_encode(be_bytes_of(id))
}

/// Relies on ring::digest::digest with SHA256: a 32-byte digest that is a
/// function of the input bytes alone.
#[verifier::external_body]
fn sha256(data: &Vec<u8>) -> (r: Vec<u8>)
    ensures
        r@ == sha256_of(data@),
        r@.len() == 32,
{
    ring::digest::digest(&ring::digest::SHA256, data.as_slice()).as_ref().to_vec()
}

/// Relies on data_encoding::BASE64URL_NOPAD.encode: unpadded base64 with the
/// URL-safe alphabet of RFC 4648 section 5.
#[verifier::external_body]
fn encode_b64(data: &Vec<u8>) -> (r: Vec<u8>)
    ensures
        r@ == b64_encode(data@),
{
    data_encoding::BASE64URL_NOPAD.encode(data.as_slice()).into_bytes()
}

/// One fresh copy of a byte buffer.
pub fn copy_bytes(src: &Vec<u8>) -> (r: Vec<u8>)
    ensures
        r@ == src@,
{
    let mut r: Vec<u8> = Vec::new();
    let mut i: usize = 0;
    while i < src.len()
        invariant
            i <= src.len(),
            r@ == src@.take(i as int),
        decreases src.len() - i,
    {
        r.push(src[i]);
        i = i + 1;
        proof {
            assert(r@ =~= src@.take(i as int));
        }
    }
    proof {
        assert(src@.take(src@.len() as int) =~= src@);
    }
    r
}

/// The salted content digest, as an unpadded base64url string of 43 bytes.
pub fn digest_of(content: &Vec<u8>, salt: &Vec<u8>) -> (r: Vec<u8>)
    ensures
        r@ == digest_spec(content@, salt@),
        r@.len() == 43,
{
    let mut salted = copy_bytes(content);
    let mut i: usize = 0;
    while i < salt.len()
        invariant
            i <= salt.len(),
            salted@ == content@ + salt@.take(i as int),
        decreases salt.len() - i,
    {
        salted.push(salt[i]);
        i = i + 1;
        proof {
            assert(salted@ =~= content@ + salt@.take(i as int));
        }
    }
    proof {
        assert(content@ + salt@.take(salt@.len() as int) =~= content@ + salt@);
    }
    let hash = sha256(&salted);
    let r = encode_b64(&hash);
    proof {
        lemma_b64_encode_len(sha256_of(content@ + salt@));
    }
    r
}

/// The minimal big-endian bytes of a positive id.
fn be_bytes(id: i64) -> (r: Vec<u8>)
    requires
        id >= 1,
    ensures
        r@ == be_bytes_of(id as int),
    decreases id,
{
    if id < 256 {
        let mut r: Vec<u8> = Vec::new();
        r.push(id as u8);
        proof {
            assert(r@ =~= be_bytes_of(id as int));
        }
        r
    } else {
        let mut r = be_bytes(id / 256);
        r.push((id % 256) as u8);
        proof {
            assert(r@ =~= be_bytes_of(id as int));
        }
        r
    }
}

/// The label derived from a positive sequence id.
pub fn label_of(id: i64) -> (r: Vec<u8>)
    requires
        id >= 1,
    ensures
        r@ == label_spec(id as int),
        r@.len() >= 2,
{
    let bytes = be_bytes(id);
    proof {
        lemma_be_bytes_nonempty(id as int);
        lemma_b64_encode_len_ge(be_bytes_of(id as int));
    }
    encode_b64(&bytes)
}

// ---------------------------------------------------------------------------
// Laws of the codec.
// ---------------------------------------------------------------------------

/// Equal content and equal salt always give the one same digest.
pub proof fn lemma_digest_deterministic(b1: Seq<u8>, s1: Seq<u8>, b2: Seq<u8>, s2: Seq<u8>)
    requires
        b1 == b2,
        s1 == s2,
    ensures
        digest_spec(b1, s1) == digest_spec(b2, s2),
{
}

/// Labels of distinct positive ids below 2^56 are non-empty, URL-safe, and
/// never collide.
pub proof fn lemma_labels_distinct(a: int, b: int)
    requires
        1 <= a < 0x100000000000000,
        1 <= b < 0x100000000000000,
        a != b,
    ensures
        label_spec(a) != label_spec(b),
        label_spec(a).len() >= 2,
        label_spec(b).len() >= 2,
        forall|j: int| 0 <= j < label_spec(a).len() ==> url_safe(#[trigger] label_spec(a)[j]),
        forall|j: int| 0 <= j < label_spec(b).len() ==> url_safe(#[trigger] label_spec(b)[j]),
{
    lemma_be_bytes_nonempty(a);
    lemma_b64_encode_len_ge(be_bytes_of(a));
    lemma_b64_encode_url_safe(be_bytes_of(a));
    lemma_be_bytes_nonempty(b);
    lemma_b64_encode_len_ge(be_bytes_of(b));
    lemma_b64_encode_url_safe(be_bytes_of(b));
    if label_spec(a) == label_spec(b) {
        lemma_b64_encode_injective(be_bytes_of(a), be_bytes_of(b));
        lemma_be_bytes_injective(a, b);
    }
}

} // verus!
