//! The binary payload: 32-bit words laid out four bytes at a time in a
//! chosen byte order.  The byte shuffling itself is done by byteorder,
//! behind trusted wrappers with exact contracts.

use vstd::prelude::*;

verus! {

/// The four little-endian bytes of `x`, least significant first.
pub open spec fn le_bytes(x: u32) -> Seq<u8> {
    seq![
        (x & 0xff) as u8,
        ((x >> 8) & 0xff) as u8,
        ((x >> 16) & 0xff) as u8,
        ((x >> 24) & 0xff) as u8,
    ]
}

/// The four big-endian bytes of `x`, most significant first.
pub open spec fn be_bytes(x: u32) -> Seq<u8> {
    seq![
        ((x >> 24) & 0xff) as u8,
        ((x >> 16) & 0xff) as u8,
        ((x >> 8) & 0xff) as u8,
        (x & 0xff) as u8,
    ]
}

/// The four bytes of `x` in the given order.
pub open spec fn word_bytes(x: u32, little: bool) -> Seq<u8> {
    if little {
        le_bytes(x)
    } else {
        be_bytes(x)
    }
}

/// The word whose little-endian bytes are `b0`, `b1`, `b2`, `b3`.
pub open spec fn u32_from_le(b0: u8, b1: u8, b2: u8, b3: u8) -> u32 {
    (b0 as u32) | ((b1 as u32) << 8) | ((b2 as u32) << 16) | ((b3 as u32) << 24)
}

/// The word read at byte offset `i` of `s` in the given order.
pub open spec fn word_at(s: Seq<u8>, i: int, little: bool) -> u32 {
    if little {
        u32_from_le(s[i], s[i + 1], s[i + 2], s[i + 3])
    } else {
        u32_from_le(s[i + 3], s[i + 2], s[i + 1], s[i])
    }
}

/// The `n` words read from byte offset `off` of `s` in the given order.
pub open spec fn words_at(s: Seq<u8>, off: int, n: nat, little: bool) -> Seq<u32> {
    Seq::new(n, |k: int| word_at(s, off + 4 * k, little))
}

/// The payload bytes of the pixel words `data` in the given order.
pub open spec fn payload_bytes(data: Seq<u32>, little: bool) -> Seq<u8>
    decreases data.len(),
{
    if data.len() == 0 {
        Seq::empty()
    } else {
        payload_bytes(data.drop_last(), little) + word_bytes(data.last(), little)
    }
}

/// Relies on byteorder's `LittleEndian::read_u32`: the four bytes are
/// combined least significant first.
#[verifier::external_body]
pub(crate) fn read_u32_le(b0: u8, b1: u8, b2: u8, b3: u8) -> (r: u32)
    ensures
        r == u32_from_le(b0, b1, b2, b3),
{
    <byteorder::LittleEndian as byteorder::ByteOrder>::read_u32(&[b0, b1, b2, b3])
}

/// Relies on byteorder's `BigEndian::read_u32`: the four bytes are
/// combined most significant first.
#[verifier::external_body]
pub(crate) fn read_u32_be(b0: u8, b1: u8, b2: u8, b3: u8) -> (r: u32)
    ensures
        r == u32_from_le(b3, b2, b1, b0),
{
    <byteorder::BigEndian as byteorder::ByteOrder>::read_u32(&[b0, b1, b2, b3])
}

/// Relies on byteorder's `LittleEndian::write_u32`: the value's bytes are
/// laid out least significant first.
#[verifier::external_body]
pub(crate) fn write_u32_le(x: u32) -> (r: (u8, u8, u8, u8))
    ensures
        r.0 == (x & 0xff) as u8,
        r.1 == ((x >> 8) & 0xff) as u8,
        r.2 == ((x >> 16) & 0xff) as u8,
        r.3 == ((x >> 24) & 0xff) as u8,
{
    let mut buf = [0u8; 4];
    <byteorder::LittleEndian as byteorder::ByteOrder>::write_u32(&mut buf, x);
    (buf[0], buf[1], buf[2], buf[3])
}

/// Relies on byteorder's `BigEndian::write_u32`: the value's bytes are
/// laid out most significant first.
#[verifier::external_body]
pub(crate) fn write_u32_be(x: u32) -> (r: (u8, u8, u8, u8))
    ensures
        r.0 == ((x >> 24) & 0xff) as u8,
        r.1 == ((x >> 16) & 0xff) as u8,
        r.2 == ((x >> 8) & 0xff) as u8,
        r.3 == (x & 0xff) as u8,
{
    let mut buf = [0u8; 4];
    <byteorder::BigEndian as byteorder::ByteOrder>::write_u32(&mut buf, x);
    (buf[0], buf[1], buf[2], buf[3])
}

/// Splitting a word into bytes and combining them again is the identity.
pub proof fn lemma_word_round_trip(x: u32)
    ensures
        u32_from_le((x & 0xff) as u8, ((x >> 8) & 0xff) as u8, ((x >> 16) & 0xff) as u8, (
        (x >> 24) & 0xff) as u8) == x,
{
    assert(((x & 0xff) as u8 as u32) | ((((x >> 8) & 0xff) as u8 as u32) << 8) | ((((x >> 16)
        & 0xff) as u8 as u32) << 16) | ((((x >> 24) & 0xff) as u8 as u32) << 24) == x)
        by (bit_vector);
}

/// The payload is four bytes per word.
pub proof fn lemma_payload_len(data: Seq<u32>, little: bool)
    ensures
        payload_bytes(data, little).len() == 4 * data.len(),
    decreases data.len(),
{
    if data.len() > 0 {
        lemma_payload_len(data.drop_last(), little);
    }
}

/// Byte `4 * k + j` of the payload is byte `j` of word `k`.
pub proof fn lemma_payload_index(data: Seq<u32>, little: bool, k: int, j: int)
    requires
        0 <= k < data.len(),
        0 <= j < 4,
    ensures
        payload_bytes(data, little)[4 * k + j] == word_bytes(data[k], little)[j],
    decreases data.len(),
{
    lemma_payload_len(data.drop_last(), little);
    if k < data.len() - 1 {
        lemma_payload_index(data.drop_last(), little, k, j);
    }
}

/// Decoding the payload of `data`, embedded in `s` at `off`, gives `data` back.
pub proof fn lemma_payload_round_trip(data: Seq<u32>, little: bool, s: Seq<u8>, off: int)
    requires
        0 <= off,
        off + 4 * data.len() <= s.len(),
        s.subrange(off, off + 4 * data.len()) == payload_bytes(data, little),
    ensures
        words_at(s, off, data.len() as nat, little) == data,
{
    let n = data.len() as int;
    let p = payload_bytes(data, little);
    lemma_payload_len(data, little);
    assert forall|k: int| 0 <= k < n implies word_at(s, off + 4 * k, little) == data[k] by {
        assert forall|j: int| 0 <= j < 4 implies s[off + 4 * k + j] == word_bytes(data[k],
            little)[j] by {
            assert(s[off + 4 * k + j] == s.subrange(off, off + 4 * n)[4 * k + j]);
            lemma_payload_index(data, little, k, j);
        }
        let x = data[k];
        lemma_word_round_trip(x);
        if little {
            assert(word_bytes(x, true)[0] == (x & 0xff) as u8);
            assert(word_bytes(x, true)[1] == ((x >> 8) & 0xff) as u8);
            assert(word_bytes(x, true)[2] == ((x >> 16) & 0xff) as u8);
            assert(word_bytes(x, true)[3] == ((x >> 24) & 0xff) as u8);
        } else {
            assert(word_bytes(x, false)[3] == (x & 0xff) as u8);
            assert(word_bytes(x, false)[2] == ((x >> 8) & 0xff) as u8);
            assert(word_bytes(x, false)[1] == ((x >> 16) & 0xff) as u8);
            assert(word_bytes(x, false)[0] == ((x >> 24) & 0xff) as u8);
        }
    }
    assert(words_at(s, off, data.len() as nat, little) =~= data);
}

/// Read `n` words from `bytes`, starting at `off`, in the given order.
pub(crate) fn decode_words(bytes: &Vec<u8>, off: usize, n: usize, little: bool) -> (r: Vec<u32>)
    requires
        off + 4 * (n as int) <= bytes@.len(),
    ensures
        r@ == words_at(bytes@, off as int, n as nat, little),
{
    let blen = bytes.len();
    let mut r: Vec<u32> = Vec::new();
    let mut k: usize = 0;
    while k < n
        invariant
            k <= n,
            blen == bytes@.len(),
            off + 4 * (n as int) <= blen,
            r@ == words_at(bytes@, off as int, k as nat, little),
        decreases n - k,
    {
        let i = off + 4 * k;
        let w = if little {
            read_u32_le(bytes[i], bytes[i + 1], bytes[i + 2], bytes[i + 3])
        } else {
            read_u32_be(bytes[i], bytes[i + 1], bytes[i + 2], bytes[i + 3])
        };
        r.push(w);
        k = k + 1;
        assert(r@ =~= words_at(bytes@, off as int, k as nat, little));
    }
    r
}

/// Append the payload bytes of `data` to `out` in the given order.
pub(crate) fn encode_words(out: &mut Vec<u8>, data: &Vec<u32>, little: bool)
    ensures
        final(out)@ == old(out)@ + payload_bytes(data@, little),
{
    let n = data.len();
    let mut k: usize = 0;
    while k < n
        invariant
            k <= n,
            n == data@.len(),
            out@ == old(out)@ + payload_bytes(data@.take(k as int), little),
        decreases n - k,
    {
        let x = data[k];
        let b = if little {
            write_u32_le(x)
        } else {
            write_u32_be(x)
        };
        out.push(b.0);
        out.push(b.1);
        out.push(b.2);
        out.push(b.3);
        proof {
            let t = data@.take(k + 1);
            assert(t.drop_last() =~= data@.take(k as int));
            assert(t.last() == data@[k as int]);
            assert(out@ =~= old(out)@ + payload_bytes(data@.take(k + 1), little));
        }
        k = k + 1;
    }
    assert(data@.take(n as int) =~= data@);
}

} // verus!
