//! Byte order: how integers are laid out as bytes and read back.

use vstd::prelude::*;

verus! {

/// The four bytes of `w`, most significant first.
pub open spec fn be32(w: u32) -> Seq<u8> {
    seq![(w >> 24) as u8, (w >> 16) as u8, (w >> 8) as u8, w as u8]
}

/// The four bytes of `w`, least significant first.
pub open spec fn le32(w: u32) -> Seq<u8> {
    seq![w as u8, (w >> 8) as u8, (w >> 16) as u8, (w >> 24) as u8]
}

/// The eight bytes of `w`, most significant first.
pub open spec fn be64(w: u64) -> Seq<u8> {
    seq![
        (w >> 56) as u8,
        (w >> 48) as u8,
        (w >> 40) as u8,
        (w >> 32) as u8,
        (w >> 24) as u8,
        (w >> 16) as u8,
        (w >> 8) as u8,
        w as u8,
    ]
}

/// The eight bytes of `w`, least significant first.
pub open spec fn le64(w: u64) -> Seq<u8> {
    seq![
        w as u8,
        (w >> 8) as u8,
        (w >> 16) as u8,
        (w >> 24) as u8,
        (w >> 32) as u8,
        (w >> 40) as u8,
        (w >> 48) as u8,
        (w >> 56) as u8,
    ]
}

/// The word whose big-endian bytes stand at `data[off..off + 4]`.
pub open spec fn be_word(data: Seq<u8>, off: int) -> u32 {
    ((data[off] as u32) << 24) | ((data[off + 1] as u32) << 16) | ((data[off + 2] as u32) << 8) | (
    data[off + 3] as u32)
}

/// The word whose big-endian bytes stand at `data[off..off + 8]`.
pub open spec fn be_word64(data: Seq<u8>, off: int) -> u64 {
    ((data[off] as u64) << 56) | ((data[off + 1] as u64) << 48) | ((data[off + 2] as u64) << 40) | ((
    data[off + 3] as u64) << 32) | ((data[off + 4] as u64) << 24) | ((data[off + 5] as u64) << 16)
        | ((data[off + 6] as u64) << 8) | (data[off + 7] as u64)
}

/// `n` big-endian words read from consecutive bytes starting at `off`.
pub open spec fn be_words(data: Seq<u8>, off: int, n: nat) -> Seq<u32> {
    Seq::new(n, |i: int| be_word(data, off + 4 * i))
}

/// The big-endian bytes of each word, one word after another.
pub open spec fn words_be(ws: Seq<u32>) -> Seq<u8> {
    Seq::new(4 * ws.len(), |i: int| be32(ws[i / 4])[i % 4])
}

/// The little-endian bytes of each word, one word after another.
pub open spec fn words_le(ws: Seq<u32>) -> Seq<u8> {
    Seq::new(4 * ws.len(), |i: int| le32(ws[i / 4])[i % 4])
}

/// The little-endian bytes of each double word, one after another.
pub open spec fn dwords_le(ws: Seq<u64>) -> Seq<u8> {
    Seq::new(8 * ws.len(), |i: int| le64(ws[i / 8])[i % 8])
}

pub fn u32_be(w: u32) -> (r: [u8; 4])
    ensures
        r@ == be32(w),
{
    [(w >> 24) as u8, (w >> 16) as u8, (w >> 8) as u8, w as u8]
}

pub fn u32_le(w: u32) -> (r: [u8; 4])
    ensures
        r@ == le32(w),
{
    [w as u8, (w >> 8) as u8, (w >> 16) as u8, (w >> 24) as u8]
}

pub fn u64_be(w: u64) -> (r: [u8; 8])
    ensures
        r@ == be64(w),
{
    [
        (w >> 56) as u8,
        (w >> 48) as u8,
        (w >> 40) as u8,
        (w >> 32) as u8,
        (w >> 24) as u8,
        (w >> 16) as u8,
        (w >> 8) as u8,
        w as u8,
    ]
}

pub fn u64_le(w: u64) -> (r: [u8; 8])
    ensures
        r@ == le64(w),
{
    [
        w as u8,
        (w >> 8) as u8,
        (w >> 16) as u8,
        (w >> 24) as u8,
        (w >> 32) as u8,
        (w >> 40) as u8,
        (w >> 48) as u8,
        (w >> 56) as u8,
    ]
}

/// Reads the big-endian word at `data[off..off + 4]`.
pub fn read_be_word(data: &[u8], off: usize) -> (w: u32)
    requires
        off + 4 <= data@.len(),
    ensures
        w == be_word(data@, off as int),
{
    ((data[off] as u32) << 24) | ((data[off + 1] as u32) << 16) | ((data[off + 2] as u32) << 8) | (
    data[off + 3] as u32)
}

/// Reads the big-endian double word at `data[off..off + 8]`.
pub fn read_be_word64(data: &[u8], off: usize) -> (w: u64)
    requires
        off + 8 <= data@.len(),
    ensures
        w == be_word64(data@, off as int),
{
    ((data[off] as u64) << 56) | ((data[off + 1] as u64) << 48) | ((data[off + 2] as u64) << 40) | ((
    data[off + 3] as u64) << 32) | ((data[off + 4] as u64) << 24) | ((data[off + 5] as u64) << 16)
        | ((data[off + 6] as u64) << 8) | (data[off + 7] as u64)
}

/// Appends the bytes of `src` to `buf`.
pub fn append_bytes(buf: &mut Vec<u8>, src: &[u8])
    ensures
        final(buf)@ == old(buf)@ + src@,
{
    let n: usize = src.len();
    for i in 0..n
        invariant
            n == src@.len(),
            buf@ == old(buf)@ + src@.take(i as int),
    {
        buf.push(src[i]);
        assert(src@.take(i + 1) == src@.take(i as int).push(src@[i as int]));
    }
    assert(src@.take(n as int) == src@);
}

/// Appends `w` in little-endian order.
pub fn append_u64_le(buf: &mut Vec<u8>, w: u64)
    ensures
        final(buf)@ == old(buf)@ + le64(w),
{
    let b = u64_le(w);
    append_bytes(buf, b.as_slice());
}

/// Appends each word of `ws` in little-endian order.
pub fn append_words_le(buf: &mut Vec<u8>, ws: &[u32])
    ensures
        final(buf)@ == old(buf)@ + words_le(ws@),
{
    let n: usize = ws.len();
    assert(words_le(ws@.take(0)) =~= Seq::<u8>::empty());
    for i in 0..n
        invariant
            n == ws@.len(),
            buf@ == old(buf)@ + words_le(ws@.take(i as int)),
    {
        let b = u32_le(ws[i]);
        append_bytes(buf, b.as_slice());
        proof {
            lemma_words_le_push(ws@.take(i as int), ws@[i as int]);
            assert(ws@.take(i + 1) == ws@.take(i as int).push(ws@[i as int]));
        }
    }
    assert(ws@.take(n as int) == ws@);
}

/// Appends each double word of `ws` in little-endian order.
pub fn append_dwords_le(buf: &mut Vec<u8>, ws: &[u64])
    ensures
        final(buf)@ == old(buf)@ + dwords_le(ws@),
{
    let n: usize = ws.len();
    assert(dwords_le(ws@.take(0)) =~= Seq::<u8>::empty());
    for i in 0..n
        invariant
            n == ws@.len(),
            buf@ == old(buf)@ + dwords_le(ws@.take(i as int)),
    {
        append_u64_le(buf, ws[i]);
        proof {
            lemma_dwords_le_push(ws@.take(i as int), ws@[i as int]);
            assert(ws@.take(i + 1) == ws@.take(i as int).push(ws@[i as int]));
        }
    }
    assert(ws@.take(n as int) == ws@);
}

pub proof fn lemma_words_le_push(ws: Seq<u32>, w: u32)
    ensures
        words_le(ws.push(w)) == words_le(ws) + le32(w),
{
    assert(words_le(ws.push(w)) =~= words_le(ws) + le32(w));
}

pub proof fn lemma_dwords_le_push(ws: Seq<u64>, w: u64)
    ensures
        dwords_le(ws.push(w)) == dwords_le(ws) + le64(w),
{
    assert(dwords_le(ws.push(w)) =~= dwords_le(ws) + le64(w));
}

/// Eight big-endian words from a digest.
pub fn digest_words(d: &[u8; 32]) -> (w: [u32; 8])
    ensures
        w@ == be_words(d@, 0, 8),
{
    let s = d.as_slice();
    let mut w = [0u32; 8];
    for i in 0..8usize
        invariant
            s@ == d@,
            forall|j: int| 0 <= j < i ==> w@[j] == be_word(d@, 4 * j),
    {
        w[i] = read_be_word(s, 4 * i);
    }
    assert(w@ =~= be_words(d@, 0, 8));
    w
}

/// The digest whose big-endian words are `w`.
pub fn words_digest(w: &[u32; 8]) -> (d: [u8; 32])
    ensures
        d@ == words_be(w@),
{
    let mut d = [0u8; 32];
    for i in 0..8usize
        invariant
            forall|j: int| 0 <= j < 4 * i ==> d@[j] == be32(w@[j / 4])[j % 4],
    {
        let b = u32_be(w[i]);
        d[4 * i] = b[0];
        d[4 * i + 1] = b[1];
        d[4 * i + 2] = b[2];
        d[4 * i + 3] = b[3];
    }
    assert(d@ =~= words_be(w@));
    d
}

proof fn lemma_be32_round_trip(w: u32)
    ensures
        be_word(be32(w), 0) == w,
{
    assert((((w >> 24) as u8 as u32) << 24) | (((w >> 16) as u8 as u32) << 16) | (((w >> 8) as u8
        as u32) << 8) | (w as u8 as u32) == w) by (bit_vector);
}

proof fn lemma_be_word_bytes(a: u8, b: u8, c: u8, d: u8)
    ensures
        be32(((a as u32) << 24) | ((b as u32) << 16) | ((c as u32) << 8) | (d as u32)) == seq![
            a,
            b,
            c,
            d,
        ],
{
    let w = ((a as u32) << 24) | ((b as u32) << 16) | ((c as u32) << 8) | (d as u32);
    assert((w >> 24) as u8 == a && (w >> 16) as u8 == b && (w >> 8) as u8 == c && w as u8 == d)
        by (bit_vector)
        requires
            w == ((a as u32) << 24) | ((b as u32) << 16) | ((c as u32) << 8) | (d as u32),
    ;
}

/// Reading back the words of a word sequence's bytes gives the words.
pub proof fn lemma_words_of_bytes(ws: Seq<u32>)
    ensures
        be_words(words_be(ws), 0, ws.len()) == ws,
{
    let bs = words_be(ws);
    assert forall|i: int| 0 <= i < ws.len() implies be_words(bs, 0, ws.len())[i] == ws[i] by {
        lemma_be32_round_trip(ws[i]);
        assert(bs[4 * i] == be32(ws[i])[0]);
        assert(bs[4 * i + 1] == be32(ws[i])[1]);
        assert(bs[4 * i + 2] == be32(ws[i])[2]);
        assert(bs[4 * i + 3] == be32(ws[i])[3]);
    }
    assert(be_words(bs, 0, ws.len()) =~= ws);
}

/// The bytes of the words read from `4 n` bytes are those bytes.
pub proof fn lemma_bytes_of_words(bs: Seq<u8>, n: nat)
    requires
        bs.len() == 4 * n,
    ensures
        words_be(be_words(bs, 0, n)) == bs,
{
    let ws = be_words(bs, 0, n);
    assert forall|i: int| 0 <= i < bs.len() implies words_be(ws)[i] == bs[i] by {
        let k = i / 4;
        lemma_be_word_bytes(bs[4 * k], bs[4 * k + 1], bs[4 * k + 2], bs[4 * k + 3]);
        assert(ws[k] == be_word(bs, 4 * k));
        assert(i == 4 * k + i % 4);
    }
    assert(words_be(ws) =~= bs);
}

/// The array with these eight words.
pub open spec fn words_array(s: Seq<u32>) -> [u32; 8] {
    choose|a: [u32; 8]| a@ == s
}

/// An array is the one with its words.
pub proof fn lemma_words_array(a: [u32; 8])
    ensures
        words_array(a@) == a,
{
    let b = words_array(a@);
    assert(b@ == a@);
    assert(b =~= a) by {
        assert forall|i: int| 0 <= i < 8 implies a[i] == b[i] by {
            assert(a@[i] == b@[i]);
        }
    }
}

/// Whether two digests are the same.
pub fn same_words(a: &[u32; 8], b: &[u32; 8]) -> (r: bool)
    ensures
        r == (a@ == b@),
        r == (*a == *b),
{
    for i in 0..8usize
        invariant
            forall|j: int| 0 <= j < i ==> a@[j] == b@[j],
    {
        if a[i] != b[i] {
            assert(a@[i as int] != b@[i as int]);
            return false;
        }
    }
    assert(a@ =~= b@);
    proof {
        lemma_words_array(*a);
        lemma_words_array(*b);
    }
    true
}

/// Whether two strings are the same.
pub fn same_bytes(a: &Vec<u8>, b: &Vec<u8>) -> (r: bool)
    ensures
        r == (a@ == b@),
{
    if a.len() != b.len() {
        return false;
    }
    for i in 0..a.len()
        invariant
            a@.len() == b@.len(),
            forall|j: int| 0 <= j < i ==> a@[j] == b@[j],
    {
        if a[i] != b[i] {
            return false;
        }
    }
    assert(a@ =~= b@);
    true
}

/// Two strings with a first part of the same length agree in both parts.
pub proof fn lemma_split<A>(a: Seq<A>, x: Seq<A>, b: Seq<A>, y: Seq<A>)
    requires
        a + x == b + y,
        a.len() == b.len(),
    ensures
        a == b,
        x == y,
{
    assert(a =~= (a + x).take(a.len() as int));
    assert(b =~= (b + y).take(a.len() as int));
    assert(x =~= (a + x).skip(a.len() as int));
    assert(y =~= (b + y).skip(a.len() as int));
}

/// A double word is determined by its little-endian bytes.
pub proof fn lemma_le64_injective(a: u64, b: u64)
    requires
        le64(a) == le64(b),
    ensures
        a == b,
{
    let (x, y) = (le64(a), le64(b));
    assert(x[0] == y[0] && x[1] == y[1] && x[2] == y[2] && x[3] == y[3]);
    assert(x[4] == y[4] && x[5] == y[5] && x[6] == y[6] && x[7] == y[7]);
    assert(a == b) by (bit_vector)
        requires
            a as u8 == b as u8,
            (a >> 8) as u8 == (b >> 8) as u8,
            (a >> 16) as u8 == (b >> 16) as u8,
            (a >> 24) as u8 == (b >> 24) as u8,
            (a >> 32) as u8 == (b >> 32) as u8,
            (a >> 40) as u8 == (b >> 40) as u8,
            (a >> 48) as u8 == (b >> 48) as u8,
            (a >> 56) as u8 == (b >> 56) as u8,
    ;
}

/// The bytes of a word, most significant first, are its digits to base 256.
pub proof fn law_be32_value(w: u32)
    ensures
        be32(w).len() == 4,
        w == 0x100_0000 * be32(w)[0] + 0x1_0000 * be32(w)[1] + 0x100 * be32(w)[2] + be32(w)[3],
{
    assert(w == 0x100_0000 * ((w >> 24) as u8) + 0x1_0000 * ((w >> 16) as u8) + 0x100 * ((w >> 8)
        as u8) + (w as u8)) by (bit_vector);
}

/// The bytes of a word, least significant first, are its digits to base 256.
pub proof fn law_le32_value(w: u32)
    ensures
        le32(w).len() == 4,
        w == le32(w)[0] + 0x100 * le32(w)[1] + 0x1_0000 * le32(w)[2] + 0x100_0000 * le32(w)[3],
{
    law_be32_value(w);
}

/// As `law_be32_value`, of a word of 64 bits.
pub proof fn law_be64_value(w: u64)
    ensures
        be64(w).len() == 8,
        w == 0x100_0000_0000_0000 * be64(w)[0] + 0x1_0000_0000_0000 * be64(w)[1]
            + 0x100_0000_0000 * be64(w)[2] + 0x1_0000_0000 * be64(w)[3] + 0x100_0000 * be64(w)[4]
            + 0x1_0000 * be64(w)[5] + 0x100 * be64(w)[6] + be64(w)[7],
{
    assert(w == 0x100_0000_0000_0000 * ((w >> 56) as u8) + 0x1_0000_0000_0000 * ((w >> 48) as u8)
        + 0x100_0000_0000 * ((w >> 40) as u8) + 0x1_0000_0000 * ((w >> 32) as u8) + 0x100_0000 * ((w
        >> 24) as u8) + 0x1_0000 * ((w >> 16) as u8) + 0x100 * ((w >> 8) as u8) + (w as u8))
        by (bit_vector);
}

/// As `law_le32_value`, of a word of 64 bits.
pub proof fn law_le64_value(w: u64)
    ensures
        le64(w).len() == 8,
        w == le64(w)[0] + 0x100 * le64(w)[1] + 0x1_0000 * le64(w)[2] + 0x100_0000 * le64(w)[3]
            + 0x1_0000_0000 * le64(w)[4] + 0x100_0000_0000 * le64(w)[5] + 0x1_0000_0000_0000
            * le64(w)[6] + 0x100_0000_0000_0000 * le64(w)[7],
{
    law_be64_value(w);
}

/// A word read from four bytes is the number that they spell to base 256.
pub proof fn law_be_word_value(data: Seq<u8>, off: int)
    ensures
        be_word(data, off) == 0x100_0000 * data[off] + 0x1_0000 * data[off + 1] + 0x100 * data[off
            + 2] + data[off + 3],
{
    let (a, b, c, d) = (data[off], data[off + 1], data[off + 2], data[off + 3]);
    assert(((a as u32) << 24) | ((b as u32) << 16) | ((c as u32) << 8) | (d as u32) == 0x100_0000
        * a + 0x1_0000 * b + 0x100 * c + d) by (bit_vector);
}

/// As `law_be_word_value`, of eight bytes.
pub proof fn law_be_word64_value(data: Seq<u8>, off: int)
    ensures
        be_word64(data, off) == 0x1_0000_0000 * be_word(data, off) + be_word(data, off + 4),
{
    let (a, b, c, d) = (data[off], data[off + 1], data[off + 2], data[off + 3]);
    let (e, f, g, h) = (data[off + 4], data[off + 5], data[off + 6], data[off + 7]);
    assert(((a as u64) << 56) | ((b as u64) << 48) | ((c as u64) << 40) | ((d as u64) << 32) | ((
    e as u64) << 24) | ((f as u64) << 16) | ((g as u64) << 8) | (h as u64) == 0x1_0000_0000 * (((
    a as u32) << 24) | ((b as u32) << 16) | ((c as u32) << 8) | (d as u32)) + (((e as u32) << 24)
        | ((f as u32) << 16) | ((g as u32) << 8) | (h as u32))) by (bit_vector);
}

/// Byte `4 i + j` of the words laid out big-endian, and of those laid out
/// little-endian, is a byte of word `i`.
pub proof fn law_word_bytes(ws: Seq<u32>, i: int, j: int)
    requires
        0 <= i < ws.len(),
        0 <= j < 4,
    ensures
        words_be(ws).len() == 4 * ws.len(),
        words_le(ws).len() == 4 * ws.len(),
        words_be(ws)[4 * i + j] == (ws[i] >> ((24 - 8 * j) as u32)) as u8,
        words_le(ws)[4 * i + j] == (ws[i] >> ((8 * j) as u32)) as u8,
{
    let w = ws[i];
    assert((w >> 0u32) == w) by (bit_vector);
    assert((4 * i + j) / 4 == i && (4 * i + j) % 4 == j);
    assert(j == 0 || j == 1 || j == 2 || j == 3);
}

/// Word `i` of the words read from an offset on spells four bytes, and byte
/// `8 i + j` of long words laid out little-endian is a byte of word `i`.
pub proof fn law_words_places(data: Seq<u8>, off: int, n: nat, ws: Seq<u64>, i: int, j: int)
    requires
        0 <= i,
        0 <= j < 8,
    ensures
        be_words(data, off, n).len() == n,
        i < n ==> be_words(data, off, n)[i] == 0x100_0000 * data[off + 4 * i] + 0x1_0000 * data[off
            + 4 * i + 1] + 0x100 * data[off + 4 * i + 2] + data[off + 4 * i + 3],
        dwords_le(ws).len() == 8 * ws.len(),
        i < ws.len() ==> dwords_le(ws)[8 * i + j] == (ws[i] >> ((8 * j) as u64)) as u8,
{
    law_be_word_value(data, off + 4 * i);
    if i < ws.len() {
        let w = ws[i];
        assert((w >> 0u64) == w) by (bit_vector);
        assert((8 * i + j) / 8 == i && (8 * i + j) % 8 == j);
        assert(j == 0 || j == 1 || j == 2 || j == 3 || j == 4 || j == 5 || j == 6 || j == 7);
    }
}

/// Reading the words of a digest and writing them out gives the digest back.
pub proof fn law_digest_words_round_trip(d: Seq<u8>, ws: Seq<u32>)
    ensures
        d.len() == 32 ==> words_be(be_words(d, 0, 8)) == d,
        ws.len() == 8 ==> be_words(words_be(ws), 0, 8) == ws,
{
    if d.len() == 32 {
        let read = be_words(d, 0, 8);
        assert forall|k: int| 0 <= k < 32 implies words_be(read)[k] == d[k] by {
            let (i, j) = (k / 4, k % 4);
            law_word_bytes(read, i, j);
            lemma_byte_of_word(d[4 * i], d[4 * i + 1], d[4 * i + 2], d[4 * i + 3]);
            let w = read[i];
            assert((w >> 0u32) == w) by (bit_vector);
            assert(j == 0 || j == 1 || j == 2 || j == 3);
        }
        assert(words_be(read) =~= d);
    }
    if ws.len() == 8 {
        let bytes = words_be(ws);
        assert forall|i: int| 0 <= i < 8 implies be_words(bytes, 0, 8)[i] == ws[i] by {
            law_be_word_value(bytes, 4 * i);
            law_be32_value(ws[i]);
            assert(bytes[4 * i] == be32(ws[i])[0] && bytes[4 * i + 1] == be32(ws[i])[1]);
            assert(bytes[4 * i + 2] == be32(ws[i])[2] && bytes[4 * i + 3] == be32(ws[i])[3]);
        }
        assert(be_words(bytes, 0, 8) =~= ws);
    }
}

proof fn lemma_byte_of_word(a: u8, b: u8, c: u8, d: u8)
    ensures
        ({
            let w = ((a as u32) << 24) | ((b as u32) << 16) | ((c as u32) << 8) | (d as u32);
            (w >> 24) as u8 == a && (w >> 16) as u8 == b && (w >> 8) as u8 == c && w as u8 == d
        }),
{
    assert(({
        let w = ((a as u32) << 24) | ((b as u32) << 16) | ((c as u32) << 8) | (d as u32);
        (w >> 24) as u8 == a && (w >> 16) as u8 == b && (w >> 8) as u8 == c && w as u8 == d
    })) by (bit_vector);
}

} // verus!
