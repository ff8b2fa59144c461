//! Messages as chains of SHA-256 compressions, and the content hash of a node.

use vstd::prelude::*;

use crate::bytes::{
    append_bytes, append_dwords_le, append_words_le, be_words, dwords_le, read_be_word, u64_be,
    words_be, words_digest, words_le,
};
use crate::sha256::{
    block_count, block_words, chain_value, compress, lemma_pad_len, pad, sha256, sha256_compress,
    sha256_words, Compression, MAX_MESSAGE_LEN, SHA256_IV,
};

verus! {

/// Whether `chain` runs the compression function over the blocks of `data`,
/// one after another.
pub open spec fn is_chain_of(chain: Seq<Compression>, data: Seq<u8>) -> bool {
    forall|i: int|
        #![trigger chain[i]]
        0 <= i < chain.len() ==> chain[i].0@ == chain_value(data, i as nat) && chain[i].1@
            == block_words(data, i)
}

/// The bytes that a node's content hash is taken of: the masks, the sparse
/// keys, the root of the node's own tree and the leaf counts.
pub open spec fn content_preimage(
    masks: Seq<u64>,
    sparse_keys: Seq<u32>,
    merkle_root: Seq<u8>,
    counts: Seq<u32>,
) -> Seq<u8> {
    dwords_le(masks) + words_le(sparse_keys) + merkle_root + words_le(counts)
}

/// Serializes what a node's content hash is taken of.
pub fn content_preimage_bytes(
    extraction_masks: &[u64; 4],
    sparse_keys: &[u32],
    merkle_root: &[u8; 32],
    counts: &[u32],
) -> (buf: Vec<u8>)
    requires
        sparse_keys@.len() == counts@.len(),
    ensures
        buf@ == content_preimage(extraction_masks@, sparse_keys@, merkle_root@, counts@),
        buf@.len() == 64 + 8 * sparse_keys@.len(),
{
    let mut buf: Vec<u8> = Vec::new();
    append_dwords_le(&mut buf, extraction_masks.as_slice());
    append_words_le(&mut buf, sparse_keys);
    append_bytes(&mut buf, merkle_root.as_slice());
    append_words_le(&mut buf, counts);
    assert(buf@ =~= content_preimage(
        extraction_masks@,
        sparse_keys@,
        merkle_root@,
        counts@,
    ));
    buf
}

/// Appends SHA-256 padding: `0x80`, zeros, and the bit length.
pub fn sha256_pad(data: &[u8]) -> (padded: Vec<u8>)
    requires
        data@.len() <= MAX_MESSAGE_LEN,
    ensures
        padded@ == pad(data@),
{
    let bit_len: u64 = data.len() as u64 * 8;
    let mut padded: Vec<u8> = Vec::new();
    append_bytes(&mut padded, data);
    padded.push(0x80);
    let zeros: usize = (119 - data.len() % 64) % 64;
    for i in 0..zeros
        invariant
            padded@ == data@.push(0x80) + Seq::new(i as nat, |j: int| 0u8),
    {
        padded.push(0);
    }
    let bits = u64_be(bit_len);
    append_bytes(&mut padded, bits.as_slice());
    assert(padded@ =~= pad(data@));
    padded
}

/// The 16 words of the 64-byte block that starts at `block[off]`.
pub fn bytes_to_message_words(block: &[u8], off: usize) -> (m: [u32; 16])
    requires
        off + 64 <= block@.len(),
    ensures
        m@ == be_words(block@, off as int, 16),
{
    let n: usize = block.len();
    let mut m = [0u32; 16];
    for i in 0..16usize
        invariant
            off + 64 <= n,
            n == block@.len(),
            forall|j: int| 0 <= j < i ==> m@[j] == be_words(block@, off as int, 16)[j],
    {
        m[i] = read_be_word(block, off + 4 * i);
    }
    assert(m@ =~= be_words(block@, off as int, 16));
    m
}

/// The chain of compressions that hashes `data`.
pub fn bytes_to_sha256_chain(data: &[u8]) -> (compressions: Vec<Compression>)
    requires
        data@.len() <= MAX_MESSAGE_LEN,
    ensures
        compressions@.len() == block_count(data@.len()),
        is_chain_of(compressions@, pad(data@)),
{
    let padded = sha256_pad(data);
    proof {
        lemma_pad_len(data@);
    }
    let total: usize = padded.len();
    let n_blocks: usize = total / 64;
    let mut compressions: Vec<Compression> = Vec::new();
    let mut cv: [u32; 8] = SHA256_IV;
    for block_idx in 0..n_blocks
        invariant
            padded@ == pad(data@),
            padded@.len() == 64 * n_blocks == total,
            compressions@.len() == block_idx,
            is_chain_of(compressions@, padded@),
            cv@ == chain_value(padded@, block_idx as nat),
    {
        let m = bytes_to_message_words(padded.as_slice(), 64 * block_idx);
        compressions.push((cv, m));
        cv = sha256_compress(&cv, &m);
    }
    compressions
}

/// The value that the last compression of a chain comes to.
pub fn sha256_chain_output(compressions: &[Compression]) -> (cv: [u32; 8])
    requires
        compressions@.len() > 0,
    ensures
        cv@ == compress(compressions@.last().0@, compressions@.last().1@),
{
    let last: &Compression = &compressions[compressions.len() - 1];
    sha256_compress(&last.0, &last.1)
}

/// The output of the chain of a padded message is the message's digest.
pub proof fn lemma_chain_output_is_digest(chain: Seq<Compression>, msg: Seq<u8>)
    requires
        chain.len() == block_count(msg.len()),
        is_chain_of(chain, pad(msg)),
    ensures
        chain.len() > 0,
        compress(chain.last().0@, chain.last().1@) == sha256_words(msg),
{
    lemma_pad_len(msg);
    let last = chain[chain.len() - 1];
    assert(last.0@ == chain_value(pad(msg), (chain.len() - 1) as nat));
}

/// In a chain each compression starts from the output of the one before it,
/// the first from `SHA256_IV`.
pub proof fn law_chain_is_linked(chain: Seq<Compression>, data: Seq<u8>)
    requires
        is_chain_of(chain, data),
    ensures
        chain.len() > 0 ==> chain[0].0@ == SHA256_IV@,
        forall|i: int|
            #![trigger chain[i]]
            1 <= i < chain.len() ==> chain[i].0@ == compress(chain[i - 1].0@, chain[i - 1].1@),
{
    assert forall|i: int| #![trigger chain[i]] 1 <= i < chain.len() implies chain[i].0@ == compress(
        chain[i - 1].0@,
        chain[i - 1].1@,
    ) by {
        let prev = chain[i - 1];
        assert(chain[i].0@ == chain_value(data, i as nat));
    }
}

/// The chain of a node's content hash has as many blocks as its content takes,
/// ends at the hash's words, and their bytes are the digest of the content.
pub proof fn law_content_chain_is_digest(
    chain: Seq<Compression>,
    masks: Seq<u64>,
    sparse_keys: Seq<u32>,
    merkle_root: Seq<u8>,
    counts: Seq<u32>,
)
    requires
        masks.len() == 4,
        merkle_root.len() == 32,
        sparse_keys.len() == counts.len(),
        ({
            let preimage = content_preimage(masks, sparse_keys, merkle_root, counts);
            chain.len() == block_count(preimage.len()) && is_chain_of(chain, pad(preimage))
        }),
    ensures
        chain.len() == (64 + 8 * sparse_keys.len() + 9 + 63) / 64,
        ({
            let preimage = content_preimage(masks, sparse_keys, merkle_root, counts);
            let out = compress(chain.last().0@, chain.last().1@);
            out == sha256_words(preimage) && words_be(out) == sha256(preimage)
        }),
{
    let preimage = content_preimage(masks, sparse_keys, merkle_root, counts);
    assert(preimage.len() == 64 + 8 * sparse_keys.len());
    lemma_chain_output_is_digest(chain, preimage);
    reveal(sha256);
}

/// The chain of compressions of a node's content hash, and the hash's words.
pub fn content_hash_to_sha256_chain(
    extraction_masks: &[u64; 4],
    sparse_keys: &[u32],
    merkle_root: &[u8; 32],
    counts: &[u32],
) -> (r: (Vec<Compression>, [u32; 8]))
    requires
        sparse_keys@.len() == counts@.len(),
        64 + 8 * sparse_keys@.len() <= MAX_MESSAGE_LEN,
    ensures
        ({
            let preimage = content_preimage(
                extraction_masks@,
                sparse_keys@,
                merkle_root@,
                counts@,
            );
            &&& r.0@.len() == block_count(preimage.len())
            &&& is_chain_of(r.0@, pad(preimage))
            &&& r.1@ == sha256_words(preimage)
        }),
{
    let preimage = content_preimage_bytes(extraction_masks, sparse_keys, merkle_root, counts);
    let compressions = bytes_to_sha256_chain(preimage.as_slice());
    proof {
        lemma_chain_output_is_digest(compressions@, preimage@);
    }
    let digest = sha256_chain_output(compressions.as_slice());
    (compressions, digest)
}

/// The SHA-256 digest of `data`.
pub fn sha256_bytes(data: &[u8]) -> (out: [u8; 32])
    requires
        data@.len() <= MAX_MESSAGE_LEN,
    ensures
        out@ == sha256(data@),
{
    let compressions = bytes_to_sha256_chain(data);
    proof {
        lemma_chain_output_is_digest(compressions@, data@);
    }
    let words = sha256_chain_output(compressions.as_slice());
    reveal(sha256);
    words_digest(&words)
}

/// What a content hash is taken of, byte by byte: the four masks, the sparse
/// keys, the root of the node's tree and the leaf counts, each number with its
/// lowest byte first.
pub proof fn law_content_preimage_layout(
    masks: Seq<u64>,
    sparse_keys: Seq<u32>,
    merkle_root: Seq<u8>,
    counts: Seq<u32>,
)
    requires
        masks.len() == 4,
        merkle_root.len() == 32,
    ensures
        ({
            let n = sparse_keys.len() as int;
            let data = content_preimage(masks, sparse_keys, merkle_root, counts);
            &&& data.len() == 64 + 4 * n + 4 * counts.len()
            &&& forall|c: int, j: int|
                0 <= c < 4 && 0 <= j < 8 ==> #[trigger] data[8 * c + j] == (masks[c] >> ((8
                    * j) as u64)) as u8
            &&& forall|i: int, j: int|
                0 <= i < n && 0 <= j < 4 ==> #[trigger] data[32 + 4 * i + j] == (sparse_keys[i]
                    >> ((8 * j) as u32)) as u8
            &&& forall|j: int|
                0 <= j < 32 ==> #[trigger] data[32 + 4 * n + j] == merkle_root[j]
            &&& forall|i: int, j: int|
                0 <= i < counts.len() && 0 <= j < 4 ==> #[trigger] data[64 + 4 * n + 4 * i + j] == (
                counts[i] >> ((8 * j) as u32)) as u8
        }),
{
    let n = sparse_keys.len() as int;
    let data = content_preimage(masks, sparse_keys, merkle_root, counts);
    assert forall|c: int, j: int| 0 <= c < 4 && 0 <= j < 8 implies #[trigger] data[8 * c + j] == (
    masks[c] >> ((8 * j) as u64)) as u8 by {
        let w = masks[c];
        assert(w >> 0 == w) by (bit_vector);
        assert((8 * c + j) / 8 == c && (8 * c + j) % 8 == j);
        assert(data[8 * c + j] == crate::bytes::le64(w)[j]);
    }
    assert forall|i: int, j: int| 0 <= i < n && 0 <= j < 4 implies #[trigger] data[32 + 4 * i + j]
        == (sparse_keys[i] >> ((8 * j) as u32)) as u8 by {
        let w = sparse_keys[i];
        assert(w >> 0 == w) by (bit_vector);
        assert((4 * i + j) / 4 == i && (4 * i + j) % 4 == j);
        assert(data[32 + 4 * i + j] == words_le(sparse_keys)[4 * i + j]);
        assert(data[32 + 4 * i + j] == crate::bytes::le32(w)[j]);
    }
    assert forall|i: int, j: int|
        0 <= i < counts.len() && 0 <= j < 4 implies #[trigger] data[64 + 4 * n + 4 * i + j] == (
    counts[i] >> ((8 * j) as u32)) as u8 by {
        let w = counts[i];
        assert(w >> 0 == w) by (bit_vector);
        assert((4 * i + j) / 4 == i && (4 * i + j) % 4 == j);
        assert(data[64 + 4 * n + 4 * i + j] == words_le(counts)[4 * i + j]);
        assert(data[64 + 4 * n + 4 * i + j] == crate::bytes::le32(w)[j]);
    }
}

/// The chain of a message, block by block: it starts from the initial value,
/// every other block from the output of the one before, and word `j` of block
/// `i` spells four bytes of the padded message.
pub proof fn law_chain_block(chain: Seq<Compression>, data: Seq<u8>, i: int, j: int)
    requires
        is_chain_of(chain, data),
        0 <= i < chain.len(),
        0 <= j < 16,
    ensures
        chain[i].0@ == if i == 0 {
            SHA256_IV@
        } else {
            compress(chain[i - 1].0@, chain[i - 1].1@)
        },
        chain[i].1@[j] == 0x100_0000 * data[64 * i + 4 * j] + 0x1_0000 * data[64 * i + 4 * j + 1]
            + 0x100 * data[64 * i + 4 * j + 2] + data[64 * i + 4 * j + 3],
{
    law_chain_is_linked(chain, data);
    crate::bytes::law_be_word_value(data, 64 * i + 4 * j);
    assert(chain[i].1@ == block_words(data, i));
}

} // verus!
