//! Pieces: the blocks in which a piece is requested, putting received
//! blocks back together, and checking a piece against its SHA-1 hash.

use std::collections::HashMap;

use sha1::{Digest, Sha1};
use vstd::prelude::*;

use crate::decimal::{ascii_chars, decimal, numeral_message};

verus! {

/// The size of a requested block, 16 KiB.
pub const BLOCK_LEN: usize = 16384;

/// One block of a piece: where it starts and how long it is.
#[derive(Debug, Clone, Copy, PartialEq, Eq, Structural)]
pub struct BlockRange {
    pub begin: u32,
    pub length: u32,
}

/// The number of blocks of a piece of `piece_length` bytes.
pub open spec fn block_count(piece_length: nat) -> nat {
    ((piece_length + BLOCK_LEN - 1) / (BLOCK_LEN as int)) as nat
}

/// Block `i` of a piece of `piece_length` bytes: it starts at `i` blocks,
/// and is a whole block but for the last one, which ends with the piece.
/// The start is written as 32 bits, as the wire protocol holds it.
pub open spec fn block_at(piece_length: nat, i: nat) -> BlockRange {
    let begin = i * BLOCK_LEN;
    let left = piece_length - begin;
    BlockRange {
        begin: begin as u32,
        length: (if left < BLOCK_LEN {
            left
        } else {
            BLOCK_LEN as int
        }) as u32,
    }
}

/// The blocks of a piece of `piece_length` bytes, in order.
pub fn block_ranges(piece_length: usize) -> (ranges: Vec<BlockRange>)
    ensures
        ranges@.len() == block_count(piece_length as nat),
        forall|i: int|
            0 <= i < ranges@.len() ==> #[trigger] ranges@[i] == block_at(piece_length as nat, i as nat),
{
    let mut ranges: Vec<BlockRange> = Vec::new();
    let mut begin: usize = 0;
    while begin < piece_length
        invariant
            begin <= piece_length,
            begin == if ranges@.len() * BLOCK_LEN <= piece_length {
                ranges@.len() * BLOCK_LEN
            } else {
                piece_length as int
            },
            ranges@.len() > 0 ==> (ranges@.len() - 1) * BLOCK_LEN < piece_length,
            forall|i: int|
                0 <= i < ranges@.len() ==> #[trigger] ranges@[i] == block_at(
                    piece_length as nat,
                    i as nat,
                ),
        decreases piece_length - begin,
    {
        let left = piece_length - begin;
        let length = if left < BLOCK_LEN {
            left as u32
        } else {
            BLOCK_LEN as u32
        };
        let ghost i = ranges@.len();
        ranges.push(BlockRange { begin: begin as u32, length });
        assert(ranges@[i as int] == block_at(piece_length as nat, i as nat));
        begin = begin + length as usize;
    }
    ranges
}

/// The blocks tile the piece: each is non-empty and at most a block long,
/// each starts where the one before it ended, all but the last are whole
/// blocks, and the last ends where the piece ends.
pub proof fn lemma_blocks_tile(piece_length: nat, i: nat)
    requires
        piece_length <= u32::MAX,
        i < block_count(piece_length),
    ensures
        block_at(piece_length, i).begin == i * BLOCK_LEN,
        0 < block_at(piece_length, i).length <= BLOCK_LEN,
        i * BLOCK_LEN + block_at(piece_length, i).length <= piece_length,
        i + 1 < block_count(piece_length) ==> block_at(piece_length, i).length == BLOCK_LEN
            && block_at(piece_length, i + 1).begin == block_at(piece_length, i).begin + BLOCK_LEN,
        i + 1 == block_count(piece_length) ==> i * BLOCK_LEN + block_at(piece_length, i).length
            == piece_length,
{
}

/// `blocks` holds, at the start of each block of a piece, the bytes of
/// `data` that the block covers.
pub open spec fn holds_blocks_of(blocks: Map<u32, Vec<u8>>, data: Seq<u8>) -> bool {
    forall|i: nat|
        i < block_count(data.len()) ==> {
            let b = #[trigger] block_at(data.len(), i);
            &&& blocks.contains_key(b.begin)
            &&& blocks[b.begin]@ == data.subrange(b.begin as int, b.begin + b.length)
        }
}

/// Cutting a piece into the blocks of `block_ranges` and putting them
/// together again gives the piece back.
pub proof fn lemma_assemble_block_ranges(blocks: Map<u32, Vec<u8>>, data: Seq<u8>)
    requires
        data.len() <= u32::MAX,
        holds_blocks_of(blocks, data),
    ensures
        assembly(data.len(), blocks, 0) == Some(Ok::<Seq<u8>, Seq<char>>(data)),
{
    if data.len() == 0 {
        assert(data =~= Seq::<u8>::empty());
    } else {
        lemma_assembly_from_block(blocks, data, 0);
        assert(data.skip(0) =~= data);
    }
}

proof fn lemma_assembly_from_block(blocks: Map<u32, Vec<u8>>, data: Seq<u8>, i: nat)
    requires
        data.len() <= u32::MAX,
        holds_blocks_of(blocks, data),
        i < block_count(data.len()),
    ensures
        assembly(data.len(), blocks, (i * BLOCK_LEN) as nat) == Some(
            Ok::<Seq<u8>, Seq<char>>(data.skip(i * BLOCK_LEN)),
        ),
    decreases block_count(data.len()) - i,
{
    let len = data.len();
    let b = block_at(len, i);
    lemma_blocks_tile(len, i);
    let offset = (i * BLOCK_LEN) as nat;
    assert((offset as u32) == b.begin);
    let block = blocks[b.begin]@;
    assert(block == data.subrange(offset as int, offset + b.length));
    if i + 1 < block_count(len) {
        lemma_assembly_from_block(blocks, data, i + 1);
        assert(offset + block.len() == (i + 1) * BLOCK_LEN);
        assert(block + data.skip((i + 1) * BLOCK_LEN) =~= data.skip(offset as int));
    } else {
        assert(offset + block.len() == len);
        assert(data.skip(len as int) =~= Seq::<u8>::empty());
        assert(block + Seq::<u8>::empty() =~= data.skip(offset as int));
    }
}

/// The outcome of putting a piece together from offset `offset` on: the
/// bytes, or a message; `None` where an empty block stands in the way and
/// the assembly would never end.
pub open spec fn assembly(piece_length: nat, blocks: Map<u32, Vec<u8>>, offset: nat) -> Option<
    Result<Seq<u8>, Seq<char>>,
>
    decreases piece_length - offset,
{
    if offset >= piece_length {
        Some(Ok(Seq::empty()))
    } else if !blocks.contains_key(offset as u32) {
        Some(Err("missing block starting at "@ + ascii_chars(decimal(offset)) + ""@))
    } else {
        let block = blocks[offset as u32]@;
        if block.len() > piece_length - offset {
            Some(Err("block at "@ + ascii_chars(decimal(offset)) + " exceeds piece bounds"@))
        } else if block.len() == 0 {
            None
        } else {
            match assembly(piece_length, blocks, offset + block.len()) {
                Some(Ok(rest)) => Some(Ok(block + rest)),
                other => other,
            }
        }
    }
}

/// Where no block is empty, putting a piece together always ends, so
/// `assemble_piece` may be called.
pub proof fn lemma_assembly_ends(piece_length: nat, blocks: Map<u32, Vec<u8>>, offset: nat)
    requires
        forall|k: u32| #[trigger] blocks.contains_key(k) ==> blocks[k]@.len() > 0,
    ensures
        assembly(piece_length, blocks, offset) is Some,
    decreases piece_length - offset,
{
    if offset < piece_length && blocks.contains_key(offset as u32) {
        let block = blocks[offset as u32]@;
        if block.len() <= piece_length - offset {
            lemma_assembly_ends(piece_length, blocks, offset + block.len());
        }
    }
}

/// What assembling gives from offset `offset` on is exactly as long as what
/// is left of the piece, and begins with the block stored at `offset`.
pub proof fn lemma_assembly_result(piece_length: nat, blocks: Map<u32, Vec<u8>>, offset: nat)
    requires
        offset <= piece_length,
    ensures
        assembly(piece_length, blocks, offset) matches Some(Ok(p)) ==> {
            &&& p.len() == piece_length - offset
            &&& offset < piece_length ==> blocks.contains_key(offset as u32) && p.take(
                blocks[offset as u32]@.len() as int,
            ) == blocks[offset as u32]@
        },
    decreases piece_length - offset,
{
    if offset < piece_length && blocks.contains_key(offset as u32) {
        let block = blocks[offset as u32]@;
        if block.len() <= piece_length - offset && block.len() > 0 {
            lemma_assembly_result(piece_length, blocks, offset + block.len());
            if let Some(Ok(rest)) = assembly(piece_length, blocks, offset + block.len()) {
                assert((block + rest).take(block.len() as int) =~= block);
            }
        }
    }
}

/// A block missing where the assembly has got to makes it fail: a piece is
/// only ever given whole.
pub proof fn lemma_missing_block_fails(piece_length: nat, blocks: Map<u32, Vec<u8>>, offset: nat)
    requires
        offset < piece_length,
        !blocks.contains_key(offset as u32),
    ensures
        assembly(piece_length, blocks, offset) matches Some(Err(_)),
{
}

/// `outcome` with `prefix` put in front of the bytes it holds.
pub open spec fn after_prefix(prefix: Seq<u8>, outcome: Option<Result<Seq<u8>, Seq<char>>>) -> Option<
    Result<Seq<u8>, Seq<char>>,
> {
    match outcome {
        Some(Ok(rest)) => Some(Ok(prefix + rest)),
        other => other,
    }
}

/// Puts a piece of `piece_length` bytes together from its blocks, keyed by
/// the offset at which each starts.
pub fn assemble_piece(piece_length: usize, blocks: &HashMap<u32, Vec<u8>>) -> (r: Result<
    Vec<u8>,
    String,
>)
    requires
        assembly(piece_length as nat, blocks@, 0) is Some,
    ensures
        r matches Ok(piece) ==> piece@.len() == piece_length,
        match r {
            Ok(piece) => assembly(piece_length as nat, blocks@, 0) == Some(
                Ok::<Seq<u8>, Seq<char>>(piece@),
            ),
            Err(e) => assembly(piece_length as nat, blocks@, 0) == Some(
                Err::<Seq<u8>, Seq<char>>(e@),
            ),
        },
{
    broadcast use vstd::std_specs::hash::group_hash_axioms;

    proof {
        lemma_assembly_result(piece_length as nat, blocks@, 0);
    }
    let ghost target = assembly(piece_length as nat, blocks@, 0);
    let mut piece: Vec<u8> = Vec::with_capacity(piece_length);
    let mut offset: usize = 0;
    assert(piece@ + Seq::<u8>::empty() =~= piece@);
    while offset < piece_length
        invariant
            offset <= piece_length,
            target == assembly(piece_length as nat, blocks@, 0),
            target is Some,
            target == after_prefix(piece@, assembly(piece_length as nat, blocks@, offset as nat)),
        decreases piece_length - offset,
    {
        let block = match blocks.get(&(offset as u32)) {
            Some(block) => block,
            None => {
                return Err(numeral_message("missing block starting at ", offset as u64, ""));
            },
        };
        if block.len() > piece_length - offset {
            return Err(numeral_message("block at ", offset as u64, " exceeds piece bounds"));
        }
        let ghost before = piece@;
        piece.extend_from_slice(block.as_slice());
        offset = offset + block.len();
        proof {
            match assembly(piece_length as nat, blocks@, offset as nat) {
                Some(Ok(rest)) => {
                    assert(before + (block@ + rest) =~= piece@ + rest);
                },
                _ => {},
            }
        }
    }
    assert(piece@ + Seq::<u8>::empty() =~= piece@);
    Ok(piece)
}

/// The SHA-1 digest of `data`.
pub uninterp spec fn sha1_of(data: Seq<u8>) -> Seq<u8>;

/// `Sha1::digest` of the sha1 crate. Trusted: it gives the SHA-1 digest of
/// `data`, which depends on `data` alone; nothing more of the digest is
/// stated.
#[verifier::external_body]
fn sha1_digest(data: &[u8]) -> (digest: [u8; 20])
    ensures
        digest@ == sha1_of(data@),
{
    Sha1::digest(data).into()
}

/// Compares a piece's digest with the hash that the metainfo gives for it.
pub fn check_piece_hash(expected_hash: &[u8; 20], actual: &[u8; 20]) -> (r: Result<(), String>)
    ensures
        r is Ok <==> actual@ == expected_hash@,
        r matches Err(e) ==> e@ == "piece hash mismatch"@,
{
    let mut i: usize = 0;
    while i < 20
        invariant
            i <= 20,
            forall|j: int| 0 <= j < i ==> actual@[j] == expected_hash@[j],
        decreases 20 - i,
    {
        if actual[i] != expected_hash[i] {
            assert(actual@[i as int] != expected_hash@[i as int]);
            return Err(String::from_str("piece hash mismatch"));
        }
        i = i + 1;
    }
    assert(actual@ =~= expected_hash@);
    Ok(())
}

/// Checks a piece against the SHA-1 hash that the metainfo gives for it.
pub fn verify_piece(expected_hash: &[u8; 20], piece_data: &[u8]) -> (r: Result<(), String>)
    ensures
        r is Ok <==> sha1_of(piece_data@) == expected_hash@,
        r matches Err(e) ==> e@ == "piece hash mismatch"@,
{
    let actual = sha1_digest(piece_data);
    check_piece_hash(expected_hash, &actual)
}

} // verus!
