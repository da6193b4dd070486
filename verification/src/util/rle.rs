use vstd::prelude::*;

use crate::world::block::{Block, BLOCK_KINDS};

verus! {

/// Bytes that one run takes on the wire: a 32-bit count and a 16-bit block
/// id, both big-endian.
pub const RUN_BYTES: usize = 6;

/// `count` copies of `block`.
pub open spec fn repeat(block: Block, count: nat) -> Seq<Block> {
    Seq::new(count, |i: int| block)
}

/// The six bytes of the run `(count, id)`.
pub open spec fn run_bytes(count: u32, id: u16) -> Seq<u8> {
    seq![
        (count / 0x100_0000) as u8,
        ((count / 0x1_0000) % 0x100) as u8,
        ((count / 0x100) % 0x100) as u8,
        (count % 0x100) as u8,
        (id / 0x100) as u8,
        (id % 0x100) as u8,
    ]
}

/// The count that the first four bytes of a run spell.
pub open spec fn run_count(bytes: Seq<u8>) -> nat {
    (bytes[0] as nat) * 0x100_0000 + (bytes[1] as nat) * 0x1_0000 + (bytes[2] as nat) * 0x100
        + (bytes[3] as nat)
}

/// The block id that the last two bytes of a run spell.
pub open spec fn run_id(bytes: Seq<u8>) -> nat {
    (bytes[4] as nat) * 0x100 + (bytes[5] as nat)
}

/// The encoding of `count` copies of `curr` followed by `rest`, where the
/// copies of `curr` are a run still open at its end: it grows while `rest`
/// goes on with the same block and the count fits 32 bits.
pub open spec fn encode_from(curr: Block, count: u32, rest: Seq<Block>) -> Seq<u8>
    decreases rest.len(),
{
    if rest.len() == 0 {
        run_bytes(count, curr.id())
    } else if rest[0] == curr && count < u32::MAX {
        encode_from(curr, (count + 1) as u32, rest.skip(1))
    } else {
        run_bytes(count, curr.id()) + encode_from(rest[0], 1, rest.skip(1))
    }
}

/// The run-length encoding of a sequence of blocks: one run for every
/// maximal stretch of equal blocks, a stretch longer than a count can say
/// being cut at that length.
pub open spec fn encoded(blocks: Seq<Block>) -> Seq<u8> {
    if blocks.len() == 0 {
        Seq::empty()
    } else {
        encode_from(blocks[0], 1, blocks.skip(1))
    }
}

/// The blocks that a sequence of runs expands to. Bytes after the last whole
/// run are ignored.
pub open spec fn decoded(bytes: Seq<u8>) -> Seq<Block>
    decreases bytes.len(),
{
    if bytes.len() < 6 {
        Seq::empty()
    } else {
        repeat(Block::of_id(run_id(bytes) as u16), run_count(bytes)) + decoded(bytes.skip(6))
    }
}

/// Whether `bytes` is a sequence of whole runs that all name a known block.
pub open spec fn well_formed(bytes: Seq<u8>) -> bool {
    &&& bytes.len() % 6 == 0
    &&& forall|k: int|
        0 <= k && 6 * k + 5 < bytes.len() ==> (#[trigger] bytes[6 * k + 4] as nat) * 0x100
            + (bytes[6 * k + 5] as nat) < BLOCK_KINDS
}

/// Reading the count and the id of a run gives back what was written.
pub proof fn lemma_run_bytes(count: u32, id: u16)
    ensures
        run_bytes(count, id).len() == 6,
        run_count(run_bytes(count, id)) == count,
        run_id(run_bytes(count, id)) == id,
{
}

/// A run in front of more bytes decodes to its expansion in front of the
/// decoding of those bytes.
pub proof fn lemma_decoded_run(count: u32, block: Block, tail: Seq<u8>)
    ensures
        decoded(run_bytes(count, block.id()) + tail) == repeat(block, count as nat) + decoded(tail),
{
    let run = run_bytes(count, block.id());
    let all = run + tail;
    lemma_run_bytes(count, block.id());
    assert(all.skip(6) =~= tail);
    assert(run_count(all) == count);
    assert(run_id(all) == block.id());
}

/// Decoding the encoding of an open run and what follows it gives the run
/// and what follows it.
pub proof fn lemma_decode_encode_from(curr: Block, count: u32, rest: Seq<Block>)
    ensures
        decoded(encode_from(curr, count, rest)) == repeat(curr, count as nat) + rest,
        encode_from(curr, count, rest).len() % 6 == 0,
        encode_from(curr, count, rest).len() >= 6,
    decreases rest.len(),
{
    lemma_run_bytes(count, curr.id());
    if rest.len() == 0 {
        lemma_decoded_run(count, curr, Seq::empty());
        assert(run_bytes(count, curr.id()) + Seq::<u8>::empty() =~= run_bytes(count, curr.id()));
        assert(repeat(curr, count as nat) + decoded(Seq::empty()) =~= repeat(curr, count as nat)
            + rest);
    } else if rest[0] == curr && count < u32::MAX {
        lemma_decode_encode_from(curr, (count + 1) as u32, rest.skip(1));
        assert(repeat(curr, (count + 1) as nat) + rest.skip(1) =~= repeat(curr, count as nat)
            + rest);
    } else {
        let tail = encode_from(rest[0], 1, rest.skip(1));
        lemma_decode_encode_from(rest[0], 1, rest.skip(1));
        lemma_decoded_run(count, curr, tail);
        assert(repeat(rest[0], 1) + rest.skip(1) =~= rest);
    }
}

/// Decoding undoes encoding: for every sequence of blocks that is not
/// empty, the decoding of its encoding is the sequence itself.
pub proof fn lemma_round_trip(blocks: Seq<Block>)
    requires
        blocks.len() >= 1,
    ensures
        decoded(encoded(blocks)) == blocks,
        encoded(blocks).len() % 6 == 0,
        encoded(blocks).len() >= 6,
{
    lemma_decode_encode_from(blocks[0], 1, blocks.skip(1));
    assert(repeat(blocks[0], 1) + blocks.skip(1) =~= blocks);
}

/// Every run of an encoding names a known block.
pub proof fn lemma_encode_from_well_formed(curr: Block, count: u32, rest: Seq<Block>)
    ensures
        well_formed(encode_from(curr, count, rest)),
    decreases rest.len(),
{
    lemma_run_bytes(count, curr.id());
    let run = run_bytes(count, curr.id());
    if rest.len() == 0 {
        assert forall|k: int| 0 <= k && 6 * k + 5 < run.len() implies (#[trigger] run[6 * k
            + 4] as nat) * 0x100 + (run[6 * k + 5] as nat) < BLOCK_KINDS by {
            assert(k == 0);
        }
    } else if rest[0] == curr && count < u32::MAX {
        lemma_encode_from_well_formed(curr, (count + 1) as u32, rest.skip(1));
    } else {
        let tail = encode_from(rest[0], 1, rest.skip(1));
        lemma_encode_from_well_formed(rest[0], 1, rest.skip(1));
        lemma_decode_encode_from(rest[0], 1, rest.skip(1));
        let all = run + tail;
        assert forall|k: int| 0 <= k && 6 * k + 5 < all.len() implies (#[trigger] all[6 * k
            + 4] as nat) * 0x100 + (all[6 * k + 5] as nat) < BLOCK_KINDS by {
            if k == 0 {
                assert(all[4] == run[4] && all[5] == run[5]);
            } else {
                assert(all[6 * k + 4] == tail[6 * (k - 1) + 4]);
                assert(all[6 * k + 5] == tail[6 * (k - 1) + 5]);
            }
        }
    }
}

/// The encoding of any sequence of blocks is well formed.
pub proof fn lemma_encoded_well_formed(blocks: Seq<Block>)
    ensures
        well_formed(encoded(blocks)),
{
    if blocks.len() > 0 {
        lemma_encode_from_well_formed(blocks[0], 1, blocks.skip(1));
    }
}

fn push_run(data: &mut Vec<u8>, count: u32, block: Block)
    ensures
        final(data)@ == old(data)@ + run_bytes(count, block.id()),
{
    let id: u16 = block.to_id();
    data.push((count / 0x100_0000) as u8);
    data.push(((count / 0x1_0000) % 0x100) as u8);
    data.push(((count / 0x100) % 0x100) as u8);
    data.push((count % 0x100) as u8);
    data.push((id / 0x100) as u8);
    data.push((id % 0x100) as u8);
    assert(data@ =~= old(data)@ + run_bytes(count, block.id()));
}

/// Run-length encodes a sequence of blocks that is not empty.
pub fn encode(blocks: &[Block]) -> (data: Vec<u8>)
    requires
        blocks.len() >= 1,
    ensures
        data@ == encoded(blocks@),
        decoded(data@) == blocks@,
        well_formed(data@),
{
    let mut data: Vec<u8> = Vec::new();
    let mut curr: Block = blocks[0];
    let mut count: u32 = 1;
    let mut cursor: usize = 1;
    while cursor < blocks.len()
        invariant
            1 <= cursor <= blocks.len(),
            encoded(blocks@) == data@ + encode_from(curr, count, blocks@.skip(cursor as int)),
        decreases blocks.len() - cursor,
    {
        let next: Block = blocks[cursor];
        proof {
            assert(blocks@.skip(cursor as int).skip(1) =~= blocks@.skip(cursor + 1));
            assert(blocks@.skip(cursor as int)[0] == next);
        }
        if next == curr && count < u32::MAX {
            count = count + 1;
        } else {
            let ghost before = data@;
            push_run(&mut data, count, curr);
            proof {
                let tail = encode_from(next, 1, blocks@.skip(cursor + 1));
                assert((before + run_bytes(count, curr.id())) + tail =~= before + (run_bytes(
                    count,
                    curr.id(),
                ) + tail));
            }
            curr = next;
            count = 1;
        }
        cursor = cursor + 1;
    }
    push_run(&mut data, count, curr);
    proof {
        lemma_round_trip(blocks@);
        lemma_encoded_well_formed(blocks@);
    }
    data
}

/// What a decoder reports when the bytes cannot be expanded.
#[derive(Clone, Copy, Debug, PartialEq, Eq, Structural)]
pub enum DecodeError {
    /// The length is not a whole number of runs.
    Truncated,
    /// A run names a block id that stands for no block.
    UnknownBlock,
    /// The runs expand to more blocks than the caller allows.
    TooLong,
}

proof fn lemma_skip_run(bytes: Seq<u8>, pos: int)
    requires
        0 <= pos,
        pos + 6 <= bytes.len(),
    ensures
        bytes.skip(pos).skip(6) == bytes.skip(pos + 6),
        bytes.skip(pos).len() >= 6,
        run_count(bytes.skip(pos)) == (bytes[pos] as nat) * 0x100_0000 + (bytes[pos + 1] as nat)
            * 0x1_0000 + (bytes[pos + 2] as nat) * 0x100 + (bytes[pos + 3] as nat),
        run_id(bytes.skip(pos)) == (bytes[pos + 4] as nat) * 0x100 + (bytes[pos + 5] as nat),
{
    assert(bytes.skip(pos).skip(6) =~= bytes.skip(pos + 6));
}

fn push_repeated(blocks: &mut Vec<Block>, block: Block, count: u32)
    ensures
        final(blocks)@ == old(blocks)@ + repeat(block, count as nat),
{
    let mut j: u32 = 0;
    while j < count
        invariant
            j <= count,
            blocks@ == old(blocks)@ + repeat(block, j as nat),
        decreases count - j,
    {
        blocks.push(block);
        j = j + 1;
        assert(blocks@ =~= old(blocks)@ + repeat(block, j as nat));
    }
    assert(blocks@ =~= old(blocks)@ + repeat(block, count as nat)) by {
        if count == 0 {
            assert(repeat(block, 0) =~= Seq::<Block>::empty());
        }
    }
}

/// Expands a sequence of runs, refusing what `decode` may not be given and
/// whatever expands to more than `limit` blocks.
pub fn checked_decode(bytes: &[u8], limit: usize) -> (r: Result<Vec<Block>, DecodeError>)
    ensures
        match r {
            Ok(blocks) => well_formed(bytes@) && blocks@ == decoded(bytes@) && blocks@.len()
                <= limit,
            Err(DecodeError::Truncated) => bytes@.len() % 6 != 0,
            Err(DecodeError::UnknownBlock) => bytes@.len() % 6 == 0 && !well_formed(bytes@),
            Err(DecodeError::TooLong) => well_formed(bytes@) && decoded(bytes@).len() > limit,
        },
{
    if bytes.len() % RUN_BYTES != 0 {
        return Err(DecodeError::Truncated);
    }
    // First pass: every run names a known block.
    let mut pos: usize = 0;
    while pos < bytes.len()
        invariant
            pos <= bytes.len(),
            pos % 6 == 0,
            bytes.len() % 6 == 0,
            forall|k: int|
                0 <= k && 6 * k + 5 < pos ==> (#[trigger] bytes@[6 * k + 4] as nat) * 0x100 + (
                bytes@[6 * k + 5] as nat) < BLOCK_KINDS,
        decreases bytes.len() - pos,
    {
        let id: u16 = (bytes[pos + 4] as u16) * 0x100 + (bytes[pos + 5] as u16);
        if id >= BLOCK_KINDS {
            proof {
                let k = pos as int / 6;
                assert(6 * k == pos);
                assert(bytes@[6 * k + 4] == bytes@[pos + 4]);
            }
            return Err(DecodeError::UnknownBlock);
        }
        proof {
            let done = pos as int / 6;
            assert forall|k: int| 0 <= k && 6 * k + 5 < pos + 6 implies (#[trigger] bytes@[6 * k
                + 4] as nat) * 0x100 + (bytes@[6 * k + 5] as nat) < BLOCK_KINDS by {
                if k == done {
                    assert(6 * k == pos);
                }
            }
        }
        pos = pos + RUN_BYTES;
    }
    assert(well_formed(bytes@));
    // Second pass: expand, watching the limit.
    let mut blocks: Vec<Block> = Vec::new();
    let mut pos: usize = 0;
    proof {
        assert(bytes@.skip(0) =~= bytes@);
    }
    while pos < bytes.len()
        invariant
            pos <= bytes.len(),
            pos % 6 == 0,
            bytes.len() % 6 == 0,
            well_formed(bytes@),
            decoded(bytes@) == blocks@ + decoded(bytes@.skip(pos as int)),
            blocks@.len() <= limit,
        decreases bytes.len() - pos,
    {
        let count: u32 = (bytes[pos] as u32) * 0x100_0000 + (bytes[pos + 1] as u32) * 0x1_0000 + (
        bytes[pos + 2] as u32) * 0x100 + (bytes[pos + 3] as u32);
        let id: u16 = (bytes[pos + 4] as u16) * 0x100 + (bytes[pos + 5] as u16);
        proof {
            lemma_skip_run(bytes@, pos as int);
            let k = pos as int / 6;
            assert(6 * k == pos);
            assert(bytes@[6 * k + 4] == bytes@[pos + 4]);
        }
        let block: Block = match Block::from_id(id) {
            Some(b) => b,
            None => {
                return Err(DecodeError::UnknownBlock);
            },
        };
        if count as usize > limit - blocks.len() {
            return Err(DecodeError::TooLong);
        }
        let ghost before = blocks@;
        push_repeated(&mut blocks, block, count);
        proof {
            let rest = decoded(bytes@.skip(pos + 6));
            assert((before + repeat(block, count as nat)) + rest =~= before + (repeat(
                block,
                count as nat,
            ) + rest));
        }
        pos = pos + RUN_BYTES;
    }
    proof {
        assert(decoded(bytes@.skip(pos as int)) =~= Seq::<Block>::empty());
        assert(blocks@ + Seq::<Block>::empty() =~= blocks@);
    }
    Ok(blocks)
}

/// Expands a sequence of whole runs of known blocks.
pub fn decode(bytes: Vec<u8>) -> (blocks: Vec<Block>)
    requires
        well_formed(bytes@),
    ensures
        blocks@ == decoded(bytes@),
{
    let mut blocks: Vec<Block> = Vec::new();
    let mut pos: usize = 0;
    proof {
        assert(bytes@.skip(0) =~= bytes@);
    }
    while pos < bytes.len()
        invariant
            pos <= bytes.len(),
            pos % 6 == 0,
            well_formed(bytes@),
            decoded(bytes@) == blocks@ + decoded(bytes@.skip(pos as int)),
        decreases bytes.len() - pos,
    {
        let count: u32 = (bytes[pos] as u32) * 0x100_0000 + (bytes[pos + 1] as u32) * 0x1_0000 + (
        bytes[pos + 2] as u32) * 0x100 + (bytes[pos + 3] as u32);
        let id: u16 = (bytes[pos + 4] as u16) * 0x100 + (bytes[pos + 5] as u16);
        proof {
            lemma_skip_run(bytes@, pos as int);
            let k = pos as int / 6;
            assert(6 * k == pos);
            assert(bytes@[6 * k + 4] == bytes@[pos + 4]);
        }
        let block: Block = match Block::from_id(id) {
            Some(b) => b,
            None => Block::Air,
        };
        let ghost before = blocks@;
        push_repeated(&mut blocks, block, count);
        proof {
            let rest = decoded(bytes@.skip(pos + 6));
            assert((before + repeat(block, count as nat)) + rest =~= before + (repeat(
                block,
                count as nat,
            ) + rest));
        }
        pos = pos + RUN_BYTES;
    }
    proof {
        assert(decoded(bytes@.skip(pos as int)) =~= Seq::<Block>::empty());
        assert(blocks@ + Seq::<Block>::empty() =~= blocks@);
    }
    blocks
}

} // verus!
