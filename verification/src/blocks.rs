//! In which pieces a file is read, so that its progress can be told of.
use vstd::prelude::*;

verus! {

/// A piece of a file.
#[derive(Debug, PartialEq, Eq, Structural, Clone, Copy)]
pub struct Block {
    pub offset: usize,
    pub len: usize,
}

/// How a file is read.
#[derive(Debug)]
pub enum ReadPlan {
    /// All at once, in one step.
    Whole,
    /// In these blocks. Each is a step, and the whole is divided in `steps` parts.
    Blocks { steps: usize, blocks: Vec<Block> },
}

/// The `i`th of the blocks of `block_len` bytes that a file of `total` bytes is
/// read in: the last one is what is left.
pub open spec fn nth_block(total: int, block_len: int, i: int) -> (int, int) {
    (
        i * block_len,
        if total - i * block_len < block_len {
            total - i * block_len
        } else {
            block_len
        },
    )
}

/// These are the blocks of `block_len` bytes of a file of `total` bytes.
pub open spec fn are_blocks(blocks: Seq<Block>, total: int, block_len: int) -> bool {
    forall|i: int|
        0 <= i < blocks.len() ==> nth_block(total, block_len, i) == (
            (#[trigger] blocks[i]).offset as int,
            blocks[i].len as int,
        )
}

/// `count` blocks of `block_len` bytes are what a file of `total` bytes needs.
pub open spec fn is_enough(total: int, block_len: int, count: int) -> bool {
    &&& count > 0
    &&& block_len >= 0
    &&& (count - 1) * block_len <= total <= count * block_len
}

/// Blocks lie side by side: each starts where the one before ends, the first at
/// the start of the file, and the last ends where the file ends.
pub proof fn blocks_lie_side_by_side(total: int, block_len: int, count: int, i: int)
    requires
        is_enough(total, block_len, count),
        0 <= i < count,
    ensures
        nth_block(total, block_len, 0).0 == 0,
        0 <= nth_block(total, block_len, i).0 <= total,
        nth_block(total, block_len, i).1 >= 0,
        nth_block(total, block_len, i).0 + nth_block(total, block_len, i).1 == if i + 1 < count {
            nth_block(total, block_len, i + 1).0
        } else {
            total
        },
        nth_block(total, block_len, i).0 + nth_block(total, block_len, i).1 <= total,
{
    assert(0 * block_len == 0);
    assert((i + 1) * block_len == i * block_len + block_len) by (nonlinear_arith);
    assert(0 <= i * block_len) by (nonlinear_arith)
        requires
            0 <= i,
            0 <= block_len,
    ;
    assert(i * block_len <= (count - 1) * block_len) by (nonlinear_arith)
        requires
            i <= count - 1,
            0 <= block_len,
    ;
    if i + 1 < count {
        assert((i + 1) * block_len <= (count - 1) * block_len) by (nonlinear_arith)
            requires
                i + 1 <= count - 1,
                0 <= block_len,
        ;
    } else {
        assert(i + 1 == count);
    }
}

/// The bytes of a file that its first `n` blocks hold.
pub open spec fn read_blocks(file: Seq<u8>, block_len: int, n: int) -> Seq<u8>
    decreases n,
{
    if n <= 0 {
        seq![]
    } else {
        let block = nth_block(file.len() as int, block_len, n - 1);
        read_blocks(file, block_len, n - 1) + file.subrange(block.0, block.0 + block.1)
    }
}

/// Reading a file block by block gives the file.
pub proof fn blocks_make_up_the_file(file: Seq<u8>, block_len: int, count: int, n: int)
    requires
        is_enough(file.len() as int, block_len, count),
        0 <= n <= count,
    ensures
        n < count ==> read_blocks(file, block_len, n) == file.take(
            nth_block(file.len() as int, block_len, n).0,
        ),
        n == count ==> read_blocks(file, block_len, n) == file,
    decreases n,
{
    let total = file.len() as int;
    if n == 0 {
        assert(0 * block_len == 0);
        assert(file.take(0) =~= seq![]);
    } else {
        blocks_make_up_the_file(file, block_len, count, n - 1);
        blocks_lie_side_by_side(total, block_len, count, n - 1);
        let block = nth_block(total, block_len, n - 1);
        assert(file.take(block.0) + file.subrange(block.0, block.0 + block.1) =~= file.take(
            block.0 + block.1,
        ));
        assert(file.take(total) =~= file);
    }
}

/// The blocks of a file.
pub fn blocks_of(total: usize, block_len: usize, count: usize) -> (blocks: Vec<Block>)
    requires
        is_enough(total as int, block_len as int, count as int),
    ensures
        blocks@.len() == count,
        are_blocks(blocks@, total as int, block_len as int),
{
    let mut blocks: Vec<Block> = Vec::new();
    let mut offset: usize = 0;
    let mut i: usize = 0;
    assert(0 * block_len == 0);
    while i < count
        invariant
            is_enough(total as int, block_len as int, count as int),
            i <= count,
            blocks@.len() == i,
            i < count ==> offset == i * block_len,
            are_blocks(blocks@, total as int, block_len as int),
        decreases count - i,
    {
        proof {
            blocks_lie_side_by_side(total as int, block_len as int, count as int, i as int);
        }
        let len: usize = if total - offset < block_len {
            total - offset
        } else {
            block_len
        };
        blocks.push(Block { offset, len });
        offset = offset + len;
        i = i + 1;
    }
    blocks
}

/// Below this many bytes a file in an archive is read at once.
pub const SMALL_ENTRY: usize = 10240;

/// Below this many bytes a file on disk is read at once.
pub const SMALL_FILE: usize = 5242880;

/// How many bytes of a file are fetched from a server at once.
pub const SERVER_BLOCK: usize = 65536;

/// How a file of `len` bytes is read: at once where it is small, else in tenths
/// and what is left.
pub open spec fn is_plan(plan: ReadPlan, len: int, small: int) -> bool {
    if len < small {
        plan is Whole
    } else {
        plan matches ReadPlan::Blocks { steps, blocks } && steps == 10 && blocks@.len() == 11
            && are_blocks(blocks@, len, len / 10)
    }
}

/// Ten blocks of a tenth and what is left are enough.
pub proof fn lemma_tenths(len: int)
    requires
        len >= 90,
    ensures
        is_enough(len, len / 10, 11),
{
    assert(10 * (len / 10) <= len <= 11 * (len / 10));
}

/// Plans how a file of `len` bytes is read.
pub fn plan_read(len: usize, small: usize) -> (plan: ReadPlan)
    requires
        small >= 90,
    ensures
        is_plan(plan, len as int, small as int),
{
    if len < small {
        ReadPlan::Whole
    } else {
        proof {
            lemma_tenths(len as int);
        }
        let loop_count: usize = 10;
        let block_len: usize = len / loop_count;
        ReadPlan::Blocks { steps: loop_count, blocks: blocks_of(len, block_len, loop_count + 1) }
    }
}

/// How a file of `len` bytes is fetched from a server.
pub open spec fn is_server_plan(plan: ReadPlan, len: int) -> bool {
    plan matches ReadPlan::Blocks { steps, blocks } && steps == len / SERVER_BLOCK as int
        && blocks@.len() == len / SERVER_BLOCK as int + 1 && are_blocks(
        blocks@,
        len,
        SERVER_BLOCK as int,
    )
}

/// Plans how a file of `len` bytes is fetched from a server.
pub fn plan_fetch(len: usize) -> (plan: ReadPlan)
    ensures
        is_server_plan(plan, len as int),
        is_enough(len as int, SERVER_BLOCK as int, len / SERVER_BLOCK + 1),
{
    let loop_count: usize = len / SERVER_BLOCK;
    assert(loop_count * SERVER_BLOCK <= len <= (loop_count + 1) * SERVER_BLOCK);
    ReadPlan::Blocks {
        steps: loop_count,
        blocks: blocks_of(len, SERVER_BLOCK, loop_count + 1),
    }
}

/// These blocks cover a file of `len` bytes: the first starts where the file does, each
/// of the others where the one before ends, the last ends where the file does, and all
/// but the last are of one length.
spec fn cover(blocks: Seq<Block>, len: int, block_len: int) -> bool {
    &&& blocks.len() > 0
    &&& blocks[0].offset == 0
    &&& forall|i: int|
        0 <= i < blocks.len() - 1 ==> (#[trigger] blocks[i]).len == block_len && blocks[i].offset
            + blocks[i].len == blocks[i + 1].offset
    &&& blocks.last().offset + blocks.last().len == len
}

proof fn lemma_cover(blocks: Seq<Block>, len: int, block_len: int)
    requires
        are_blocks(blocks, len, block_len),
        is_enough(len, block_len, blocks.len() as int),
    ensures
        cover(blocks, len, block_len),
{
    let count = blocks.len() as int;
    blocks_lie_side_by_side(len, block_len, count, 0);
    blocks_lie_side_by_side(len, block_len, count, count - 1);
    assert(nth_block(len, block_len, 0) == (blocks[0].offset as int, blocks[0].len as int));
    assert forall|i: int| 0 <= i < count - 1 implies (#[trigger] blocks[i]).len == block_len
        && blocks[i].offset + blocks[i].len == blocks[i + 1].offset by {
        blocks_lie_side_by_side(len, block_len, count, i);
        assert(nth_block(len, block_len, i) == (blocks[i].offset as int, blocks[i].len as int));
        assert(nth_block(len, block_len, i + 1) == (
            blocks[i + 1].offset as int,
            blocks[i + 1].len as int,
        ));
        assert((i + 1) * block_len == i * block_len + block_len) by (nonlinear_arith);
        assert((i + 1) * block_len <= (count - 1) * block_len) by (nonlinear_arith)
            requires
                i + 1 <= count - 1,
                0 <= block_len,
        ;
    }
    assert(nth_block(len, block_len, count - 1) == (
        blocks.last().offset as int,
        blocks.last().len as int,
    ));
}

/// A plan to read a file reads all of it, once and in order: small ones at once, others
/// in ten equal parts and what is left.
pub proof fn a_plan_covers_the_file(plan: ReadPlan, len: int, small: int)
    requires
        is_plan(plan, len, small),
        small >= 90,
    ensures
        plan is Whole <==> len < small,
        small == SMALL_ENTRY ==> (plan is Whole <==> len < 10240),
        small == SMALL_FILE ==> (plan is Whole <==> len < 5242880),
        plan matches ReadPlan::Blocks { steps, blocks } ==> {
            let blocks = blocks@;
            &&& steps == 10
            &&& blocks.len() == 11
            &&& blocks[0].offset == 0
            &&& forall|i: int|
                0 <= i < 10 ==> (#[trigger] blocks[i]).len == len / 10 && blocks[i].offset
                    + blocks[i].len == blocks[i + 1].offset
            &&& blocks[10].offset + blocks[10].len == len
        },
{
    if let ReadPlan::Blocks { steps, blocks } = plan {
        lemma_tenths(len);
        lemma_cover(blocks@, len, len / 10);
    }
}

/// A plan to fetch a file from a server fetches all of it, once and in order.
pub proof fn a_plan_fetches_the_file(plan: ReadPlan, len: int)
    requires
        is_server_plan(plan, len),
        len >= 0,
    ensures
        plan matches ReadPlan::Blocks { steps, blocks } && {
            let blocks = blocks@;
            &&& steps == len / 65536
            &&& blocks.len() == len / 65536 + 1
            &&& blocks[0].offset == 0
            &&& forall|i: int|
                0 <= i < blocks.len() - 1 ==> (#[trigger] blocks[i]).len == 65536
                    && blocks[i].offset + blocks[i].len == blocks[i + 1].offset
            &&& blocks[blocks.len() - 1].offset + blocks[blocks.len() - 1].len == len
        },
{
    if let ReadPlan::Blocks { steps, blocks } = plan {
        assert(is_enough(len, 65536, len / 65536 + 1));
        lemma_cover(blocks@, len, 65536);
    }
}

} // verus!
