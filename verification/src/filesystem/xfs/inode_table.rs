//! Location of XFS inodes.

use vstd::arithmetic::power2::{lemma2_to64, lemma_pow2_adds, pow2};
use vstd::prelude::*;

use super::superblock::{XFS_INODE_NUMBER_LIMIT, XfsGeometry};
use crate::bytes::{holds_be, lemma_holds_be, read_u16_be, read_u32_be, u16_be, u32_be};
use crate::error::DriverError;
use crate::powers::{lemma_power_below, power_of_two};
use crate::source::data_source::{
    lemma_holds_in, read_bytes, Content, DataSource, DataSourceReference,
};

verus! {

/// The block of a file system that a file system block number stands for: an allocation group and
/// a block in it.
pub open spec fn absolute_block(geometry: XfsGeometry, number: u64) -> Result<u64, DriverError> {
    let group = number as int / geometry.group_blocks();
    let block = number as int % geometry.group_blocks();
    if group >= geometry.number_of_allocation_groups || block
        >= geometry.allocation_group_block_size {
        Err(DriverError::OutOfBounds)
    } else {
        Ok((group * geometry.allocation_group_block_size + block) as u64)
    }
}

/// The block of a file system with a number in an allocation group.
pub open spec fn group_block(geometry: XfsGeometry, group: int, block: int) -> int {
    group * geometry.allocation_group_block_size + block
}

/// The root of the inode B-tree of an allocation group and the number of its levels. They are
/// stored in the third sector of the group, which has the signature "XAGI".
pub open spec fn inode_btree_root(content: Content, geometry: XfsGeometry, group: int) -> Result<
    (u32, u32),
    DriverError,
> {
    let offset = group_block(geometry, group, 0) * geometry.block_size;
    if offset + 2 * geometry.sector_size > u64::MAX {
        Err(DriverError::Overflow)
    } else {
        match content.exact(offset + 2 * geometry.sector_size, geometry.sector_size as nat) {
            Err(error) => Err(error),
            Ok(data) => if u32_be(data, 0) != 0x5841_4749 {
                Err(DriverError::Unsupported)
            } else {
                Ok((u32_be(data, 20), u32_be(data, 24)))
            },
        }
    }
}

/// The size of the header of an inode B-tree block, which has the signature "IAB3" or "IABT".
pub open spec fn btree_header_size(data: Seq<u8>) -> Option<int> {
    if u32_be(data, 0) == 0x4941_4233 {
        Some(56)
    } else if u32_be(data, 0) == 0x4941_4254 {
        Some(16)
    } else {
        None
    }
}

/// Whether one of the records of a leaf from `index` on covers an inode. A record covers 64 inodes.
pub open spec fn leaf_covers(data: Seq<u8>, header_size: int, inode: int, index: int) -> Result<
    bool,
    DriverError,
>
    decreases u16_be(data, 6) - index,
{
    let offset = header_size + 16 * index;
    if index >= u16_be(data, 6) {
        Ok(false)
    } else if offset + 16 > data.len() {
        Err(DriverError::OutOfBounds)
    } else if u32_be(data, offset) <= inode < u32_be(data, offset) + 64 {
        Ok(true)
    } else {
        leaf_covers(data, header_size, inode, index + 1)
    }
}

/// The number of keys of a branch, from `index` on and before it, up to the first one that lies
/// behind an inode.
pub open spec fn keys_before(data: Seq<u8>, header_size: int, inode: int, index: int) -> int
    decreases u16_be(data, 6) - index,
{
    if index >= u16_be(data, 6) || inode < u32_be(data, header_size + 4 * index) {
        index
    } else {
        keys_before(data, header_size, inode, index + 1)
    }
}

/// Whether an inode B-tree covers an inode. Of the block at a number and those below it, at most
/// `depth` levels are visited.
pub open spec fn btree_covers(
    content: Content,
    geometry: XfsGeometry,
    group: int,
    block: int,
    inode: int,
    depth: nat,
) -> Result<bool, DriverError>
    decreases depth,
{
    let offset = group_block(geometry, group, block) * geometry.block_size;
    if depth == 0 {
        Err(DriverError::LimitExceeded)
    } else if offset > u64::MAX {
        Err(DriverError::Overflow)
    } else {
        match content.exact(offset, geometry.block_size as nat) {
            Err(error) => Err(error),
            Ok(data) => match btree_header_size(data) {
                None => Err(DriverError::Unsupported),
                Some(header_size) => {
                    let pairs = (data.len() - header_size) / 8;
                    let keys = keys_before(data, header_size, inode, 0);
                    let child = u32_be(data, header_size + 4 * (pairs + keys - 1));
                    if u16_be(data, 4) == 0 {
                        leaf_covers(data, header_size, inode, 0)
                    } else if u16_be(data, 6) > pairs {
                        Err(DriverError::OutOfBounds)
                    } else if keys == 0 {
                        Ok(false)
                    } else if child >= geometry.allocation_group_block_size {
                        Err(DriverError::OutOfBounds)
                    } else {
                        btree_covers(
                            content,
                            geometry,
                            group,
                            child as int,
                            inode,
                            (depth - 1) as nat,
                        )
                    }
                },
            },
        }
    }
}

/// Whether the inode B-tree of an allocation group covers an inode.
pub open spec fn group_covers(
    content: Content,
    geometry: XfsGeometry,
    group: int,
    inode: int,
) -> Result<bool, DriverError> {
    match inode_btree_root(content, geometry, group) {
        Err(error) => Err(error),
        Ok((root, levels)) => if root == 0 || levels == 0 {
            Ok(false)
        } else {
            btree_covers(content, geometry, group, root as int, inode, 129)
        },
    }
}

/// The offset of the inode with a number. Its upper bits are the allocation group, the others the
/// block in the group and the inode in the block. The inode B-tree of the group has to cover it.
pub open spec fn inode_offset(content: Content, geometry: XfsGeometry, inode_number: u64) -> Result<
    u64,
    DriverError,
> {
    let number = inode_number as int % XFS_INODE_NUMBER_LIMIT as int;
    let group = number / geometry.group_inodes();
    let inode = number % geometry.group_inodes();
    let block = inode / geometry.block_inodes();
    let offset = group_block(geometry, group, block) * geometry.block_size + (inode
        % geometry.block_inodes()) * geometry.inode_size;
    if number == 0 || group >= geometry.number_of_allocation_groups || block
        >= geometry.allocation_group_block_size {
        Err(DriverError::OutOfBounds)
    } else {
        match group_covers(content, geometry, group, inode) {
            Err(error) => Err(error),
            Ok(false) => Err(DriverError::Missing),
            Ok(true) => if offset > u64::MAX {
                Err(DriverError::Overflow)
            } else {
                Ok(offset as u64)
            },
        }
    }
}

/// A file system block number has the block in the allocation group in its lower bits, and the group in
/// the others. The groups follow each other, each with the same number of blocks.
pub proof fn lemma_absolute_block(geometry: XfsGeometry, number: u64, group: int, block: int)
    requires
        number == group * pow2(geometry.relative_block_bits as nat) + block,
        0 <= group < geometry.number_of_allocation_groups,
        0 <= block < geometry.allocation_group_block_size,
        block < pow2(geometry.relative_block_bits as nat),
    ensures
        absolute_block(geometry, number) == Ok::<u64, DriverError>(
            (group * geometry.allocation_group_block_size + block) as u64,
        ),
        0 <= group * geometry.allocation_group_block_size + block <= u64::MAX,
{
    vstd::arithmetic::div_mod::lemma_fundamental_div_mod_converse(
        number as int,
        pow2(geometry.relative_block_bits as nat) as int,
        group,
        block,
    );
    let size = geometry.allocation_group_block_size as int;
    assert(0 <= group * size <= 0xffff_ffff * 0xffff_ffff) by (nonlinear_arith)
        requires
            0 <= group <= 0xffff_ffff,
            0 <= size <= 0xffff_ffff,
    ;
}

/// An inode number has the inode in its block in its lowest bits, then the block in the allocation group,
/// and the group in the others. The inode lies as many inodes behind the start of its block.
pub proof fn lemma_inode_place(
    content: Content,
    geometry: XfsGeometry,
    number: u64,
    group: int,
    block: int,
    index: int,
)
    requires
        geometry.is_usable(),
        number == (group * pow2(geometry.relative_block_bits as nat) + block) * pow2(
            geometry.inodes_per_block_log2 as nat,
        ) + index,
        0 < number < 0x100_0000_0000_0000,
        0 <= group < geometry.number_of_allocation_groups,
        0 <= block < geometry.allocation_group_block_size,
        block < pow2(geometry.relative_block_bits as nat),
        0 <= index < pow2(geometry.inodes_per_block_log2 as nat),
        group_covers(
            content,
            geometry,
            group,
            block * pow2(geometry.inodes_per_block_log2 as nat) + index,
        ) == Ok::<bool, DriverError>(true),
        (group * geometry.allocation_group_block_size + block) * geometry.block_size + index
            * geometry.inode_size <= u64::MAX,
    ensures
        inode_offset(content, geometry, number) == Ok::<u64, DriverError>(
            ((group * geometry.allocation_group_block_size + block) * geometry.block_size + index
                * geometry.inode_size) as u64,
        ),
{
    lemma_number_parts(geometry, number as int, group, block, index);
    let inode = block * pow2(geometry.inodes_per_block_log2 as nat) + index;
    let covers = group_covers(content, geometry, group, inode);
    assert(number as int % XFS_INODE_NUMBER_LIMIT as int == number);
    assert(covers == Ok::<bool, DriverError>(true));
    assert(group_block(geometry, group, block) == group * geometry.allocation_group_block_size
        + block);
}

proof fn lemma_number_parts(geometry: XfsGeometry, number: int, group: int, block: int, index: int)
    requires
        number == (group * pow2(geometry.relative_block_bits as nat) + block) * pow2(
            geometry.inodes_per_block_log2 as nat,
        ) + index,
        0 <= group,
        0 <= block < pow2(geometry.relative_block_bits as nat),
        0 <= index < pow2(geometry.inodes_per_block_log2 as nat),
    ensures
        number / geometry.group_inodes() == group,
        number % geometry.group_inodes() == block * pow2(geometry.inodes_per_block_log2 as nat)
            + index,
        (block * pow2(geometry.inodes_per_block_log2 as nat) + index) / geometry.block_inodes()
            == block,
        (block * pow2(geometry.inodes_per_block_log2 as nat) + index) % geometry.block_inodes()
            == index,
{
    let a = pow2(geometry.relative_block_bits as nat) as int;
    let b = pow2(geometry.inodes_per_block_log2 as nat) as int;
    lemma_pow2_adds(geometry.relative_block_bits as nat, geometry.inodes_per_block_log2 as nat);
    assert(geometry.group_inodes() == a * b);
    let inode = block * b + index;
    assert(number == group * (a * b) + inode) by (nonlinear_arith)
        requires
            number == (group * a + block) * b + index,
            inode == block * b + index,
    ;
    assert(0 <= inode < a * b) by (nonlinear_arith)
        requires
            inode == block * b + index,
            0 <= block < a,
            0 <= index < b,
    ;
    vstd::arithmetic::div_mod::lemma_fundamental_div_mod_converse(
        number,
        a * b,
        group,
        inode,
    );
    vstd::arithmetic::div_mod::lemma_fundamental_div_mod_converse(inode, b, block, index);
}

/// Whether the records of a leaf of an inode B-tree are stored behind its header, each with the number
/// of the first of 64 inodes.
pub open spec fn holds_leaf(data: Seq<u8>, header_size: int, starts: Seq<int>) -> bool {
    &&& holds_be(data, 6, 2, starts.len() as int)
    &&& header_size + 16 * starts.len() <= data.len()
    &&& 0 <= header_size
    &&& forall|i: int|
        0 <= i < starts.len() ==> holds_be(data, header_size + 16 * i, 4, #[trigger] starts[i])
}

/// A leaf covers exactly the inodes of which one of its records is that of the 64.
pub proof fn lemma_leaf_covers(data: Seq<u8>, header_size: int, starts: Seq<int>, inode: int)
    requires
        holds_leaf(data, header_size, starts),
    ensures
        leaf_covers(data, header_size, inode, 0) == Ok::<bool, DriverError>(
            exists|i: int| 0 <= i < starts.len() && (#[trigger] starts[i]) <= inode < starts[i] + 64,
        ),
{
    lemma_leaf_covers_from(data, header_size, starts, inode, 0);
}

proof fn lemma_leaf_covers_from(
    data: Seq<u8>,
    header_size: int,
    starts: Seq<int>,
    inode: int,
    index: int,
)
    requires
        holds_leaf(data, header_size, starts),
        0 <= index <= starts.len(),
    ensures
        leaf_covers(data, header_size, inode, index) == Ok::<bool, DriverError>(
            exists|i: int|
                index <= i < starts.len() && (#[trigger] starts[i]) <= inode < starts[i] + 64,
        ),
    decreases starts.len() - index,
{
    lemma_holds_be(data, 6, 2, starts.len() as int);
    if index < starts.len() {
        assert(holds_be(data, header_size + 16 * index, 4, starts[index]));
        lemma_holds_be(data, header_size + 16 * index, 4, starts[index]);
        lemma_leaf_covers_from(data, header_size, starts, inode, index + 1);
        if !(starts[index] <= inode < starts[index] + 64) {
            if exists|i: int|
                index <= i < starts.len() && (#[trigger] starts[i]) <= inode < starts[i] + 64 {
                let i = choose|i: int|
                    index <= i < starts.len() && (#[trigger] starts[i]) <= inode < starts[i] + 64;
                assert(index + 1 <= i);
            }
        }
    }
}

/// Whether the root of the inode B-tree of an allocation group is stored: in its third sector, behind
/// the characters "XAGI", its block and the number of its levels.
pub open spec fn holds_btree_root(
    content: Content,
    geometry: XfsGeometry,
    group: int,
    root: int,
    levels: int,
) -> bool {
    let offset = group * geometry.allocation_group_block_size * geometry.block_size + 2
        * geometry.sector_size;
    &&& offset <= u64::MAX
    &&& content.has(offset, geometry.sector_size as int)
    &&& content.bytes[offset] == 0x58
    &&& content.bytes[offset + 1] == 0x41
    &&& content.bytes[offset + 2] == 0x47
    &&& content.bytes[offset + 3] == 0x49
    &&& content.holds_be(offset + 20, 4, root)
    &&& content.holds_be(offset + 24, 4, levels)
}

/// An inode B-tree of one level covers the inodes of the records in its only block. The block starts
/// with "IABT" and a header of 16 bytes, or with "IAB3" and one of 56.
pub proof fn lemma_single_level_covers(
    content: Content,
    geometry: XfsGeometry,
    group: int,
    root: int,
    levels: int,
    starts: Seq<int>,
    is_version5: bool,
    inode: int,
)
    requires
        geometry.is_usable(),
        0 <= group,
        holds_btree_root(content, geometry, group, root, levels),
        0 < root,
        0 < levels,
        ({
            let offset = (group * geometry.allocation_group_block_size + root)
                * geometry.block_size;
            let data = content.window(offset, geometry.block_size as nat);
            &&& offset <= u64::MAX
            &&& content.has(offset, geometry.block_size as int)
            &&& data[0] == 0x49 && data[1] == 0x41 && data[2] == 0x42
            &&& data[3] == (if is_version5 {
                0x33u8
            } else {
                0x54
            })
            &&& holds_be(data, 4, 2, 0)
            &&& holds_leaf(
                data,
                if is_version5 {
                    56
                } else {
                    16
                },
                starts,
            )
        }),
    ensures
        group_covers(content, geometry, group, inode) == Ok::<bool, DriverError>(
            exists|i: int| 0 <= i < starts.len() && (#[trigger] starts[i]) <= inode < starts[i] + 64,
        ),
{
    let at = group * geometry.allocation_group_block_size * geometry.block_size + 2
        * geometry.sector_size;
    let sector = content.window(at, geometry.sector_size as nat);
    lemma_holds_in(content, at, geometry.sector_size as nat, 20, 4, root);
    lemma_holds_in(content, at, geometry.sector_size as nat, 24, 4, levels);
    lemma_holds_be(sector, 20, 4, root);
    lemma_holds_be(sector, 24, 4, levels);
    assert(sector[0] == 0x58 && sector[1] == 0x41 && sector[2] == 0x47 && sector[3] == 0x49);
    assert(u32_be(sector, 0) == 0x5841_4749);
    let offset = (group * geometry.allocation_group_block_size + root) * geometry.block_size;
    let data = content.window(offset, geometry.block_size as nat);
    lemma_holds_be(data, 4, 2, 0);
    let header_size = if is_version5 {
        56
    } else {
        16
    };
    assert(btree_header_size(data) == Some(header_size));
    lemma_leaf_covers(data, header_size, starts, inode);
}

/// The way through a branch of an inode B-tree leads to the last key that does not lie behind an inode.
pub proof fn lemma_keys_before(
    data: Seq<u8>,
    header_size: int,
    keys: Seq<int>,
    inode: int,
    index: int,
)
    requires
        holds_be(data, 6, 2, keys.len() as int),
        forall|i: int|
            0 <= i < keys.len() ==> holds_be(data, header_size + 4 * i, 4, #[trigger] keys[i]),
        0 <= index <= keys.len(),
    ensures
        ({
            let count = keys_before(data, header_size, inode, index);
            &&& index <= count <= keys.len()
            &&& forall|i: int| index <= i < count ==> (#[trigger] keys[i]) <= inode
            &&& count < keys.len() ==> inode < keys[count]
        }),
    decreases keys.len() - index,
{
    lemma_holds_be(data, 6, 2, keys.len() as int);
    if index < keys.len() {
        assert(holds_be(data, header_size + 4 * index, 4, keys[index]));
        lemma_holds_be(data, header_size + 4 * index, 4, keys[index]);
        if inode >= keys[index] {
            lemma_keys_before(data, header_size, keys, inode, index + 1);
        }
    }
}

/// A branch of an inode B-tree leads an inode to the block whose key is the last one that does not lie
/// behind the inode. The keys stand behind the header, and the numbers of the blocks behind the space
/// for as many keys as there is room for pairs.
pub proof fn lemma_branch_covers(
    content: Content,
    geometry: XfsGeometry,
    group: int,
    block: int,
    inode: int,
    depth: nat,
    is_version5: bool,
    level: int,
    keys: Seq<int>,
    children: Seq<int>,
    at: int,
)
    requires
        geometry.is_usable(),
        0 < depth,
        0 < level,
        keys.len() == children.len(),
        0 <= at < keys.len(),
        forall|i: int| 0 <= i <= at ==> (#[trigger] keys[i]) <= inode,
        at + 1 < keys.len() ==> inode < keys[at + 1],
        0 <= children[at] < geometry.allocation_group_block_size,
        ({
            let offset = (group * geometry.allocation_group_block_size + block)
                * geometry.block_size;
            let data = content.window(offset, geometry.block_size as nat);
            let header_size = if is_version5 {
                56int
            } else {
                16
            };
            let pairs = (geometry.block_size - header_size) / 8;
            &&& offset <= u64::MAX
            &&& content.has(offset, geometry.block_size as int)
            &&& data[0] == 0x49 && data[1] == 0x41 && data[2] == 0x42
            &&& data[3] == (if is_version5 {
                0x33u8
            } else {
                0x54
            })
            &&& holds_be(data, 4, 2, level)
            &&& holds_be(data, 6, 2, keys.len() as int)
            &&& keys.len() <= pairs
            &&& forall|i: int|
                0 <= i < keys.len() ==> holds_be(data, header_size + 4 * i, 4, #[trigger] keys[i])
            &&& forall|i: int|
                0 <= i < children.len() ==> holds_be(
                    data,
                    header_size + 4 * pairs + 4 * i,
                    4,
                    #[trigger] children[i],
                )
        }),
    ensures
        btree_covers(content, geometry, group, block, inode, depth) == btree_covers(
            content,
            geometry,
            group,
            children[at],
            inode,
            (depth - 1) as nat,
        ),
{
    let offset = (group * geometry.allocation_group_block_size + block) * geometry.block_size;
    let data = content.window(offset, geometry.block_size as nat);
    let header_size = if is_version5 {
        56int
    } else {
        16
    };
    let pairs = (geometry.block_size - header_size) / 8;
    lemma_holds_be(data, 4, 2, level);
    lemma_holds_be(data, 6, 2, keys.len() as int);
    assert(btree_header_size(data) == Some(header_size));
    lemma_keys_before(data, header_size, keys, inode, 0);
    let count = keys_before(data, header_size, inode, 0);
    assert(count == at + 1) by {
        if count <= at {
            assert(keys[count] <= inode);
        } else if count > at + 1 {
            assert(keys[at + 1] <= inode);
        }
    }
    assert(holds_be(data, header_size + 4 * pairs + 4 * at, 4, children[at]));
    lemma_holds_be(data, header_size + 4 * pairs + 4 * at, 4, children[at]);
    assert(header_size + 4 * (pairs + count - 1) == header_size + 4 * pairs + 4 * at);
}

/// Calculates the block of a file system with a number in an allocation group.
fn get_group_block(geometry: &XfsGeometry, group: u32, block: u32) -> (number: u64)
    ensures
        number == group_block(*geometry, group as int, block as int),
{
    let size: u32 = geometry.allocation_group_block_size;
    proof {
        assert(0 <= group * size <= 0xffff_ffff * 0xffff_ffff) by (nonlinear_arith)
            requires
                0 <= group <= 0xffff_ffff,
                0 <= size <= 0xffff_ffff,
        ;
    }
    group as u64 * size as u64 + block as u64
}

/// Determines the block that a file system block number stands for.
pub(crate) fn get_absolute_block(geometry: &XfsGeometry, number: u64) -> (result: Result<
    u64,
    DriverError,
>)
    requires
        geometry.is_usable(),
    ensures
        result == absolute_block(*geometry, number),
{
    let divisor: u64 = power_of_two(geometry.relative_block_bits as u32);
    let group: u64 = number / divisor;
    let block: u64 = number % divisor;
    if group >= geometry.number_of_allocation_groups as u64 || block
        >= geometry.allocation_group_block_size as u64 {
        return Err(DriverError::OutOfBounds);
    }
    Ok(get_group_block(geometry, group as u32, block as u32))
}

fn read_inode_btree_root(source: &DataSourceReference, geometry: &XfsGeometry, group: u32) -> (result:
    Result<(u32, u32), DriverError>)
    requires
        geometry.is_usable(),
    ensures
        match result {
            Ok(root) => inode_btree_root(source.content(), *geometry, group as int) == Ok::<
                (u32, u32),
                DriverError,
            >(root),
            Err(error) => source.reliable() ==> inode_btree_root(
                source.content(),
                *geometry,
                group as int,
            ) == Err::<(u32, u32), DriverError>(error),
        },
{
    let block: u64 = get_group_block(geometry, group, 0);
    let offset: u64 = block.checked_mul(geometry.block_size as u64).ok_or(DriverError::Overflow)?;
    let offset: u64 = offset.checked_add(2 * (geometry.sector_size as u64)).ok_or(
        DriverError::Overflow,
    )?;
    let data: Vec<u8> = read_bytes(source, offset, geometry.sector_size as usize)?;
    let data: &[u8] = data.as_slice();
    if read_u32_be(data, 0) != 0x5841_4749 {
        return Err(DriverError::Unsupported);
    }
    Ok((read_u32_be(data, 20), read_u32_be(data, 24)))
}

fn search_leaf(data: &[u8], header_size: usize, inode: u32) -> (result: Result<bool, DriverError>)
    requires
        512 <= data@.len() <= 65536,
        header_size <= 56,
    ensures
        result == leaf_covers(data@, header_size as int, inode as int, 0),
{
    let count: usize = read_u16_be(data, 6) as usize;
    let ghost whole = leaf_covers(data@, header_size as int, inode as int, 0);
    let mut index: usize = 0;
    while index < count
        invariant
            index <= count,
            count == u16_be(data@, 6),
            512 <= data@.len() <= 65536,
            header_size <= 56,
            whole == leaf_covers(data@, header_size as int, inode as int, 0),
            whole == leaf_covers(data@, header_size as int, inode as int, index as int),
        decreases count - index,
    {
        let offset: usize = header_size + 16 * index;
        if offset + 16 > data.len() {
            return Err(DriverError::OutOfBounds);
        }
        let first: u32 = read_u32_be(data, offset);
        if first <= inode && (inode as u64) < first as u64 + 64 {
            return Ok(true);
        }
        index += 1;
    }
    Ok(false)
}

fn count_keys(data: &[u8], header_size: usize, inode: u32) -> (keys: usize)
    requires
        512 <= data@.len() <= 65536,
        header_size <= 56,
        u16_be(data@, 6) <= (data@.len() - header_size) / 8,
    ensures
        keys == keys_before(data@, header_size as int, inode as int, 0),
        keys <= u16_be(data@, 6),
{
    let count: usize = read_u16_be(data, 6) as usize;
    let mut index: usize = 0;
    while index < count && read_u32_be(data, header_size + 4 * index) <= inode
        invariant
            index <= count,
            count == u16_be(data@, 6),
            512 <= data@.len() <= 65536,
            header_size <= 56,
            count <= (data@.len() - header_size) / 8,
            keys_before(data@, header_size as int, inode as int, 0) == keys_before(
                data@,
                header_size as int,
                inode as int,
                index as int,
            ),
        decreases count - index,
    {
        index += 1;
    }
    index
}

/// Searches the inode B-tree of an allocation group for the record that covers an inode.
fn search_inode_btree(
    source: &DataSourceReference,
    geometry: &XfsGeometry,
    group: u32,
    block: u32,
    inode: u32,
    depth: u32,
) -> (result: Result<bool, DriverError>)
    requires
        geometry.is_usable(),
    ensures
        match result {
            Ok(covers) => btree_covers(
                source.content(),
                *geometry,
                group as int,
                block as int,
                inode as int,
                depth as nat,
            ) == Ok::<bool, DriverError>(covers),
            Err(error) => source.reliable() ==> btree_covers(
                source.content(),
                *geometry,
                group as int,
                block as int,
                inode as int,
                depth as nat,
            ) == Err::<bool, DriverError>(error),
        },
    decreases depth,
{
    if depth == 0 {
        return Err(DriverError::LimitExceeded);
    }
    let number: u64 = get_group_block(geometry, group, block);
    let offset: u64 = number.checked_mul(geometry.block_size as u64).ok_or(DriverError::Overflow)?;
    let data: Vec<u8> = read_bytes(source, offset, geometry.block_size as usize)?;
    let data: &[u8] = data.as_slice();
    let signature: u32 = read_u32_be(data, 0);
    let header_size: usize = if signature == 0x4941_4233 {
        56
    } else if signature == 0x4941_4254 {
        16
    } else {
        return Err(DriverError::Unsupported);
    };
    if read_u16_be(data, 4) == 0 {
        return search_leaf(data, header_size, inode);
    }
    let pairs: usize = (data.len() - header_size) / 8;
    if read_u16_be(data, 6) as usize > pairs {
        return Err(DriverError::OutOfBounds);
    }
    let keys: usize = count_keys(data, header_size, inode);
    if keys == 0 {
        return Ok(false);
    }
    let child: u32 = read_u32_be(data, header_size + 4 * (pairs + keys - 1));
    if child >= geometry.allocation_group_block_size {
        return Err(DriverError::OutOfBounds);
    }
    search_inode_btree(source, geometry, group, child, inode, depth - 1)
}

fn inode_chunk_exists(
    source: &DataSourceReference,
    geometry: &XfsGeometry,
    group: u32,
    inode: u32,
) -> (result: Result<bool, DriverError>)
    requires
        geometry.is_usable(),
    ensures
        match result {
            Ok(covers) => group_covers(
                source.content(),
                *geometry,
                group as int,
                inode as int,
            ) == Ok::<bool, DriverError>(covers),
            Err(error) => source.reliable() ==> group_covers(
                source.content(),
                *geometry,
                group as int,
                inode as int,
            ) == Err::<bool, DriverError>(error),
        },
{
    let (root, levels) = read_inode_btree_root(source, geometry, group)?;
    if root == 0 || levels == 0 {
        return Ok(false);
    }
    search_inode_btree(source, geometry, group, root, inode, 129)
}

/// Determines the offset of the inode with a number.
pub(crate) fn get_inode_offset(
    source: &DataSourceReference,
    geometry: &XfsGeometry,
    inode_number: u64,
) -> (result: Result<u64, DriverError>)
    requires
        geometry.is_usable(),
    ensures
        match result {
            Ok(offset) => inode_offset(source.content(), *geometry, inode_number) == Ok::<
                u64,
                DriverError,
            >(offset),
            Err(error) => source.reliable() ==> inode_offset(
                source.content(),
                *geometry,
                inode_number,
            ) == Err::<u64, DriverError>(error),
        },
{
    let number: u64 = inode_number % XFS_INODE_NUMBER_LIMIT;
    let bits: u32 = geometry.relative_block_bits as u32 + geometry.inodes_per_block_log2 as u32;
    let group_inodes: u64 = power_of_two(bits);
    let block_inodes: u64 = power_of_two(geometry.inodes_per_block_log2 as u32);
    let group: u64 = number / group_inodes;
    let inode: u64 = number % group_inodes;
    let block: u64 = inode / block_inodes;
    if number == 0 || group >= geometry.number_of_allocation_groups as u64 || block
        >= geometry.allocation_group_block_size as u64 {
        return Err(DriverError::OutOfBounds);
    }
    proof {
        lemma2_to64();
        lemma_power_below(bits as nat, 32);
        lemma_power_below(geometry.inodes_per_block_log2 as nat, 32);
    }
    if !inode_chunk_exists(source, geometry, group as u32, inode as u32)? {
        return Err(DriverError::Missing);
    }
    let index: u64 = inode % block_inodes;
    let size: u64 = geometry.inode_size as u64;
    proof {
        assert(0 <= index * size <= 0x1_0000_0000 * 2048) by (nonlinear_arith)
            requires
                0 <= index <= 0x1_0000_0000,
                0 <= size <= 2048,
        ;
    }
    let offset: u64 = get_group_block(geometry, group as u32, block as u32);
    let offset: u64 = offset.checked_mul(geometry.block_size as u64).ok_or(DriverError::Overflow)?;
    let offset: u64 = offset.checked_add(index * size).ok_or(DriverError::Overflow)?;
    Ok(offset)
}

} // verus!
