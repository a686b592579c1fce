//! The records of a clustered index, recoded into blocks of eight.
//!
//! A block holds the first components of eight records, then their second ones, and so on;
//! the labels stand apart. Every cluster begins with a new block, and the places that its
//! last block has left over are filled with the largest number in each component and with
//! label 0.

use vstd::prelude::*;

use crate::block::column;
use crate::clusters::{
    cluster_size, cluster_start, ivf_components, ivf_label, records_offset, ClusterFile,
};
use crate::distance::{BLOCK_DIMS_LEN, BLOCK_RECORDS};
use crate::layout::{read_i16, DIMS, IVF_LABEL_OFFSET, IVF_RECORD_LEN};

verus! {

/// The components of a place without a record.
pub open spec fn padding() -> Seq<i16> {
    Seq::new(DIMS as nat, |d: int| i16::MAX)
}

/// The components in place `r` of cluster `c`.
pub open spec fn place_components(data: Seq<u8>, n: int, c: int, r: int) -> Seq<i16> {
    if r < cluster_size(data, n, c) {
        ivf_components(data, n, cluster_start(data, n, c) + r)
    } else {
        padding()
    }
}

/// The label in place `r` of cluster `c`.
pub open spec fn place_label(data: Seq<u8>, n: int, c: int, r: int) -> u8 {
    if r < cluster_size(data, n, c) {
        ivf_label(data, n, cluster_start(data, n, c) + r)
    } else {
        0
    }
}

/// The blocks that so many records take.
pub open spec fn blocks_for(records: nat) -> nat {
    (records + 7) / 8
}

/// The blocks of cluster `c`.
pub open spec fn blocks_of(data: Seq<u8>, n: int, c: int) -> nat {
    blocks_for(cluster_size(data, n, c))
}

/// The blocks of the clusters before `c`.
pub open spec fn blocks_before(data: Seq<u8>, n: int, c: nat) -> nat
    decreases c,
{
    if c == 0 {
        0
    } else {
        blocks_before(data, n, (c - 1) as nat) + blocks_of(data, n, c - 1)
    }
}

/// Whether the records of cluster `c` are there.
pub open spec fn is_cluster(data: Seq<u8>, n: int, count: int, c: int) -> bool {
    let start = cluster_start(data, n, c);
    let size = cluster_size(data, n, c);
    start <= cluster_start(data, n, c + 1) && (size > 0 ==> start + size <= count)
}

/// Whether the offsets of an index of `n` clusters and `count` records make sense.
pub open spec fn are_offsets(data: Seq<u8>, n: int, count: int) -> bool {
    &&& forall|c: int| 0 <= c < n ==> #[trigger] is_cluster(data, n, count, c)
    &&& blocks_before(data, n, n as nat) <= u32::MAX
}

/// Whether block `b` of cluster `c` is in place.
pub open spec fn is_block(
    dims: Seq<i16>,
    labels: Seq<u8>,
    data: Seq<u8>,
    n: int,
    c: int,
    b: int,
) -> bool {
    let at = blocks_before(data, n, c as nat) + b;
    forall|j: int|
        0 <= j < BLOCK_RECORDS ==> {
            &&& #[trigger] column(
                dims.subrange(BLOCK_DIMS_LEN * at, BLOCK_DIMS_LEN * at + BLOCK_DIMS_LEN),
                j,
            ) == place_components(data, n, c, 8 * b + j)
            &&& labels[8 * at + j] == place_label(data, n, c, 8 * b + j)
        }
}

/// The blocks of an index.
pub struct Blocks {
    pub dims: Vec<i16>,
    pub labels: Vec<u8>,
    /// The first block of each cluster, and the end.
    pub offsets: Vec<u32>,
}

impl Blocks {
    /// The blocks hold the records of the index.
    pub open spec fn wf(self, data: Seq<u8>, n: int) -> bool {
        &&& self.offsets@.len() == n + 1
        &&& forall|c: int| 0 <= c <= n ==> #[trigger] self.offsets@[c] == blocks_before(data, n, c as nat)
        &&& self.dims@.len() == BLOCK_DIMS_LEN * blocks_before(data, n, n as nat)
        &&& self.labels@.len() == BLOCK_RECORDS * blocks_before(data, n, n as nat)
        &&& forall|c: int, b: int|
            0 <= c < n && 0 <= b < blocks_of(data, n, c) ==> #[trigger] is_block(
                self.dims@,
                self.labels@,
                data,
                n,
                c,
                b,
            )
    }
}

pub proof fn lemma_blocks_before(data: Seq<u8>, n: int, a: nat, b: nat)
    requires
        a <= b,
    ensures
        blocks_before(data, n, a) <= blocks_before(data, n, b),
    decreases b,
{
    if a < b {
        lemma_blocks_before(data, n, a, (b - 1) as nat);
    }
}

/// The numbers of block `b` of cluster `c`.
spec fn block_values(data: Seq<u8>, n: int, c: int, b: int) -> Seq<i16> {
    Seq::new(
        BLOCK_DIMS_LEN as nat,
        |k: int| place_components(data, n, c, 8 * b + k % 8)[k / 8],
    )
}

/// The labels of block `b` of cluster `c`.
spec fn block_labels(data: Seq<u8>, n: int, c: int, b: int) -> Seq<u8> {
    Seq::new(BLOCK_RECORDS as nat, |j: int| place_label(data, n, c, 8 * b + j))
}

/// Appends the numbers and labels of block `b` of a cluster of `size` records.
fn push_block(
    file: &ClusterFile,
    dims: &mut Vec<i16>,
    labels: &mut Vec<u8>,
    start: usize,
    size: usize,
    b: usize,
    Ghost(c): Ghost<int>,
)
    requires
        file.wf(),
        start == cluster_start(file.data@, file.cluster_count as int, c),
        size == cluster_size(file.data@, file.cluster_count as int, c),
        start + size <= file.count,
        8 * b < size,
    ensures
        final(dims)@ == old(dims)@ + block_values(
            file.data@,
            file.cluster_count as int,
            c,
            b as int,
        ),
        final(labels)@ == old(labels)@ + block_labels(
            file.data@,
            file.cluster_count as int,
            c,
            b as int,
        ),
{
    let len: usize = file.data.len();
    let ghost n = file.cluster_count as int;
    let ghost data = file.data@;
    let base: usize = len - file.count * IVF_RECORD_LEN;
    let ghost all = block_values(data, n, c, b as int);
    let mut k: usize = 0;
    while k < BLOCK_DIMS_LEN
        invariant
            file.wf(),
            data == file.data@,
            n == file.cluster_count,
            len == data.len(),
            base == records_offset(n),
            start == cluster_start(data, n, c),
            size == cluster_size(data, n, c),
            start + size <= file.count,
            8 * b < size,
            k <= BLOCK_DIMS_LEN,
            all == block_values(data, n, c, b as int),
            dims@ == old(dims)@ + all.subrange(0, k as int),
        decreases BLOCK_DIMS_LEN - k,
    {
        let d: usize = k / BLOCK_RECORDS;
        let j: usize = k % BLOCK_RECORDS;
        let value: i16 = if j < size - 8 * b {
            let record: usize = base + (start + (8 * b + j)) * IVF_RECORD_LEN;
            read_i16(file.data, record + 2 * d)
        } else {
            i16::MAX
        };
        assert(value == all[k as int]);
        dims.push(value);
        assert(all.subrange(0, k + 1) =~= all.subrange(0, k as int).push(value));
        k = k + 1;
    }
    assert(all.subrange(0, k as int) =~= all);
    let ghost marks = block_labels(data, n, c, b as int);
    let mut j: usize = 0;
    while j < BLOCK_RECORDS
        invariant
            file.wf(),
            data == file.data@,
            n == file.cluster_count,
            len == data.len(),
            base == records_offset(n),
            start == cluster_start(data, n, c),
            size == cluster_size(data, n, c),
            start + size <= file.count,
            8 * b < size,
            j <= BLOCK_RECORDS,
            marks == block_labels(data, n, c, b as int),
            labels@ == old(labels)@ + marks.subrange(0, j as int),
        decreases BLOCK_RECORDS - j,
    {
        let mark: u8 = if j < size - 8 * b {
            let record: usize = base + (start + (8 * b + j)) * IVF_RECORD_LEN;
            file.data[record + IVF_LABEL_OFFSET]
        } else {
            0
        };
        assert(mark == marks[j as int]);
        labels.push(mark);
        assert(marks.subrange(0, j + 1) =~= marks.subrange(0, j as int).push(mark));
        j = j + 1;
    }
    assert(marks.subrange(0, j as int) =~= marks);
}

/// A block that has been appended is in place.
proof fn lemma_new_block(
    dims: Seq<i16>,
    labels: Seq<u8>,
    data: Seq<u8>,
    n: int,
    c: int,
    b: int,
)
    requires
        dims.len() == BLOCK_DIMS_LEN * (blocks_before(data, n, c as nat) + b),
        labels.len() == BLOCK_RECORDS * (blocks_before(data, n, c as nat) + b),
    ensures
        is_block(
            dims + block_values(data, n, c, b),
            labels + block_labels(data, n, c, b),
            data,
            n,
            c,
            b,
        ),
{
    let at = blocks_before(data, n, c as nat) + b;
    let all = dims + block_values(data, n, c, b);
    let part = all.subrange(BLOCK_DIMS_LEN * at, BLOCK_DIMS_LEN * at + BLOCK_DIMS_LEN);
    assert(part =~= block_values(data, n, c, b));
    assert forall|j: int| 0 <= j < BLOCK_RECORDS implies {
        &&& #[trigger] column(part, j) == place_components(data, n, c, 8 * b + j)
        &&& (labels + block_labels(data, n, c, b))[8 * at + j] == place_label(
            data,
            n,
            c,
            8 * b + j,
        )
    } by {
        let place = place_components(data, n, c, 8 * b + j);
        assert forall|d: int| 0 <= d < DIMS implies column(part, j)[d] == place[d] by {
            assert((8 * d + j) % 8 == j && (8 * d + j) / 8 == d);
            assert(part[8 * d + j] == block_values(data, n, c, b)[8 * d + j]);
        }
        assert(column(part, j) =~= place);
    }
}

/// A block stays in place when more is appended.
proof fn lemma_old_block(
    dims: Seq<i16>,
    labels: Seq<u8>,
    more_dims: Seq<i16>,
    more_labels: Seq<u8>,
    data: Seq<u8>,
    n: int,
    c: int,
    b: int,
)
    requires
        0 <= b,
        BLOCK_DIMS_LEN * (blocks_before(data, n, c as nat) + b + 1) <= dims.len(),
        BLOCK_RECORDS * (blocks_before(data, n, c as nat) + b + 1) <= labels.len(),
        is_block(dims, labels, data, n, c, b),
    ensures
        is_block(dims + more_dims, labels + more_labels, data, n, c, b),
{
    let at = blocks_before(data, n, c as nat) + b;
    let from = BLOCK_DIMS_LEN * at;
    assert((dims + more_dims).subrange(from, from + BLOCK_DIMS_LEN) =~= dims.subrange(
        from,
        from + BLOCK_DIMS_LEN,
    ));
    assert forall|j: int| 0 <= j < BLOCK_RECORDS implies {
        &&& #[trigger] column(
            (dims + more_dims).subrange(from, from + BLOCK_DIMS_LEN),
            j,
        ) == place_components(data, n, c, 8 * b + j)
        &&& (labels + more_labels)[8 * at + j] == place_label(data, n, c, 8 * b + j)
    } by {
        assert(column(dims.subrange(from, from + BLOCK_DIMS_LEN), j) == place_components(
            data,
            n,
            c,
            8 * b + j,
        ));
        assert((labels + more_labels)[8 * at + j] == labels[8 * at + j]);
    }
}

/// Whether block `b` of cluster `c` comes before block `to_b` of cluster `to_c`.
spec fn comes_before(data: Seq<u8>, n: int, c: int, b: int, to_c: int, to_b: int) -> bool {
    0 <= c && 0 <= b < blocks_of(data, n, c) && (c < to_c || (c == to_c && b < to_b))
}

/// The first block of each cluster and the end; `None` if the offsets make no sense.
fn block_offsets(file: &ClusterFile) -> (r: Option<Vec<u32>>)
    requires
        file.wf(),
    ensures
        r is Some == are_offsets(file.data@, file.cluster_count as int, file.count as int),
        r matches Some(offsets) ==> {
            &&& offsets@.len() == file.cluster_count + 1
            &&& forall|c: int|
                0 <= c <= file.cluster_count ==> #[trigger] offsets@[c] == blocks_before(
                    file.data@,
                    file.cluster_count as int,
                    c as nat,
                )
        },
{
    let ghost data = file.data@;
    let ghost n = file.cluster_count as int;
    let mut offsets: Vec<u32> = Vec::new();
    offsets.push(0);
    let mut total: u32 = 0;
    let mut c: usize = 0;
    while c < file.cluster_count
        invariant
            file.wf(),
            data == file.data@,
            n == file.cluster_count,
            0 <= c <= n,
            offsets@.len() == c + 1,
            total == blocks_before(data, n, c as nat),
            forall|i: int| 0 <= i <= c ==> #[trigger] offsets@[i] == blocks_before(data, n, i as nat),
            forall|i: int| 0 <= i < c ==> #[trigger] is_cluster(data, n, file.count as int, i),
        decreases n - c,
    {
        let start: u64 = file.cluster_offset(c);
        let end: u64 = file.cluster_offset(c + 1);
        if end < start {
            assert(!is_cluster(data, n, file.count as int, c as int));
            return None;
        }
        let size: u32 = ((end - start) % 0x1_0000_0000) as u32;
        if size > 0 && (start > file.count as u64 || size as u64 > file.count as u64 - start) {
            assert(!is_cluster(data, n, file.count as int, c as int));
            return None;
        }
        assert(is_cluster(data, n, file.count as int, c as int));
        let blocks: u32 = (size / 8) + if size % 8 == 0 {
            0
        } else {
            1
        };
        assert(blocks == blocks_of(data, n, c as int));
        if blocks > u32::MAX - total {
            proof {
                lemma_blocks_before(data, n, (c + 1) as nat, n as nat);
            }
            return None;
        }
        total = total + blocks;
        offsets.push(total);
        c = c + 1;
    }
    Some(offsets)
}

/// Recodes the records of an index; `None` if its offsets make no sense.
pub fn recode(file: &ClusterFile) -> (r: Option<Blocks>)
    requires
        file.wf(),
    ensures
        r is Some == are_offsets(file.data@, file.cluster_count as int, file.count as int),
        r matches Some(blocks) ==> blocks.wf(file.data@, file.cluster_count as int),
{
    let offsets = block_offsets(file)?;
    let ghost data = file.data@;
    let ghost n = file.cluster_count as int;
    let mut dims: Vec<i16> = Vec::new();
    let mut labels: Vec<u8> = Vec::new();
    let mut c: usize = 0;
    while c < file.cluster_count
        invariant
            file.wf(),
            data == file.data@,
            n == file.cluster_count,
            0 <= c <= n,
            are_offsets(data, n, file.count as int),
            dims@.len() == BLOCK_DIMS_LEN * blocks_before(data, n, c as nat),
            labels@.len() == BLOCK_RECORDS * blocks_before(data, n, c as nat),
            forall|i: int, k: int|
                comes_before(data, n, i, k, c as int, 0) ==> #[trigger] is_block(
                    dims@,
                    labels@,
                    data,
                    n,
                    i,
                    k,
                ),
        decreases n - c,
    {
        let start: u64 = file.cluster_offset(c);
        let end: u64 = file.cluster_offset(c + 1);
        assert(is_cluster(data, n, file.count as int, c as int));
        let size: u64 = (end - start) % 0x1_0000_0000;
        let mut b: usize = 0;
        while (b as u64) < (size + 7) / 8
            invariant
                file.wf(),
                data == file.data@,
                n == file.cluster_count,
                0 <= c < n,
                size < 0x1_0000_0000,
                start == cluster_start(data, n, c as int),
                size == cluster_size(data, n, c as int),
                size > 0 ==> start + size <= file.count,
                b <= blocks_of(data, n, c as int) == (size + 7) / 8,
                dims@.len() == BLOCK_DIMS_LEN * (blocks_before(data, n, c as nat) + b),
                labels@.len() == BLOCK_RECORDS * (blocks_before(data, n, c as nat) + b),
                forall|i: int, k: int|
                    comes_before(data, n, i, k, c as int, b as int) ==> #[trigger] is_block(
                        dims@,
                        labels@,
                        data,
                        n,
                        i,
                        k,
                    ),
            decreases blocks_of(data, n, c as int) - b,
        {
            let ghost old_dims = dims@;
            let ghost old_labels = labels@;
            push_block(file, &mut dims, &mut labels, start as usize, size as usize, b, Ghost(c as int));
            proof {
                lemma_new_block(old_dims, old_labels, data, n, c as int, b as int);
                assert forall|i: int, k: int|
                    comes_before(data, n, i, k, c as int, b + 1) implies #[trigger] is_block(
                    dims@,
                    labels@,
                    data,
                    n,
                    i,
                    k,
                ) by {
                    if i < c || k < b {
                        assert(comes_before(data, n, i, k, c as int, b as int));
                        assert(is_block(old_dims, old_labels, data, n, i, k));
                        if i < c {
                            lemma_blocks_before(data, n, (i + 1) as nat, c as nat);
                        }
                        lemma_old_block(
                            old_dims,
                            old_labels,
                            block_values(data, n, c as int, b as int),
                            block_labels(data, n, c as int, b as int),
                            data,
                            n,
                            i,
                            k,
                        );
                    }
                }
            }
            b = b + 1;
        }
        proof {
            assert forall|i: int, k: int|
                comes_before(data, n, i, k, c + 1, 0) implies #[trigger] is_block(
                dims@,
                labels@,
                data,
                n,
                i,
                k,
            ) by {
                assert(comes_before(data, n, i, k, c as int, b as int));
            }
        }
        c = c + 1;
    }
    let blocks = Blocks { dims, labels, offsets };
    proof {
        assert forall|i: int, k: int|
            0 <= i < n && 0 <= k < blocks_of(data, n, i) implies #[trigger] is_block(
            blocks.dims@,
            blocks.labels@,
            data,
            n,
            i,
            k,
        ) by {
            assert(comes_before(data, n, i, k, n, 0));
        }
    }
    Some(blocks)
}

} // verus!
