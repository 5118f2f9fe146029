//! The per-block directory of a term's on-disk postings and the cursor that
//! walks those postings block by block, reading a block only when a target
//! falls inside it.

use vstd::prelude::*;

use crate::postings::{le_bytes, le_value, lemma_le_bound, lemma_le_round_trip, pow256, read_le, DiskPostingsAdvance, BLOCK_SIZE};

verus! {

/// Where a block of a term's postings starts in its payload, how many
/// postings it holds, and its greatest document id.
#[derive(Debug, Clone, Copy, PartialEq, Eq, Structural)]
pub struct BlockDirEntry {
    pub byte_offset_in_term_payload: u32,
    pub count: u16,
    pub max_doc_id: u32,
}

/// The length of an encoded directory entry.
pub const BLOCK_DIR_ENTRY_ENCODED_LEN: u64 = 10;

/// The 10 bytes of an entry: offset, count and greatest id, little-endian,
/// no padding.
pub open spec fn block_dir_entry_bytes(e: BlockDirEntry) -> Seq<u8> {
    le_bytes(e.byte_offset_in_term_payload as nat, 4) + le_bytes(e.count as nat, 2) + le_bytes(e.max_doc_id as nat, 4)
}

/// The entry that the 10 bytes at record `i` of `bytes` spell.
pub open spec fn block_dir_entry_at(bytes: Seq<u8>, i: int) -> BlockDirEntry {
    BlockDirEntry {
        byte_offset_in_term_payload: le_value(bytes.subrange(10 * i, 10 * i + 4)) as u32,
        count: le_value(bytes.subrange(10 * i + 4, 10 * i + 6)) as u16,
        max_doc_id: le_value(bytes.subrange(10 * i + 6, 10 * i + 10)) as u32,
    }
}

fn write_le10(buf: &mut [u8; 10], at: usize, v: u64, n: usize)
    requires
        at + n <= 10,
        n <= 8,
    ensures
        final(buf)@.len() == 10,
        final(buf)@.subrange(at as int, at + n) == le_bytes(v as nat, n as nat),
        forall|k: int| 0 <= k < 10 && !(at <= k < at + n) ==> final(buf)@[k] == old(buf)@[k],
{
    let mut x = v;
    let mut k: usize = 0;
    while k < n
        invariant
            k <= n <= 8,
            at + n <= 10,
            buf@.len() == 10,
            le_bytes(v as nat, n as nat) == buf@.subrange(at as int, at + k) + le_bytes(x as nat, (n - k) as nat),
            forall|m: int| 0 <= m < 10 && !(at <= m < at + k) ==> buf@[m] == old(buf)@[m],
        decreases n - k,
    {
        let ghost before = buf@;
        buf[at + k] = (x % 256) as u8;
        proof {
            assert(buf@.subrange(at as int, at + k + 1) =~= before.subrange(at as int, at + k).push((x % 256) as u8));
            assert(le_bytes(x as nat, (n - k) as nat) =~= seq![(x % 256) as u8] + le_bytes((x / 256) as nat, (n - k - 1) as nat));
        }
        x = x / 256;
        k += 1;
    }
    assert(le_bytes(x as nat, 0) =~= Seq::<u8>::empty());
    assert(buf@.subrange(at as int, at + n) =~= le_bytes(v as nat, n as nat));
}

/// Packs an entry into its 10 bytes.
pub fn encode_block_dir_entry(entry: &BlockDirEntry) -> (r: [u8; 10])
    ensures
        r@ == block_dir_entry_bytes(*entry),
{
    let mut buf = [0u8; 10];
    write_le10(&mut buf, 0, entry.byte_offset_in_term_payload as u64, 4);
    let ghost b0 = buf@;
    write_le10(&mut buf, 4, entry.count as u64, 2);
    let ghost b1 = buf@;
    write_le10(&mut buf, 6, entry.max_doc_id as u64, 4);
    proof {
        assert(buf@.subrange(0, 4) =~= b0.subrange(0, 4));
        assert(buf@.subrange(4, 6) =~= b1.subrange(4, 6));
        assert(buf@ =~= buf@.subrange(0, 4) + buf@.subrange(4, 6) + buf@.subrange(6, 10));
    }
    buf
}

/// Unpacks `count` consecutive entries; `None` when fewer than `count`
/// records are given.
pub fn decode_block_dir_entries(bytes: &[u8], count: usize) -> (r: Option<Vec<BlockDirEntry>>)
    ensures
        r is Some <==> 10 * count <= bytes@.len(),
        r matches Some(v) ==> v@.len() == count && forall|i: int| 0 <= i < count ==> #[trigger] v@[i]
            == block_dir_entry_at(bytes@, i),
{
    let mut entries: Vec<BlockDirEntry> = Vec::new();
    let mut idx: usize = 0;
    while idx < count
        invariant
            idx <= count,
            10 * idx <= bytes@.len(),
            bytes@.len() == bytes.len(),
            entries@.len() == idx,
            forall|i: int| 0 <= i < idx ==> #[trigger] entries@[i] == block_dir_entry_at(bytes@, i),
        decreases count - idx,
    {
        if bytes.len() - 10 * idx < 10 {
            return None;
        }
        let base = 10 * idx;
        let offset = read_le(bytes, base, 4);
        let n = read_le(bytes, base + 4, 2);
        let max = read_le(bytes, base + 6, 4);
        proof {
            reveal_with_fuel(pow256, 5);
            lemma_le_bound(bytes@.subrange(base as int, base + 4));
            lemma_le_bound(bytes@.subrange(base + 4, base + 6));
            lemma_le_bound(bytes@.subrange(base + 6, base + 10));
        }
        entries.push(BlockDirEntry { byte_offset_in_term_payload: offset as u32, count: n as u16, max_doc_id: max as u32 });
        idx += 1;
    }
    Some(entries)
}

/// The records of a run of entries, packed one after another.
pub open spec fn block_dir_bytes(entries: Seq<BlockDirEntry>) -> Seq<u8>
    decreases entries.len(),
{
    if entries.len() == 0 {
        Seq::empty()
    } else {
        block_dir_bytes(entries.drop_last()) + block_dir_entry_bytes(entries.last())
    }
}

proof fn lemma_block_dir_bytes(entries: Seq<BlockDirEntry>)
    ensures
        block_dir_bytes(entries).len() == 10 * entries.len(),
        forall|i: int| 0 <= i < entries.len() ==> #[trigger] block_dir_bytes(entries).subrange(10 * i, 10 * i + 10)
            == block_dir_entry_bytes(entries[i]),
    decreases entries.len(),
{
    if entries.len() > 0 {
        let p = entries.drop_last();
        lemma_block_dir_bytes(p);
        let e = entries.last();
        law_block_dir_entry_round_trip(e);
        let b = block_dir_bytes(entries);
        assert forall|i: int| 0 <= i < entries.len() implies #[trigger] b.subrange(10 * i, 10 * i + 10)
            == block_dir_entry_bytes(entries[i]) by {
            if i < entries.len() - 1 {
                assert(b.subrange(10 * i, 10 * i + 10) =~= block_dir_bytes(p).subrange(10 * i, 10 * i + 10));
                assert(p[i] == entries[i]);
            } else {
                assert(b.subrange(10 * i, 10 * i + 10) =~= block_dir_entry_bytes(e));
            }
        }
    }
}

/// An entry packed and unpacked is the entry it was.
pub proof fn law_block_dir_entry_round_trip(e: BlockDirEntry)
    ensures
        block_dir_entry_bytes(e).len() == 10,
        block_dir_entry_at(block_dir_entry_bytes(e), 0) == e,
{
    reveal_with_fuel(pow256, 5);
    lemma_le_round_trip(e.byte_offset_in_term_payload as nat, 4);
    lemma_le_round_trip(e.count as nat, 2);
    lemma_le_round_trip(e.max_doc_id as nat, 4);
    let b = block_dir_entry_bytes(e);
    assert(b.subrange(0, 4) =~= le_bytes(e.byte_offset_in_term_payload as nat, 4));
    assert(b.subrange(4, 6) =~= le_bytes(e.count as nat, 2));
    assert(b.subrange(6, 10) =~= le_bytes(e.max_doc_id as nat, 4));
}

/// A run of entries packed one after another unpacks to the same run.
pub proof fn law_block_dir_round_trip(entries: Seq<BlockDirEntry>)
    ensures
        block_dir_bytes(entries).len() == 10 * entries.len(),
        forall|i: int| 0 <= i < entries.len() ==> #[trigger] block_dir_entry_at(block_dir_bytes(entries), i) == entries[i],
{
    lemma_block_dir_bytes(entries);
    let b = block_dir_bytes(entries);
    assert forall|i: int| 0 <= i < entries.len() implies #[trigger] block_dir_entry_at(b, i) == entries[i] by {
        law_block_dir_entry_round_trip(entries[i]);
        let r = b.subrange(10 * i, 10 * i + 10);
        assert(r == block_dir_entry_bytes(entries[i]));
        assert(b.subrange(10 * i, 10 * i + 4) =~= r.subrange(0, 4));
        assert(b.subrange(10 * i + 4, 10 * i + 6) =~= r.subrange(4, 6));
        assert(b.subrange(10 * i + 6, 10 * i + 10) =~= r.subrange(6, 10));
    }
}

// ----- the shape of a directory -----

/// How many postings block `i` of a term with `total` postings holds: a
/// full block of [`BLOCK_SIZE`], or what is left for the last one.
pub open spec fn expected_block_count(total: int, i: int) -> int {
    if total - i * BLOCK_SIZE < BLOCK_SIZE {
        total - i * BLOCK_SIZE
    } else {
        BLOCK_SIZE as int
    }
}

/// Whether `dir` is the directory of a term with `total` postings in a
/// payload of `payload_len` bytes: one entry per block of [`BLOCK_SIZE`]
/// postings, each with the count that block must hold, the first at
/// offset 0, the last inside the payload, and offsets and greatest ids
/// strictly increasing.
pub open spec fn expected_directory_shape(dir: Seq<BlockDirEntry>, total: int, payload_len: u32) -> bool {
    &&& total > 0
    &&& dir.len() == (total + BLOCK_SIZE - 1) / BLOCK_SIZE as int
    &&& dir[0].byte_offset_in_term_payload == 0
    &&& dir.last().byte_offset_in_term_payload < payload_len
    &&& forall|i: int| 0 <= i < dir.len() ==> #[trigger] dir[i].count == expected_block_count(total, i)
    &&& forall|i: int|
        0 <= i < dir.len() - 1 ==> (#[trigger] dir[i]).byte_offset_in_term_payload
            < dir[i + 1].byte_offset_in_term_payload && dir[i].max_doc_id < dir[i + 1].max_doc_id
}

/// The counts of the first `n` entries of `dir`, summed.
pub open spec fn counted_postings(dir: Seq<BlockDirEntry>, n: nat) -> int
    decreases n,
{
    if n == 0 {
        0
    } else {
        counted_postings(dir, (n - 1) as nat) + dir[n - 1].count
    }
}

proof fn lemma_full_blocks(dir: Seq<BlockDirEntry>, total: int, k: nat)
    requires
        k <= dir.len(),
        (k as int) * BLOCK_SIZE <= total,
        forall|i: int| 0 <= i < dir.len() ==> #[trigger] dir[i].count == expected_block_count(total, i),
    ensures
        counted_postings(dir, k) == (k as int) * BLOCK_SIZE,
    decreases k,
{
    if k > 0 {
        lemma_full_blocks(dir, total, (k - 1) as nat);
        assert(dir[k - 1].count == BLOCK_SIZE);
    }
}

/// A directory of the expected shape splits the term's postings into
/// blocks: every block holds between one and [`BLOCK_SIZE`] postings, all
/// but the last exactly [`BLOCK_SIZE`], and together they hold them all.
pub proof fn law_directory_blocks_hold_all_postings(dir: Seq<BlockDirEntry>, total: int, payload_len: u32)
    requires
        expected_directory_shape(dir, total, payload_len),
    ensures
        counted_postings(dir, dir.len()) == total,
        forall|i: int| 0 <= i < dir.len() ==> 1 <= #[trigger] dir[i].count <= BLOCK_SIZE,
        forall|i: int| 0 <= i < dir.len() - 1 ==> #[trigger] dir[i].count == BLOCK_SIZE,
{
    let n = dir.len() as int;
    let b = BLOCK_SIZE as int;
    assert(0 < n && (n - 1) * b < total && total <= n * b) by (nonlinear_arith)
        requires
            total > 0,
            n == (total + b - 1) / b,
            b == 128,
    ;
    assert forall|i: int| 0 <= i < n implies 1 <= #[trigger] dir[i].count <= BLOCK_SIZE && (i < n - 1 ==> dir[i].count
        == BLOCK_SIZE) by {
        assert(i * b <= (n - 1) * b) by (nonlinear_arith)
            requires
                0 <= i < n,
                b == 128,
        ;
        if i < n - 1 {
            assert((i + 1) * b <= (n - 1) * b) by (nonlinear_arith)
                requires
                    0 <= i < n - 1,
                    b == 128,
            ;
        }
    }
    lemma_full_blocks(dir, total, (n - 1) as nat);
}

/// Whether an attested directory has the shape its term entry announces
/// (see [`expected_directory_shape`]), checked before any of its values
/// bounds a read.
pub fn p2_directory_has_expected_shape(directory: &[BlockDirEntry], total_count: usize, term_payload_len: u32) -> (r: bool)
    ensures
        r == expected_directory_shape(directory@, total_count as int, term_payload_len),
{
    let n = directory.len();
    let blocks = total_count / BLOCK_SIZE + if total_count % BLOCK_SIZE != 0 {
        1
    } else {
        0
    };
    proof {
        assert(blocks == (total_count + BLOCK_SIZE - 1) / BLOCK_SIZE as int) by (nonlinear_arith)
            requires
                blocks == total_count / BLOCK_SIZE + if total_count % BLOCK_SIZE != 0 {
                    1int
                } else {
                    0int
                },
                BLOCK_SIZE == 128,
        ;
    }
    if total_count == 0 || n != blocks {
        return false;
    }
    if directory[0].byte_offset_in_term_payload != 0 {
        return false;
    }
    if directory[n - 1].byte_offset_in_term_payload >= term_payload_len {
        return false;
    }
    proof {
        assert((n - 1) * BLOCK_SIZE < total_count) by (nonlinear_arith)
            requires
                n == (total_count + BLOCK_SIZE - 1) / BLOCK_SIZE as int,
                n > 0,
                BLOCK_SIZE == 128,
        ;
    }
    let mut remaining: usize = total_count;
    let mut idx: usize = 0;
    while idx < n
        invariant
            n == directory@.len(),
            n > 0,
            idx <= n,
            (n - 1) * BLOCK_SIZE < total_count,
            idx < n ==> remaining == total_count - idx * BLOCK_SIZE,
            forall|i: int| 0 <= i < idx ==> #[trigger] directory@[i].count == expected_block_count(total_count as int, i),
            forall|i: int|
                0 <= i < idx && i < n - 1 ==> (#[trigger] directory@[i]).byte_offset_in_term_payload
                    < directory@[i + 1].byte_offset_in_term_payload && directory@[i].max_doc_id
                    < directory@[i + 1].max_doc_id,
        decreases n - idx,
    {
        proof {
            assert(idx * BLOCK_SIZE <= (n - 1) * BLOCK_SIZE) by (nonlinear_arith)
                requires
                    idx <= n - 1,
                    BLOCK_SIZE == 128,
            ;
        }
        let entry = directory[idx];
        let expected = if remaining < BLOCK_SIZE {
            remaining
        } else {
            BLOCK_SIZE
        };
        if entry.count as usize != expected {
            return false;
        }
        remaining = remaining - expected;
        if idx + 1 < n {
            let next = directory[idx + 1];
            if entry.byte_offset_in_term_payload >= next.byte_offset_in_term_payload || entry.max_doc_id >= next.max_doc_id {
                return false;
            }
        }
        idx += 1;
        proof {
            if idx < n {
                assert(expected == BLOCK_SIZE) by (nonlinear_arith)
                    requires
                        idx <= n - 1,
                        (n - 1) * BLOCK_SIZE < total_count,
                        remaining + expected == total_count - (idx - 1) * BLOCK_SIZE,
                        expected == if remaining + expected < BLOCK_SIZE {
                            remaining + expected
                        } else {
                            BLOCK_SIZE as int
                        },
                        BLOCK_SIZE == 128,
                ;
            }
        }
    }
    true
}

// ----- the block-wise cursor -----

/// Whether `ids` is strictly increasing.
pub open spec fn strictly_increasing(ids: Seq<u32>) -> bool {
    forall|i: int, j: int| 0 <= i < j < ids.len() ==> ids[i] < ids[j]
}

/// Whether `ids` and `freqs`, decoded for block `i` of `dir`, agree with
/// the directory: as many postings as it says, its greatest id last, a
/// first id above the previous block's greatest, ids strictly increasing.
pub open spec fn block_matches(dir: Seq<BlockDirEntry>, i: int, ids: Seq<u32>, freqs: Seq<u32>) -> bool {
    &&& 0 <= i < dir.len()
    &&& ids.len() > 0
    &&& ids.len() == dir[i].count
    &&& freqs.len() == ids.len()
    &&& ids.last() == dir[i].max_doc_id
    &&& (i > 0 ==> ids[0] > dir[i - 1].max_doc_id)
    &&& strictly_increasing(ids)
}

/// The first position from `from` on whose id reaches `target`, by a
/// galloping probe then a binary search.
fn first_at_least(ids: &Vec<u32>, from: usize, target: u32) -> (r: usize)
    requires
        from < ids@.len() <= u16::MAX,
        strictly_increasing(ids@),
    ensures
        from <= r <= ids@.len(),
        forall|j: int| from <= j < r ==> ids@[j] < target,
        r < ids@.len() ==> ids@[r as int] >= target,
{
    let len = ids.len() - from;
    let mut hi: usize = 1;
    while hi < len && ids[from + hi] < target
        invariant
            1 <= hi <= 2 * len,
            len == ids@.len() - from,
            from < ids@.len() <= u16::MAX,
            strictly_increasing(ids@),
            hi > 1 ==> hi / 2 < len && ids@[from + hi / 2] < target,
        decreases 2 * len - hi,
    {
        hi = hi * 2;
    }
    let mut lo = hi / 2;
    let mut top = if hi < len {
        hi
    } else {
        len
    };
    proof {
        if lo >= 1 {
            assert(ids@[from + lo] < target);
            assert forall|j: int| from <= j < from + lo implies ids@[j] < target by {
                assert(ids@[j] < ids@[from + lo]);
            }
        }
    }
    let ghost bound = top;
    while lo < top
        invariant
            from + top <= ids@.len(),
            ids@.len() <= u16::MAX,
            len == ids@.len() - from,
            lo <= top <= bound,
            bound <= len,
            strictly_increasing(ids@),
            forall|j: int| from <= j < from + lo ==> ids@[j] < target,
            top < len ==> ids@[from + top] >= target,
        decreases top - lo,
    {
        let mid = lo + (top - lo) / 2;
        assert(lo <= mid < top);
        if ids[from + mid] < target {
            assert forall|j: int| from <= j < from + mid + 1 implies ids@[j] < target by {
                if j < from + mid {
                    assert(ids@[j] < ids@[from + mid]);
                }
            }
            lo = mid + 1;
        } else {
            top = mid;
        }
    }
    from + lo
}

/// What a cursor needs next: an answer, or the bytes of a block to read
/// and decode before it can answer.
#[derive(Debug, Clone, Copy, PartialEq, Eq, Structural)]
pub enum CursorStep {
    Done(DiskPostingsAdvance),
    /// Read `len` bytes at `offset` and decode `count` postings from them.
    ReadBlock { offset: u64, len: u32, count: usize },
}

/// A decoded block, by its index in the directory.
pub struct LoadedBlock {
    pub index: usize,
    pub doc_ids: Vec<u32>,
    pub freqs: Vec<u32>,
}

/// Walks a term's on-disk postings block by block: a block whose greatest
/// id is below the target is passed over from the directory alone, and a
/// block is read only when the target may lie inside it.
pub struct DiskPostingsCursor {
    term_base_offset: u64,
    term_payload_len: u32,
    directory: Vec<BlockDirEntry>,
    block_cursor: usize,
    loaded: Option<LoadedBlock>,
    local_pos: usize,
    last_freq: u32,
    blocks_read: usize,
    total_count: usize,
}

/// Whether the held block is block `c`.
pub open spec fn held_at(held: Option<(int, Seq<u32>, Seq<u32>)>, c: int) -> bool {
    held matches Some((i, _, _)) && i == c
}

/// Whether an advance to `target` may pass over block `j`: its greatest id
/// is below the target, or it is the held block with nothing left from
/// `pos`.
pub open spec fn passable(
    dir: Seq<BlockDirEntry>,
    held: Option<(int, Seq<u32>, Seq<u32>)>,
    pos: int,
    j: int,
    target: u32,
) -> bool {
    ||| dir[j].max_doc_id < target
    ||| (held matches Some((i, ids, _)) && i == j && pos >= ids.len())
}

/// Where block `c` ends in the payload: where the next block starts, or
/// the payload's end for the last block.
pub open spec fn block_end(dir: Seq<BlockDirEntry>, payload_len: u32, c: int) -> u32 {
    if c + 1 < dir.len() {
        dir[c + 1].byte_offset_in_term_payload
    } else {
        payload_len
    }
}

/// `n + 1`, capped at `usize::MAX`.
pub open spec fn sat_inc(n: usize) -> usize {
    if n < usize::MAX {
        (n + 1) as usize
    } else {
        n
    }
}

impl DiskPostingsCursor {
    #[verifier::type_invariant]
    spec fn inv(&self) -> bool {
        &&& self.block_cursor <= self.directory@.len()
        &&& self.loaded matches Some(b) ==> {
            &&& b.index <= self.block_cursor
            &&& block_matches(self.directory@, b.index as int, b.doc_ids@, b.freqs@)
            &&& self.local_pos <= b.doc_ids@.len()
        }
    }

    pub closed spec fn dir(&self) -> Seq<BlockDirEntry> {
        self.directory@
    }

    /// The block under consideration.
    pub closed spec fn cursor(&self) -> int {
        self.block_cursor as int
    }

    /// The decoded block held, with its index.
    pub closed spec fn held(&self) -> Option<(int, Seq<u32>, Seq<u32>)> {
        match self.loaded {
            Some(b) => Some((b.index as int, b.doc_ids@, b.freqs@)),
            None => None,
        }
    }

    /// Where the next advance resumes within the held block.
    pub closed spec fn pos(&self) -> int {
        self.local_pos as int
    }

    pub closed spec fn base(&self) -> u64 {
        self.term_base_offset
    }

    pub closed spec fn payload_len(&self) -> u32 {
        self.term_payload_len
    }

    pub closed spec fn reads(&self) -> usize {
        self.blocks_read
    }

    pub closed spec fn last(&self) -> u32 {
        self.last_freq
    }

    pub closed spec fn df(&self) -> usize {
        self.total_count
    }

    /// A cursor over a term whose payload of `term_payload_len` bytes starts
    /// at `term_base_offset`, with its block directory and its posting
    /// count.
    pub fn open_with_directory(
        term_base_offset: u64,
        term_payload_len: u32,
        directory: Vec<BlockDirEntry>,
        total_count: usize,
    ) -> (r: DiskPostingsCursor)
        ensures
            r.dir() == directory@,
            r.cursor() == 0,
            r.held() is None,
            r.pos() == 0,
            r.base() == term_base_offset,
            r.payload_len() == term_payload_len,
            r.reads() == 0,
            r.last() == 0,
            r.df() == total_count,
    {
        DiskPostingsCursor {
            term_base_offset,
            term_payload_len,
            directory,
            block_cursor: 0,
            loaded: None,
            local_pos: 0,
            last_freq: 0,
            blocks_read: 0,
            total_count,
        }
    }

    /// Whether a block decoded for directory entry `entry` at the current
    /// block agrees with the directory.
    pub fn decoded_block_matches_directory(&self, entry: BlockDirEntry, doc_ids: &[u32], freqs: &[u32]) -> (r: bool)
        ensures
            self.cursor() < self.dir().len() && entry == self.dir()[self.cursor()] ==> r == block_matches(
                self.dir(),
                self.cursor(),
                doc_ids@,
                freqs@,
            ),
    {
        proof {
            use_type_invariant(self);
        }
        if doc_ids.len() == 0 {
            return false;
        }
        if self.block_cursor > 0 && self.block_cursor - 1 < self.directory.len() {
            if doc_ids[0] <= self.directory[self.block_cursor - 1].max_doc_id {
                return false;
            }
        }
        if doc_ids.len() != entry.count as usize || freqs.len() != doc_ids.len() || doc_ids[doc_ids.len() - 1]
            != entry.max_doc_id {
            return false;
        }
        let mut i: usize = 1;
        while i < doc_ids.len()
            invariant
                1 <= i <= doc_ids@.len(),
                forall|a: int, b: int| 0 <= a < b < i ==> doc_ids@[a] < doc_ids@[b],
            decreases doc_ids.len() - i,
        {
            if doc_ids[i - 1] >= doc_ids[i] {
                return false;
            }
            assert forall|a: int, b: int| 0 <= a < b < i + 1 implies doc_ids@[a] < doc_ids@[b] by {
                if b == i && a < i - 1 {
                    assert(doc_ids@[a] < doc_ids@[i - 1]);
                }
            }
            i += 1;
        }
        true
    }

    /// Takes the decoded postings of the current block; refused (`false`)
    /// when they disagree with the directory.
    pub fn load_block(&mut self, doc_ids: Vec<u32>, freqs: Vec<u32>) -> (r: bool)
        ensures
            r == (old(self).cursor() < old(self).dir().len() && block_matches(
                old(self).dir(),
                old(self).cursor(),
                doc_ids@,
                freqs@,
            )),
            r ==> final(self).held() == Some((old(self).cursor(), doc_ids@, freqs@)) && final(self).pos() == 0,
            !r ==> final(self).held() == old(self).held() && final(self).pos() == old(self).pos(),
            final(self).dir() == old(self).dir(),
            final(self).cursor() == old(self).cursor(),
            final(self).base() == old(self).base(),
            final(self).payload_len() == old(self).payload_len(),
            final(self).reads() == old(self).reads(),
            final(self).last() == old(self).last(),
            final(self).df() == old(self).df(),
    {
        proof {
            use_type_invariant(&*self);
        }
        if self.block_cursor >= self.directory.len() {
            return false;
        }
        let entry = self.directory[self.block_cursor];
        if !self.decoded_block_matches_directory(entry, doc_ids.as_slice(), freqs.as_slice()) {
            return false;
        }
        let block = LoadedBlock { index: self.block_cursor, doc_ids, freqs };
        self.local_pos = 0;
        self.loaded = Some(block);
        true
    }

    /// Advances to the first id at least `target`, passing over, from the
    /// directory alone, each block whose greatest id is below it; when the
    /// block that may hold it is not decoded yet, asks for its bytes
    /// instead. Targets are meant to be non-decreasing across calls.
    pub fn advance_step(&mut self, target: u32) -> (r: CursorStep)
        ensures
            final(self).dir() == old(self).dir(),
            final(self).held() == old(self).held(),
            final(self).base() == old(self).base(),
            final(self).payload_len() == old(self).payload_len(),
            final(self).df() == old(self).df(),
            old(self).cursor() <= final(self).cursor() <= old(self).dir().len(),
            forall|j: int|
                old(self).cursor() <= j < final(self).cursor() ==> #[trigger] passable(
                    old(self).dir(),
                    old(self).held(),
                    old(self).pos(),
                    j,
                    target,
                ),
            r == CursorStep::Done(DiskPostingsAdvance::Exhausted) ==> final(self).cursor() == old(self).dir().len()
                && final(self).pos() == old(self).pos() && final(self).last() == old(self).last() && final(self).reads()
                == old(self).reads(),
            r matches CursorStep::ReadBlock { offset, len, count } ==> {
                let c = final(self).cursor();
                let e = old(self).dir()[c];
                &&& c < old(self).dir().len()
                &&& e.max_doc_id >= target
                &&& !held_at(old(self).held(), c)
                &&& offset == old(self).base() + e.byte_offset_in_term_payload
                &&& len == block_end(old(self).dir(), old(self).payload_len(), c) - e.byte_offset_in_term_payload
                &&& count == e.count
                &&& final(self).reads() == sat_inc(old(self).reads())
                &&& final(self).pos() == old(self).pos()
                &&& final(self).last() == old(self).last()
            },
            r matches CursorStep::Done(DiskPostingsAdvance::Found(d)) ==> {
                let c = final(self).cursor();
                let k = final(self).pos() - 1;
                &&& c == old(self).cursor()
                &&& old(self).held() matches Some((i, ids, freqs)) && i == c && old(self).pos() <= k < ids.len()
                    && ids[k] == d && d >= target && (forall|j: int| old(self).pos() <= j < k ==> ids[j] < target)
                    && final(self).last() == freqs[k]
                &&& final(self).reads() == old(self).reads()
            },
            r == CursorStep::Done(DiskPostingsAdvance::Error) ==> {
                let c = final(self).cursor();
                let e = old(self).dir()[c];
                &&& c < old(self).dir().len()
                &&& e.max_doc_id >= target
                &&& !held_at(old(self).held(), c)
                &&& (block_end(old(self).dir(), old(self).payload_len(), c) < e.byte_offset_in_term_payload || old(
                    self,
                ).base() + e.byte_offset_in_term_payload > u64::MAX)
                &&& final(self).pos() == old(self).pos()
                &&& final(self).last() == old(self).last()
            },
    {
        proof {
            use_type_invariant(&*self);
        }
        let ghost start = self.block_cursor as int;
        loop
            invariant
                self.directory@ == old(self).dir(),
                self.held() == old(self).held(),
                self.term_base_offset == old(self).base(),
                self.term_payload_len == old(self).payload_len(),
                self.total_count == old(self).df(),
                self.local_pos == old(self).pos(),
                self.last_freq == old(self).last(),
                self.blocks_read == old(self).reads(),
                start == old(self).cursor(),
                start <= self.block_cursor <= self.directory@.len(),
                self.loaded matches Some(b) ==> {
                    &&& b.index <= start
                    &&& block_matches(self.directory@, b.index as int, b.doc_ids@, b.freqs@)
                    &&& self.local_pos <= b.doc_ids@.len()
                },
                forall|j: int|
                    start <= j < self.block_cursor ==> #[trigger] passable(
                        old(self).dir(),
                        old(self).held(),
                        old(self).pos(),
                        j,
                        target,
                    ),
            decreases self.directory@.len() - self.block_cursor,
        {
            if self.block_cursor >= self.directory.len() {
                return CursorStep::Done(DiskPostingsAdvance::Exhausted);
            }
            let entry = self.directory[self.block_cursor];
            if entry.max_doc_id < target {
                self.block_cursor = self.block_cursor + 1;
                continue;
            }
            let is_loaded = match &self.loaded {
                Some(b) => b.index == self.block_cursor,
                None => false,
            };
            if !is_loaded {
                let block_end = if self.block_cursor + 1 < self.directory.len() {
                    self.directory[self.block_cursor + 1].byte_offset_in_term_payload
                } else {
                    self.term_payload_len
                };
                if block_end < entry.byte_offset_in_term_payload {
                    return CursorStep::Done(DiskPostingsAdvance::Error);
                }
                let block_len = block_end - entry.byte_offset_in_term_payload;
                self.blocks_read = if self.blocks_read < usize::MAX {
                    self.blocks_read + 1
                } else {
                    self.blocks_read
                };
                let offset = match self.term_base_offset.checked_add(entry.byte_offset_in_term_payload as u64) {
                    Some(o) => o,
                    None => return CursorStep::Done(DiskPostingsAdvance::Error),
                };
                return CursorStep::ReadBlock { offset, len: block_len, count: entry.count as usize };
            }
            let (len, k, found_doc, found_freq) = match &self.loaded {
                Some(b) => {
                    let len = b.doc_ids.len();
                    if self.local_pos >= len {
                        (len, len, 0u32, 0u32)
                    } else {
                        let k = first_at_least(&b.doc_ids, self.local_pos, target);
                        if k < len {
                            (len, k, b.doc_ids[k], b.freqs[k])
                        } else {
                            (len, k, 0u32, 0u32)
                        }
                    }
                },
                None => (0, 0, 0u32, 0u32),
            };
            if self.local_pos >= len {
                self.block_cursor = self.block_cursor + 1;
                continue;
            }
            if k >= len {
                proof {
                    let b = self.loaded->Some_0;
                    assert(b.doc_ids@[len - 1] == entry.max_doc_id);
                }
                return CursorStep::Done(DiskPostingsAdvance::Error);
            }
            self.local_pos = k + 1;
            self.last_freq = found_freq;
            return CursorStep::Done(DiskPostingsAdvance::Found(found_doc));
        }
    }

    /// The frequency of the id last found.
    pub fn freq(&self) -> (r: u32)
        ensures
            r == self.last(),
    {
        self.last_freq
    }

    /// The term's posting count.
    pub fn doc_freq(&self) -> (r: usize)
        ensures
            r == self.df(),
    {
        self.total_count
    }

    /// How many blocks this cursor asked to read.
    pub fn blocks_read(&self) -> (r: usize)
        ensures
            r == self.reads(),
    {
        self.blocks_read
    }

    /// How many blocks the term has.
    pub fn blocks_total(&self) -> (r: usize)
        ensures
            r == self.dir().len(),
    {
        self.directory.len()
    }
}

} // verus!
