//! Integrity of on-disk postings metadata: each region of a segment is cut
//! into pages whose BLAKE3 digests stay in memory, and a range is handed
//! out only once every page it touches hashes to its recorded digest.

use vstd::prelude::*;

use crate::postings::{le_bytes, PostingsReadError};

verus! {

/// The length of an attested page.
pub const P2_INTEGRITY_PAGE_LEN: u64 = 4096;

/// The length of a page digest.
pub const P2_INTEGRITY_DIGEST_LEN: u64 = 32;

/// The most memory the digests and region descriptors of a table may take.
pub const P2_INTEGRITY_MAX_BYTES: u64 = 33554432;

/// The in-memory size of one region descriptor.
pub const P2_REGION_DESCRIPTOR_BYTES: u64 = 32;

/// The BLAKE3 hash of `input`.
pub uninterp spec fn blake3_digest(input: Seq<u8>) -> Seq<u8>;

/// Hashes `input` with BLAKE3.
///
/// Trusted: calls `blake3::hash` and takes the 32 bytes of the result; the
/// contract names them `blake3_digest` of the input and says nothing more.
#[verifier::external_body]
fn blake3_hash(input: &[u8]) -> (r: [u8; 32])
    ensures
        r@ == blake3_digest(input@),
{
    *blake3::hash(input).as_bytes()
}

/// Compares two digests in constant time.
///
/// Trusted: calls `constant_time_eq::constant_time_eq`, which returns true
/// exactly when both slices have the same length and the same bytes.
#[verifier::external_body]
fn digests_equal(a: &[u8], b: &[u8]) -> (r: bool)
    ensures
        r == (a@ == b@),
{
    constant_time_eq::constant_time_eq(a, b)
}

/// The two kinds of attested regions; a page of one never passes for a
/// page of the other.
#[derive(Debug, Clone, Copy, PartialEq, Eq, Structural)]
pub enum P2RegionKind {
    Entries,
    Directory,
}

pub open spec fn kind_byte(kind: P2RegionKind) -> u8 {
    match kind {
        P2RegionKind::Entries => 1,
        P2RegionKind::Directory => 2,
    }
}

/// The domain that separates these digests from any other use of BLAKE3:
/// the ASCII bytes of `surch.p2.meta.v1`.
pub open spec fn p2_domain() -> Seq<u8> {
    seq![115u8, 117, 114, 99, 104, 46, 112, 50, 46, 109, 101, 116, 97, 46, 118, 49]
}

/// What is hashed for a page: the domain, the region's kind, field,
/// base and length, the page's index and length, then its bytes; numbers
/// little-endian.
pub open spec fn page_message(
    kind: P2RegionKind,
    field_ordinal: u32,
    data_base: u64,
    data_len: u64,
    page_index: u64,
    page: Seq<u8>,
) -> Seq<u8> {
    p2_domain() + seq![kind_byte(kind)] + le_bytes(field_ordinal as nat, 4) + le_bytes(data_base as nat, 8) + le_bytes(
        data_len as nat,
        8,
    ) + le_bytes(page_index as nat, 8) + le_bytes(page.len(), 8) + page
}

/// The digest of a page.
pub open spec fn page_digest(
    kind: P2RegionKind,
    field_ordinal: u32,
    data_base: u64,
    data_len: u64,
    page_index: u64,
    page: Seq<u8>,
) -> Seq<u8> {
    blake3_digest(page_message(kind, field_ordinal, data_base, data_len, page_index, page))
}

fn push_le(buf: &mut Vec<u8>, v: u64, n: usize)
    requires
        n <= 8,
    ensures
        final(buf)@ == old(buf)@ + le_bytes(v as nat, n as nat),
{
    let mut x = v;
    let mut k: usize = 0;
    while k < n
        invariant
            k <= n <= 8,
            old(buf)@ + le_bytes(v as nat, n as nat) == buf@ + le_bytes(x as nat, (n - k) as nat),
        decreases n - k,
    {
        let ghost before = buf@;
        buf.push((x % 256) as u8);
        proof {
            assert(le_bytes(x as nat, (n - k) as nat) =~= seq![(x % 256) as u8] + le_bytes((x / 256) as nat, (n - k - 1) as nat));
            assert(buf@ + le_bytes((x / 256) as nat, (n - k - 1) as nat) =~= before + le_bytes(x as nat, (n - k) as nat));
        }
        x = x / 256;
        k += 1;
    }
    assert(le_bytes(x as nat, 0) =~= Seq::<u8>::empty());
    assert(buf@ + le_bytes(x as nat, 0) =~= buf@);
}

fn push_bytes(buf: &mut Vec<u8>, bytes: &[u8])
    ensures
        final(buf)@ == old(buf)@ + bytes@,
{
    let mut i: usize = 0;
    while i < bytes.len()
        invariant
            i <= bytes@.len(),
            buf@ == old(buf)@ + bytes@.subrange(0, i as int),
        decreases bytes.len() - i,
    {
        buf.push(bytes[i]);
        i += 1;
        assert(buf@ =~= old(buf)@ + bytes@.subrange(0, i as int));
    }
    assert(bytes@.subrange(0, i as int) =~= bytes@);
}

/// The digest of page `page_index` of a region, whose bytes are `page`.
pub fn p2_digest_page(
    kind: P2RegionKind,
    field_ordinal: u32,
    data_base: u64,
    data_len: u64,
    page_index: u64,
    page: &[u8],
) -> (r: [u8; 32])
    ensures
        r@ == page_digest(kind, field_ordinal, data_base, data_len, page_index, page@),
{
    let mut message: Vec<u8> = Vec::new();
    let domain: [u8; 16] = [115, 117, 114, 99, 104, 46, 112, 50, 46, 109, 101, 116, 97, 46, 118, 49];
    assert(domain@ =~= p2_domain());
    push_bytes(&mut message, &domain);
    let kb: u8 = match kind {
        P2RegionKind::Entries => 1,
        P2RegionKind::Directory => 2,
    };
    message.push(kb);
    push_le(&mut message, field_ordinal as u64, 4);
    push_le(&mut message, data_base, 8);
    push_le(&mut message, data_len, 8);
    push_le(&mut message, page_index, 8);
    push_le(&mut message, page.len() as u64, 8);
    push_bytes(&mut message, page);
    assert(message@ =~= page_message(kind, field_ordinal, data_base, data_len, page_index, page@));
    blake3_hash(message.as_slice())
}

/// The number of pages of a region of `data_len` bytes.
pub open spec fn page_count(data_len: int) -> int {
    data_len / 4096 + if data_len % 4096 != 0 {
        1int
    } else {
        0int
    }
}

/// The number of pages, hence of digests, of a region of `data_len` bytes.
pub fn p2_digest_count(data_len: usize) -> (r: Option<usize>)
    ensures
        r == Some(page_count(data_len as int) as usize),
        page_count(data_len as int) <= usize::MAX,
{
    let full_pages = data_len / 4096;
    let partial_page: usize = if data_len % 4096 != 0 {
        1
    } else {
        0
    };
    Some(full_pages + partial_page)
}

/// A region of a segment, with where its digests start in the table.
#[derive(Debug, Clone, Copy, PartialEq, Eq, Structural)]
pub struct P2VerifiedRegion {
    pub data_base: u64,
    pub data_len: u64,
    pub digest_start: u32,
    pub digest_count: u32,
    pub field_ordinal: u32,
    pub kind: P2RegionKind,
}

/// The two attested regions of a field.
#[derive(Debug, Clone, Copy, PartialEq, Eq, Structural)]
pub struct P2FieldIntegrity {
    pub entries: P2VerifiedRegion,
    pub directory: P2VerifiedRegion,
}

/// A region with the digests of its pages, not yet published.
pub struct P2DigestedRegion {
    pub region: P2VerifiedRegion,
    pub digests: Vec<[u8; 32]>,
}

/// The bytes of page `i` of `data`.
pub open spec fn page_bytes(data: Seq<u8>, i: int) -> Seq<u8> {
    data.subrange(i * 4096, if i * 4096 + 4096 <= data.len() { i * 4096 + 4096 } else { data.len() as int })
}

/// Digests each page of `data`, a region of kind `kind` of field
/// `field_ordinal` at `data_base`, whose digests are to start at
/// `digest_start`; none when the pages do not fit a `u32` count.
pub fn p2_digest_region(
    kind: P2RegionKind,
    field_ordinal: u32,
    data_base: u64,
    data: &[u8],
    digest_start: u32,
) -> (r: Option<P2DigestedRegion>)
    ensures
        r is Some <==> page_count(data@.len() as int) <= u32::MAX,
        r matches Some(d) ==> {
            &&& d.region == (P2VerifiedRegion {
                data_base,
                data_len: data@.len() as u64,
                digest_start,
                digest_count: page_count(data@.len() as int) as u32,
                field_ordinal,
                kind,
            })
            &&& d.digests@.len() == page_count(data@.len() as int)
            &&& forall|i: int| #![trigger d.digests@[i]]
                0 <= i < d.digests@.len() ==> d.digests@[i]@ == page_digest(
                    kind,
                    field_ordinal,
                    data_base,
                    data@.len() as u64,
                    i as u64,
                    page_bytes(data@, i),
                )
        },
{
    let data_len = data.len() as u64;
    let count = match p2_digest_count(data.len()) {
        Some(c) => c,
        None => return None,
    };
    if count > u32::MAX as usize {
        return None;
    }
    let digest_count = count as u32;
    let mut digests: Vec<[u8; 32]> = Vec::new();
    let mut page_index: u64 = 0;
    while page_index < digest_count as u64
        invariant
            digest_count == page_count(data@.len() as int),
            data_len == data@.len(),
            page_index <= digest_count,
            digests@.len() == page_index,
            forall|i: int| #![trigger digests@[i]]
                0 <= i < page_index ==> digests@[i]@ == page_digest(
                    kind,
                    field_ordinal,
                    data_base,
                    data_len,
                    i as u64,
                    page_bytes(data@, i),
                ),
        decreases digest_count - page_index,
    {
        proof {
            lemma_page_start_in_bounds(page_index as int, data@.len() as int);
        }
        let page_start = page_index * 4096;
        let page_end = if page_start + 4096 <= data_len {
            page_start + 4096
        } else {
            data_len
        };
        let dl: usize = data.len();
        assert(page_end <= dl);
        let page = slice_range(data, page_start as usize, page_end as usize);
        let d = p2_digest_page(kind, field_ordinal, data_base, data_len, page_index, page);
        digests.push(d);
        page_index += 1;
    }
    Some(
        P2DigestedRegion {
            region: P2VerifiedRegion { data_base, data_len, digest_start, digest_count, field_ordinal, kind },
            digests,
        },
    )
}

proof fn lemma_page_start_in_bounds(i: int, len: int)
    requires
        0 <= i < page_count(len),
        0 <= len,
    ensures
        i * 4096 < len,
{
    assert(len == (len / 4096) * 4096 + len % 4096) by (nonlinear_arith)
        requires
            0 <= len,
    ;
    if i < len / 4096 {
        assert(i * 4096 + 4096 <= (len / 4096) * 4096) by (nonlinear_arith)
            requires
                i + 1 <= len / 4096,
        ;
    }
}

fn slice_range(data: &[u8], start: usize, end: usize) -> (r: &[u8])
    requires
        start <= end <= data@.len(),
    ensures
        r@ == data@.subrange(start as int, end as int),
{
    let (head, _) = data.split_at(end);
    let (_, tail) = head.split_at(start);
    tail
}

/// The memory the digests and descriptors take: a digest per page and
/// two descriptors per protected field.
pub open spec fn integrity_cost(digest_count: int, protected_fields: int) -> int {
    digest_count * 32 + protected_fields * 2 * 32
}

/// The attested digests of a segment, with counters of how its fields were
/// laid out.
pub struct P2IntegrityTable {
    pub digests: Vec<[u8; 32]>,
    pub protected_fields: u32,
    pub fallback_fields: u64,
    pub term_occurrences: u64,
    pub blocks: u64,
    pub fields: u64,
}

impl P2IntegrityTable {
    /// The memory the table takes, `u64::MAX` when it does not fit.
    pub fn bytes(&self) -> (r: u64)
        ensures
            r == if integrity_cost(self.digests@.len() as int, self.protected_fields as int) <= u64::MAX {
                integrity_cost(self.digests@.len() as int, self.protected_fields as int)
            } else {
                u64::MAX as int
            },
    {
        let n = self.digests.len() as u64;
        let a: u64 = if n > u64::MAX / 32 {
            u64::MAX
        } else {
            n * 32
        };
        let b: u64 = (self.protected_fields as u64) * 64;
        a.saturating_add(b)
    }

    /// Digest `index` of the table.
    pub fn digest(&self, index: u32) -> (r: Option<&[u8; 32]>)
        ensures
            index < self.digests@.len() ==> r == Some(&self.digests@[index as int]),
            index >= self.digests@.len() ==> r is None,
    {
        if (index as usize) < self.digests.len() {
            Some(&self.digests[index as usize])
        } else {
            None
        }
    }
}

/// Collects the digests of fields as they are sealed; a field is published
/// only when both its regions were digested and the table stays within
/// its memory ceiling.
pub struct P2IntegrityBuilder {
    pub digests: Vec<[u8; 32]>,
    pub protected_fields: u32,
    pub fallback_fields: u64,
    pub term_occurrences: u64,
    pub blocks: u64,
    pub fields: u64,
}

/// Whether `digest_count` digests for `protected_fields` fields fit the
/// table.
pub open spec fn within_ceiling(digest_count: int, protected_fields: int) -> bool {
    &&& digest_count <= u32::MAX
    &&& protected_fields <= u32::MAX
    &&& integrity_cost(digest_count, protected_fields) <= P2_INTEGRITY_MAX_BYTES
}

impl P2IntegrityBuilder {
    pub fn new() -> (r: P2IntegrityBuilder)
        ensures
            r.digests@.len() == 0,
            r.protected_fields == 0,
            r.fallback_fields == 0,
            r.term_occurrences == 0,
            r.blocks == 0,
            r.fields == 0,
    {
        P2IntegrityBuilder {
            digests: Vec::new(),
            protected_fields: 0,
            fallback_fields: 0,
            term_occurrences: 0,
            blocks: 0,
            fields: 0,
        }
    }

    /// Counts a field left without attestation.
    pub fn record_fallback(&mut self)
        ensures
            final(self).fallback_fields == if old(self).fallback_fields < u64::MAX {
                old(self).fallback_fields + 1
            } else {
                old(self).fallback_fields as int
            },
            final(self).digests@ == old(self).digests@,
            final(self).protected_fields == old(self).protected_fields,
            final(self).term_occurrences == old(self).term_occurrences,
            final(self).blocks == old(self).blocks,
            final(self).fields == old(self).fields,
    {
        self.fallback_fields = self.fallback_fields.saturating_add(1);
    }

    /// Counts the layout of one more field.
    pub fn record_layout(&mut self, term_occurrences: usize, blocks: usize)
        ensures
            final(self).term_occurrences == sat_add(old(self).term_occurrences as int, term_occurrences as int),
            final(self).blocks == sat_add(old(self).blocks as int, blocks as int),
            final(self).fields == sat_add(old(self).fields as int, 1),
            final(self).digests@ == old(self).digests@,
            final(self).protected_fields == old(self).protected_fields,
            final(self).fallback_fields == old(self).fallback_fields,
    {
        self.term_occurrences = self.term_occurrences.saturating_add(term_occurrences as u64);
        self.blocks = self.blocks.saturating_add(blocks as u64);
        self.fields = self.fields.saturating_add(1);
    }

    /// Whether a field whose regions are `directory_len` and `entries_len`
    /// bytes long can still be published, checked before any hashing.
    pub fn can_publish(&self, directory_len: usize, entries_len: usize) -> (r: bool)
        ensures
            r == within_ceiling(
                self.digests@.len() + page_count(directory_len as int) + page_count(entries_len as int),
                self.protected_fields + 1,
            ),
    {
        let directory_pages = match p2_digest_count(directory_len) {
            Some(n) => n,
            None => return false,
        };
        let entries_pages = match p2_digest_count(entries_len) {
            Some(n) => n,
            None => return false,
        };
        let digest_count = match self.digests.len().checked_add(directory_pages) {
            Some(n) => match n.checked_add(entries_pages) {
                Some(m) => m,
                None => return false,
            },
            None => return false,
        };
        if digest_count > u32::MAX as usize {
            return false;
        }
        if self.protected_fields == u32::MAX {
            return false;
        }
        let protected_fields = self.protected_fields + 1;
        let count = digest_count as u64;
        let bytes = count * 32 + (protected_fields as u64) * 64;
        assert(bytes == integrity_cost(digest_count as int, protected_fields as int));
        bytes <= P2_INTEGRITY_MAX_BYTES
    }

    /// Publishes a field whose regions were digested: appends the
    /// directory's digests then the entries', or, past the ceiling, leaves
    /// the builder as it was.
    pub fn publish(&mut self, directory: P2DigestedRegion, entries: P2DigestedRegion) -> (r: Option<P2FieldIntegrity>)
        ensures
            within_ceiling(
                (old(self).digests@.len() + directory.digests@.len() + entries.digests@.len()) as int,
                old(self).protected_fields + 1,
            ) ==> {
                &&& r == Some(P2FieldIntegrity { entries: entries.region, directory: directory.region })
                &&& final(self).digests@ == old(self).digests@ + directory.digests@ + entries.digests@
                &&& final(self).protected_fields == old(self).protected_fields + 1
            },
            !within_ceiling(
                (old(self).digests@.len() + directory.digests@.len() + entries.digests@.len()) as int,
                old(self).protected_fields + 1,
            ) ==> r is None && final(self).digests@ == old(self).digests@ && final(self).protected_fields
                == old(self).protected_fields,
            final(self).fallback_fields == old(self).fallback_fields,
            final(self).term_occurrences == old(self).term_occurrences,
            final(self).blocks == old(self).blocks,
            final(self).fields == old(self).fields,
    {
        let digest_count = match self.digests.len().checked_add(directory.digests.len()) {
            Some(n) => match n.checked_add(entries.digests.len()) {
                Some(m) => m,
                None => return None,
            },
            None => return None,
        };
        if digest_count > u32::MAX as usize || self.protected_fields == u32::MAX {
            return None;
        }
        let protected_fields = self.protected_fields + 1;
        let bytes = (digest_count as u64) * 32 + (protected_fields as u64) * 64;
        if bytes > P2_INTEGRITY_MAX_BYTES {
            return None;
        }
        let P2DigestedRegion { region: directory_region, digests: mut directory_digests } = directory;
        let P2DigestedRegion { region: entries_region, digests: mut entries_digests } = entries;
        self.digests.append(&mut directory_digests);
        self.digests.append(&mut entries_digests);
        self.protected_fields = protected_fields;
        Some(P2FieldIntegrity { entries: entries_region, directory: directory_region })
    }

    /// The table of everything published.
    pub fn finish(self) -> (r: P2IntegrityTable)
        ensures
            r.digests@ == self.digests@,
            r.protected_fields == self.protected_fields,
            r.fallback_fields == self.fallback_fields,
            r.term_occurrences == self.term_occurrences,
            r.blocks == self.blocks,
            r.fields == self.fields,
    {
        P2IntegrityTable {
            digests: self.digests,
            protected_fields: self.protected_fields,
            fallback_fields: self.fallback_fields,
            term_occurrences: self.term_occurrences,
            blocks: self.blocks,
            fields: self.fields,
        }
    }
}

/// `a + b`, capped at `u64::MAX`.
pub open spec fn sat_add(a: int, b: int) -> int {
    if a + b <= u64::MAX {
        a + b
    } else {
        u64::MAX as int
    }
}

// ----- verified reads -----

/// Counters of verified reads: bytes handed out, pages whose digest did not
/// match, and reads that fell back to an unattested path.
#[derive(Debug, Clone, Copy, PartialEq, Eq, Structural)]
pub struct P2RuntimeMetrics {
    pub verified_bytes: u64,
    pub hash_failures: u64,
    pub fallbacks: u64,
}

/// `a + b` modulo 2^64.
pub open spec fn wrap_add(a: u64, b: u64) -> u64 {
    if a + b > u64::MAX {
        (a + b - 0x1_0000_0000_0000_0000) as u64
    } else {
        (a + b) as u64
    }
}

/// Which pages a read of a range touches, and where they lie in the
/// segment.
#[derive(Debug, Clone, Copy, PartialEq, Eq, Structural)]
pub struct ReadPlan {
    /// Where the pages start in the segment.
    pub read_base: u64,
    /// How many bytes the pages span.
    pub read_len: u32,
    pub first_page: u64,
    pub last_page: u64,
    /// Where the first page starts in the region.
    pub page_start: u64,
    /// Where the range starts among the bytes read.
    pub start: u64,
}

/// The plan of a read of `range_len` bytes at `range_base` within
/// `region`: none when the range is empty, leaves the region, or reaches a
/// page that has no digest.
pub open spec fn read_plan_spec(region: P2VerifiedRegion, range_base: u64, range_len: u64) -> Option<ReadPlan> {
    let region_end = region.data_base + region.data_len;
    let range_end = range_base + range_len;
    if region_end > u64::MAX || range_end > u64::MAX || range_len == 0 || range_base < region.data_base || range_end
        > region_end {
        None
    } else {
        let rel_start = range_base - region.data_base;
        let rel_end = range_end - region.data_base;
        let first_page = rel_start / 4096;
        let last_page = (rel_end - 1) / 4096;
        if last_page >= region.digest_count {
            None
        } else {
            let page_start = first_page * 4096;
            let page_end = if (last_page + 1) * 4096 <= region.data_len {
                (last_page + 1) * 4096
            } else {
                region.data_len as int
            };
            if page_end - page_start > u32::MAX {
                None
            } else {
                Some(
                    ReadPlan {
                        read_base: (region.data_base + page_start) as u64,
                        read_len: (page_end - page_start) as u32,
                        first_page: first_page as u64,
                        last_page: last_page as u64,
                        page_start: page_start as u64,
                        start: (rel_start - page_start) as u64,
                    },
                )
            }
        }
    }
}

/// A read plan covers its range with whole pages of the region: the bytes
/// read start at a page boundary of the region, no earlier than the region
/// and no later than the range; they end no earlier than the range and no
/// later than the region, at a page boundary or at the region's end; the
/// range starts `start` bytes into them; and every page read has a digest.
pub proof fn law_read_plan_covers_range(region: P2VerifiedRegion, range_base: u64, range_len: u64)
    requires
        read_plan_spec(region, range_base, range_len) is Some,
    ensures
        ({
            let p = read_plan_spec(region, range_base, range_len)->Some_0;
            &&& region.data_base <= p.read_base
            &&& p.read_base <= range_base
            &&& p.page_start == p.read_base - region.data_base
            &&& p.page_start == p.first_page * 4096
            &&& p.read_base + p.start == range_base
            &&& range_base + range_len <= p.read_base + p.read_len
            &&& p.read_base + p.read_len <= region.data_base + region.data_len
            &&& (p.page_start + p.read_len == (p.last_page + 1) * 4096 || p.page_start + p.read_len
                == region.data_len)
            &&& p.first_page <= p.last_page
            &&& p.last_page < region.digest_count
        }),
{
    let rel_start = range_base - region.data_base;
    let rel_end = range_base + range_len - region.data_base;
    let first_page = rel_start / 4096;
    let last_page = (rel_end - 1) / 4096;
    assert(first_page * 4096 <= rel_start) by (nonlinear_arith)
        requires
            first_page == rel_start / 4096,
            rel_start >= 0,
    ;
    assert(rel_end - 1 < (last_page + 1) * 4096) by (nonlinear_arith)
        requires
            last_page == (rel_end - 1) / 4096,
            rel_end >= 1,
    ;
    assert(first_page <= last_page) by (nonlinear_arith)
        requires
            first_page == rel_start / 4096,
            last_page == (rel_end - 1) / 4096,
            0 <= rel_start <= rel_end - 1,
    ;
}

/// The pages of a region are the fewest 4096-byte pages that hold it: they
/// hold all its bytes, and one page fewer would not.
pub proof fn law_page_count_is_ceiling(data_len: int)
    requires
        data_len >= 0,
    ensures
        page_count(data_len) * 4096 >= data_len,
        data_len > 0 ==> (page_count(data_len) - 1) * 4096 < data_len,
        data_len == 0 ==> page_count(data_len) == 0,
{
}

/// Plans the read of `range_len` bytes at `range_base` within `region`.
pub fn p2_read_plan(region: &P2VerifiedRegion, range_base: u64, range_len: u64) -> (r: Result<ReadPlan, PostingsReadError>)
    ensures
        match read_plan_spec(*region, range_base, range_len) {
            Some(p) => r == Ok::<ReadPlan, PostingsReadError>(p),
            None => r == Err::<ReadPlan, PostingsReadError>(PostingsReadError::Corrupt),
        },
        r matches Ok(p) ==> p.first_page <= p.last_page < region.digest_count,
{
    let region_end = match region.data_base.checked_add(region.data_len) {
        Some(e) => e,
        None => return Err(PostingsReadError::Corrupt),
    };
    let range_end = match range_base.checked_add(range_len) {
        Some(e) => e,
        None => return Err(PostingsReadError::Corrupt),
    };
    if range_len == 0 || range_base < region.data_base || range_end > region_end {
        return Err(PostingsReadError::Corrupt);
    }
    let relative_start = range_base - region.data_base;
    let relative_end = range_end - region.data_base;
    let first_page = relative_start / 4096;
    let last_page = (relative_end - 1) / 4096;
    if last_page >= region.digest_count as u64 {
        return Err(PostingsReadError::Corrupt);
    }
    let page_start = first_page * 4096;
    let page_end = if (last_page + 1) * 4096 <= region.data_len {
        (last_page + 1) * 4096
    } else {
        region.data_len
    };
    proof {
        assert(first_page * 4096 <= relative_start) by (nonlinear_arith)
            requires
                first_page == relative_start / 4096,
        ;
        assert(relative_end - 1 < (last_page + 1) * 4096) by (nonlinear_arith)
            requires
                last_page == (relative_end - 1) / 4096,
                relative_end >= 1,
        ;
    }
    if page_end - page_start > u32::MAX as u64 {
        return Err(PostingsReadError::Corrupt);
    }
    Ok(
        ReadPlan {
            read_base: region.data_base + page_start,
            read_len: (page_end - page_start) as u32,
            first_page,
            last_page,
            page_start,
            start: relative_start - page_start,
        },
    )
}

/// How a page of a read checks: good, malformed (no digest, or its bytes
/// were not all read), or hashing to another digest.
#[derive(Debug, Clone, Copy, PartialEq, Eq, Structural)]
pub enum PageCheck {
    Good,
    Malformed,
    Mismatch,
}

/// The check of page `p` of a read planned as `plan`, whose bytes are
/// `bytes`, against the table's `digests`.
pub open spec fn page_check(region: P2VerifiedRegion, digests: Seq<[u8; 32]>, plan: ReadPlan, bytes: Seq<u8>, p: int) -> PageCheck {
    let index = region.digest_start + p;
    let logical_start = p * 4096;
    let logical_end = if logical_start + 4096 <= region.data_len {
        logical_start + 4096
    } else {
        region.data_len as int
    };
    let a = logical_start - plan.page_start;
    let b = logical_end - plan.page_start;
    if index > u32::MAX || index >= digests.len() || a < 0 || b < a || b > bytes.len() {
        PageCheck::Malformed
    } else if digests[index]@ == page_digest(
        region.kind,
        region.field_ordinal,
        region.data_base,
        region.data_len,
        p as u64,
        bytes.subrange(a, b),
    ) {
        PageCheck::Good
    } else {
        PageCheck::Mismatch
    }
}

/// The check of the first page from `p` on, up to the plan's last, that is
/// not good.
pub open spec fn first_failure(region: P2VerifiedRegion, digests: Seq<[u8; 32]>, plan: ReadPlan, bytes: Seq<u8>, p: int) -> Option<PageCheck>
    decreases plan.last_page + 1 - p,
{
    if p > plan.last_page {
        None
    } else {
        match page_check(region, digests, plan, bytes, p) {
            PageCheck::Good => first_failure(region, digests, plan, bytes, p + 1),
            f => Some(f),
        }
    }
}

/// What a verified read answers: the range's bytes when every page checks
/// good and the range lies among the bytes read.
pub open spec fn verified_range_spec(
    region: P2VerifiedRegion,
    digests: Seq<[u8; 32]>,
    plan: ReadPlan,
    bytes: Seq<u8>,
    range_len: u64,
) -> Option<Seq<u8>> {
    if first_failure(region, digests, plan, bytes, plan.first_page as int) is Some {
        None
    } else if plan.start + range_len > bytes.len() {
        None
    } else {
        Some(bytes.subrange(plan.start as int, plan.start + range_len))
    }
}

/// Checks each page of a read planned as `plan`, whose bytes are `bytes`,
/// against the table, then hands out the `range_len` bytes of the range.
/// A digest mismatch counts as a hash failure; a good read counts its
/// bytes as verified.
pub fn p2_verify_range(
    region: &P2VerifiedRegion,
    integrity: &P2IntegrityTable,
    metrics: &mut P2RuntimeMetrics,
    plan: &ReadPlan,
    bytes: &[u8],
    range_len: u64,
) -> (r: Result<Vec<u8>, PostingsReadError>)
    requires
        plan.first_page <= plan.last_page < u32::MAX,
    ensures
        match verified_range_spec(*region, integrity.digests@, *plan, bytes@, range_len) {
            Some(v) => (r matches Ok(x) && x@ == v),
            None => r == Err::<Vec<u8>, PostingsReadError>(PostingsReadError::Corrupt),
        },
        final(metrics).hash_failures == if first_failure(*region, integrity.digests@, *plan, bytes@, plan.first_page as int)
            == Some(PageCheck::Mismatch) {
            wrap_add(old(metrics).hash_failures, 1)
        } else {
            old(metrics).hash_failures
        },
        final(metrics).verified_bytes == if first_failure(*region, integrity.digests@, *plan, bytes@, plan.first_page as int)
            is None {
            wrap_add(old(metrics).verified_bytes, plan.read_len as u64)
        } else {
            old(metrics).verified_bytes
        },
        final(metrics).fallbacks == old(metrics).fallbacks,
{
    let ghost digests = integrity.digests@;
    let mut p: u64 = plan.first_page;
    while p <= plan.last_page
        invariant
            plan.first_page <= p <= plan.last_page + 1,
            plan.last_page < u32::MAX,
            first_failure(*region, digests, *plan, bytes@, plan.first_page as int) == first_failure(
                *region,
                digests,
                *plan,
                bytes@,
                p as int,
            ),
            digests == integrity.digests@,
            *metrics == *old(metrics),
        decreases plan.last_page + 1 - p,
    {
        let ghost pc = page_check(*region, digests, *plan, bytes@, p as int);
        let index = region.digest_start as u64 + p;
        if index > u32::MAX as u64 {
            return Err(PostingsReadError::Corrupt);
        }
        let expected = match integrity.digest(index as u32) {
            Some(d) => d,
            None => return Err(PostingsReadError::Corrupt),
        };
        let logical_start = p * 4096;
        let logical_end = if logical_start + 4096 <= region.data_len {
            logical_start + 4096
        } else {
            region.data_len
        };
        if logical_start < plan.page_start || logical_end < logical_start {
            return Err(PostingsReadError::Corrupt);
        }
        let a = logical_start - plan.page_start;
        let b = logical_end - plan.page_start;
        if b > bytes.len() as u64 {
            return Err(PostingsReadError::Corrupt);
        }
        let page = slice_range(bytes, a as usize, b as usize);
        let actual = p2_digest_page(region.kind, region.field_ordinal, region.data_base, region.data_len, p, page);
        if !digests_equal(&actual, expected) {
            assert(pc == PageCheck::Mismatch);
            metrics.hash_failures = metrics.hash_failures.wrapping_add(1);
            return Err(PostingsReadError::Corrupt);
        }
        assert(pc == PageCheck::Good);
        p += 1;
    }
    metrics.verified_bytes = metrics.verified_bytes.wrapping_add(plan.read_len as u64);
    if plan.start > bytes.len() as u64 || range_len > bytes.len() as u64 - plan.start {
        return Err(PostingsReadError::Corrupt);
    }
    let start = plan.start as usize;
    let end = start + range_len as usize;
    let mut out: Vec<u8> = Vec::new();
    push_bytes(&mut out, slice_range(bytes, start, end));
    assert(out@ =~= bytes@.subrange(start as int, end as int));
    Ok(out)
}

proof fn lemma_all_good(region: P2VerifiedRegion, digests: Seq<[u8; 32]>, plan: ReadPlan, bytes: Seq<u8>, p: int)
    requires
        plan.first_page <= p,
        forall|q: int| p <= q <= plan.last_page ==> #[trigger] page_check(region, digests, plan, bytes, q) == PageCheck::Good,
    ensures
        first_failure(region, digests, plan, bytes, p) is None,
    decreases plan.last_page + 1 - p,
{
    if p <= plan.last_page {
        lemma_all_good(region, digests, plan, bytes, p + 1);
    }
}

/// A read of a range of a region whose digests are in the table, fed the
/// region's own bytes over the planned pages, hands out exactly the bytes
/// of the range.
pub proof fn law_verified_read_round_trip(
    data: Seq<u8>,
    region: P2VerifiedRegion,
    digests: Seq<[u8; 32]>,
    range_base: u64,
    range_len: u64,
)
    requires
        region.data_len == data.len(),
        region.digest_count == page_count(data.len() as int),
        region.digest_start + region.digest_count <= digests.len(),
        region.digest_start + region.digest_count <= u32::MAX + 1,
        forall|i: int| #![trigger digests[region.digest_start + i]]
            0 <= i < region.digest_count ==> digests[region.digest_start + i]@ == page_digest(
                region.kind,
                region.field_ordinal,
                region.data_base,
                region.data_len,
                i as u64,
                page_bytes(data, i),
            ),
        read_plan_spec(region, range_base, range_len) is Some,
    ensures
        ({
            let plan = read_plan_spec(region, range_base, range_len)->Some_0;
            let bytes = data.subrange(plan.page_start as int, plan.page_start + plan.read_len);
            verified_range_spec(region, digests, plan, bytes, range_len) == Some(
                data.subrange(range_base - region.data_base, range_base - region.data_base + range_len),
            )
        }),
{
    let plan = read_plan_spec(region, range_base, range_len)->Some_0;
    let rel_start = range_base - region.data_base;
    let rel_end = range_base + range_len - region.data_base;
    let first = rel_start / 4096;
    let last = (rel_end - 1) / 4096;
    assert(first * 4096 <= rel_start) by (nonlinear_arith)
        requires
            first == rel_start / 4096,
            rel_start >= 0,
    ;
    assert(rel_end - 1 < (last + 1) * 4096) by (nonlinear_arith)
        requires
            last == (rel_end - 1) / 4096,
            rel_end >= 1,
    ;
    assert(first <= last) by (nonlinear_arith)
        requires
            first == rel_start / 4096,
            last == (rel_end - 1) / 4096,
            rel_start <= rel_end - 1,
    ;
    let page_end = if (last + 1) * 4096 <= region.data_len {
        (last + 1) * 4096
    } else {
        region.data_len as int
    };
    assert(plan.page_start == first * 4096);
    assert(plan.read_len == page_end - first * 4096);
    let bytes = data.subrange(plan.page_start as int, plan.page_start + plan.read_len);
    assert forall|q: int| first <= q <= last implies #[trigger] page_check(region, digests, plan, bytes, q)
        == PageCheck::Good by {
        let ls = q * 4096;
        assert(first * 4096 <= q * 4096 && q * 4096 <= last * 4096) by (nonlinear_arith)
            requires
                first <= q <= last,
        ;
        let le = if ls + 4096 <= region.data_len {
            ls + 4096
        } else {
            region.data_len as int
        };
        let a = ls - plan.page_start;
        let b = le - plan.page_start;
        assert(bytes.subrange(a, b) =~= page_bytes(data, q));
        assert(digests[region.digest_start + q]@ == page_digest(
            region.kind,
            region.field_ordinal,
            region.data_base,
            region.data_len,
            q as u64,
            page_bytes(data, q),
        ));
    }
    lemma_all_good(region, digests, plan, bytes, first);
    assert(bytes.subrange(plan.start as int, plan.start + range_len) =~= data.subrange(rel_start, rel_end));
}

} // verus!
