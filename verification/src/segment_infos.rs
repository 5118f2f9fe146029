//! Lucene `SegmentInfos`: commit generations, `segments_N` file names and
//! the commit file that lists a commit's segments.

use vstd::prelude::*;

use crate::codec_util::{check_footer, footer_check, with_footer, write_footer, write_index_header};
use crate::commit_format::{
    commit_ok, encode_commit_body, pairs_map, parse_commit, segment_matches, segment_view,
    string_values, user_data_view, CommitView,
};
use crate::string_map::StringMap;
use crate::text::{chars_of, concat, string_of};

verus! {

/// Base name of a commit file.
pub const SEGMENTS: &'static str = "segments";

/// Base name of a commit file being written.
pub const PENDING_SEGMENTS: &'static str = "pending_segments";

/// The generation file of old indexes, not a commit file since 4.0.
pub const OLD_SEGMENTS_GEN: &'static str = "segments.gen";

pub open spec fn segments_chars() -> Seq<char> {
    seq!['s', 'e', 'g', 'm', 'e', 'n', 't', 's']
}

pub open spec fn old_segments_gen_chars() -> Seq<char> {
    segments_chars() + seq!['.', 'g', 'e', 'n']
}

/// Errors raised by commit bookkeeping and by the commit file codec.
#[allow(inconsistent_fields)]
#[derive(Debug, Clone, PartialEq, Eq)]
pub enum SegmentInfosError {
    OldSegmentsGen,
    NotSegmentsFile { file_name: String },
    InvalidGeneration { file_name: String },
    UnsupportedIndexCreatedVersion { major: i32 },
    GenerationDecrease { requested: i64, current: i64 },
    Codec(crate::codec_util::CodecError),
    InvalidCount { count: i32 },
    InvalidIdMarker { marker: u8 },
    TrailingBytes { count: usize },
    /// A string or a count does not fit the commit format, or the counter is
    /// negative.
    Unencodable,
}

pub open spec fn starts_with(s: Seq<char>, prefix: Seq<char>) -> bool {
    s.len() >= prefix.len() && s.subrange(0, prefix.len() as int) == prefix
}

/// The value of a base-36 digit, either case.
pub open spec fn digit_value(c: char) -> Option<int> {
    if '0' <= c && c <= '9' {
        Some(c as int - 48)
    } else if 'a' <= c && c <= 'z' {
        Some(c as int - 87)
    } else if 'A' <= c && c <= 'Z' {
        Some(c as int - 55)
    } else {
        None
    }
}

pub open spec fn all_digits(s: Seq<char>) -> bool {
    forall|i: int| 0 <= i < s.len() ==> #[trigger] digit_value(s[i]) is Some
}

/// The number the base-36 digits of `s` spell, most significant first.
pub open spec fn base36_value(s: Seq<char>) -> int
    decreases s.len(),
{
    if s.len() == 0 {
        0
    } else {
        base36_value(s.drop_last()) * 36 + digit_value(s.last())->0
    }
}

/// What `parse_base36` answers: the value of a non-empty run of digits that
/// fits an `i64`.
pub open spec fn parse_base36_spec(s: Seq<char>) -> Option<i64> {
    if s.len() > 0 && all_digits(s) && base36_value(s) <= i64::MAX {
        Some(base36_value(s) as i64)
    } else {
        None
    }
}

/// The lower-case digit for `d < 36`.
pub open spec fn digit_char(d: nat) -> char {
    if d < 10 {
        ((48 + d) as u8) as char
    } else {
        ((87 + d) as u8) as char
    }
}

/// The base-36 digits of `v`, most significant first, lower case.
pub open spec fn base36_digits(v: nat) -> Seq<char>
    decreases v,
{
    if v < 36 {
        seq![digit_char(v)]
    } else {
        base36_digits(v / 36).push(digit_char(v % 36))
    }
}

/// `Long.toString(v, 36)`.
pub open spec fn base36_string(v: int) -> Seq<char> {
    if v >= 0 {
        base36_digits(v as nat)
    } else {
        seq!['-'] + base36_digits((-v) as nat)
    }
}

proof fn lemma_base36_value_nonneg(s: Seq<char>)
    requires
        all_digits(s),
    ensures
        base36_value(s) >= 0,
    decreases s.len(),
{
    if s.len() > 0 {
        assert(digit_value(s[s.len() - 1]) is Some);
        assert(all_digits(s.drop_last())) by {
            assert forall|i: int| 0 <= i < s.drop_last().len() implies #[trigger] digit_value(s.drop_last()[i]) is Some by {
                assert(s.drop_last()[i] == s[i]);
            }
        }
        lemma_base36_value_nonneg(s.drop_last());
    }
}

/// A prefix of a run of digits spells no more than the whole run.
proof fn lemma_base36_prefix_le(s: Seq<char>, k: int)
    requires
        all_digits(s),
        0 <= k <= s.len(),
    ensures
        base36_value(s.subrange(0, k)) <= base36_value(s),
    decreases s.len() - k,
{
    if k < s.len() {
        let t = s.subrange(0, k + 1);
        assert(all_digits(t)) by {
            assert forall|i: int| 0 <= i < t.len() implies #[trigger] digit_value(t[i]) is Some by {
                assert(t[i] == s[i]);
            }
        }
        assert(t.drop_last() =~= s.subrange(0, k));
        assert(digit_value(s[k]) is Some);
        lemma_base36_value_nonneg(t.drop_last());
        lemma_base36_prefix_le(s, k + 1);
    } else {
        assert(s.subrange(0, k) =~= s);
    }
}

/// Base-36 digits read back as the value they were written from.
pub proof fn lemma_base36_digits(v: nat)
    ensures
        base36_digits(v).len() > 0,
        all_digits(base36_digits(v)),
        base36_value(base36_digits(v)) == v,
        forall|i: int| 0 <= i < base36_digits(v).len() ==> ((#[trigger] base36_digits(v)[i]) as int) < 128,
    decreases v,
{
    let d = digit_char(v % 36);
    assert(digit_value(d) == Some((v % 36) as int));
    if v < 36 {
        assert(base36_digits(v).drop_last() =~= Seq::<char>::empty());
        assert(base36_value(Seq::<char>::empty()) == 0);
        assert(base36_digits(v).last() == d);
    }
    if v >= 36 {
        lemma_base36_digits(v / 36);
        let s = base36_digits(v);
        assert(s.drop_last() =~= base36_digits(v / 36));
        assert(s.last() == d);
        assert(v == (v / 36) * 36 + v % 36);
        assert(base36_value(s) == base36_value(base36_digits(v / 36)) * 36 + (v % 36));
        assert(all_digits(s)) by {
            assert forall|i: int| 0 <= i < s.len() implies #[trigger] digit_value(s[i]) is Some by {
                if i < s.len() - 1 {
                    assert(s[i] == base36_digits(v / 36)[i]);
                }
            }
        }
        assert forall|i: int| 0 <= i < s.len() implies ((#[trigger] s[i]) as int) < 128 by {
            if i < s.len() - 1 {
                assert(s[i] == base36_digits(v / 36)[i]);
            }
        }
    }
}

fn digit_of(c: char) -> (r: Option<i64>)
    ensures
        r == match digit_value(c) {
            Some(d) => Some(d as i64),
            None => None::<i64>,
        },
{
    if '0' <= c && c <= '9' {
        Some((c as u32 - 48) as i64)
    } else if 'a' <= c && c <= 'z' {
        Some((c as u32 - 87) as i64)
    } else if 'A' <= c && c <= 'Z' {
        Some((c as u32 - 55) as i64)
    } else {
        None
    }
}

/// Parses base-36 digits of either case; `None` for an empty input, any
/// other character, or a value beyond `i64::MAX`.
fn parse_base36(value: &str) -> (r: Option<i64>)
    ensures
        r == parse_base36_spec(value@),
{
    let chars = chars_of(value);
    if chars.len() == 0 {
        return None;
    }
    let mut parsed: i64 = 0;
    let mut i: usize = 0;
    while i < chars.len()
        invariant
            chars@ == value@,
            i <= chars.len(),
            all_digits(chars@.subrange(0, i as int)),
            parsed == base36_value(chars@.subrange(0, i as int)),
        decreases chars.len() - i,
    {
        let ghost pre = chars@.subrange(0, i as int);
        let ghost next = chars@.subrange(0, i + 1);
        assert(next.drop_last() =~= pre);
        let d = match digit_of(chars[i]) {
            Some(d) => d,
            None => {
                proof {
                    assert(!all_digits(value@)) by {
                        assert(digit_value(value@[i as int]) is None);
                    }
                }
                return None;
            },
        };
        proof {
            lemma_base36_value_nonneg(pre);
        }
        if parsed > (i64::MAX - d) / 36 {
            proof {
                assert(all_digits(next)) by {
                    assert forall|k: int| 0 <= k < next.len() implies #[trigger] digit_value(next[k]) is Some by {
                        if k < i {
                            assert(next[k] == pre[k]);
                        }
                    }
                }
                assert(parsed * 36 + d > i64::MAX) by (nonlinear_arith)
                    requires
                        parsed > (i64::MAX - d) / 36,
                        0 <= d < 36,
                ;
                assert(base36_value(next) > i64::MAX);
                if all_digits(value@) {
                    lemma_base36_prefix_le(value@, i + 1);
                }
            }
            return None;
        }
        proof {
            assert(parsed * 36 + d <= i64::MAX) by (nonlinear_arith)
                requires
                    parsed <= (i64::MAX - d) / 36,
                    0 <= d < 36,
                    parsed >= 0,
            ;
        }
        parsed = parsed * 36 + d;
        i += 1;
        proof {
            assert(all_digits(next)) by {
                assert forall|k: int| 0 <= k < next.len() implies #[trigger] digit_value(next[k]) is Some by {
                    if k < i - 1 {
                        assert(next[k] == pre[k]);
                    }
                }
            }
        }
    }
    assert(chars@.subrange(0, i as int) =~= value@);
    Some(parsed)
}

fn digit_char_of(d: u64) -> (r: char)
    requires
        d < 36,
    ensures
        r == digit_char(d as nat),
{
    let b = d as u8;
    if b < 10 {
        (48u8 + b) as char
    } else {
        (87u8 + b) as char
    }
}

fn push_base36_digits(out: &mut Vec<char>, v: u64)
    ensures
        final(out)@ == old(out)@ + base36_digits(v as nat),
    decreases v,
{
    if v >= 36 {
        push_base36_digits(out, v / 36);
    }
    out.push(digit_char_of(v % 36));
    proof {
        if v < 36 {
            assert(out@ =~= old(out)@ + base36_digits(v as nat));
        } else {
            assert(out@ =~= old(out)@ + base36_digits(v as nat));
        }
    }
}

/// `Long.toString(value, 36)`: lower-case digits, a leading `-` when
/// negative.
fn format_base36(value: i64) -> (r: String)
    ensures
        r@ == base36_string(value as int),
{
    let mut chars: Vec<char> = Vec::new();
    if value < 0 {
        chars.push('-');
        let magnitude: u64 = ((-(value + 1)) as u64) + 1;
        push_base36_digits(&mut chars, magnitude);
    } else {
        push_base36_digits(&mut chars, value as u64);
    }
    string_of(&chars)
}

/// `base` and `extension` joined as Lucene joins a segment's file name:
/// `base`, then `_suffix` when the suffix is not empty, then `.extension`
/// when the extension is not empty.
pub open spec fn segment_file_name_spec(base: Seq<char>, suffix: Seq<char>, extension: Seq<char>) -> Seq<char> {
    base + (if suffix.len() == 0 {
        Seq::<char>::empty()
    } else {
        seq!['_'] + suffix
    }) + (if extension.len() == 0 {
        Seq::<char>::empty()
    } else {
        seq!['.'] + extension
    })
}

fn segment_file_name(segment_name: &str, segment_suffix: &str, extension: &str) -> (r: String)
    ensures
        r@ == segment_file_name_spec(segment_name@, segment_suffix@, extension@),
{
    let mut chars = chars_of(segment_name);
    let suffix = chars_of(segment_suffix);
    let ext = chars_of(extension);
    if suffix.len() > 0 {
        chars.push('_');
        append_chars(&mut chars, &suffix);
    }
    if ext.len() > 0 {
        chars.push('.');
        append_chars(&mut chars, &ext);
    }
    assert(chars@ =~= segment_file_name_spec(segment_name@, segment_suffix@, extension@));
    string_of(&chars)
}

fn append_chars(out: &mut Vec<char>, tail: &Vec<char>)
    ensures
        final(out)@ == old(out)@ + tail@,
{
    let mut i: usize = 0;
    while i < tail.len()
        invariant
            i <= tail.len(),
            out@ == old(out)@ + tail@.subrange(0, i as int),
        decreases tail.len() - i,
    {
        out.push(tail[i]);
        i += 1;
        assert(out@ =~= old(out)@ + tail@.subrange(0, i as int));
    }
    assert(tail@.subrange(0, i as int) =~= tail@);
}

/// The file name of generation `generation` of `base`: none for -1, `base`
/// (with the extension) for 0, else `base_<generation in base 36>`.
pub open spec fn generation_file_name(base: Seq<char>, extension: Seq<char>, generation: i64) -> Option<Seq<char>> {
    if generation == -1 {
        None
    } else if generation == 0 {
        Some(segment_file_name_spec(base, Seq::empty(), extension))
    } else {
        Some(segment_file_name_spec(base, base36_string(generation as int), extension))
    }
}

/// The file name of a generation; see [`generation_file_name`].
pub fn file_name_from_generation(base: &str, extension: &str, generation: i64) -> (r: Option<String>)
    ensures
        match generation_file_name(base@, extension@, generation) {
            Some(name) => (r matches Some(s) && s@ == name),
            None => r is None,
        },
{
    if generation == -1 {
        return None;
    }
    if generation == 0 {
        let empty = "";
        proof {
            reveal_strlit("");
        }
        return Some(segment_file_name(base, empty, extension));
    }
    let digits = format_base36(generation);
    Some(segment_file_name(base, digits.as_str(), extension))
}

/// The generation a commit file name carries, if it carries a valid one.
pub open spec fn generation_of(f: Seq<char>) -> Option<i64> {
    if f == old_segments_gen_chars() {
        None
    } else if f == segments_chars() {
        Some(0)
    } else if starts_with(f, segments_chars()) && f.len() >= 9 && (f[8] as int) < 128 {
        parse_base36_spec(f.skip(9))
    } else {
        None
    }
}

/// The error reading the generation of `f` answers, when it has none.
pub open spec fn generation_error(f: Seq<char>, e: SegmentInfosError) -> bool {
    if f == old_segments_gen_chars() {
        e == SegmentInfosError::OldSegmentsGen
    } else if starts_with(f, segments_chars()) {
        e matches SegmentInfosError::InvalidGeneration { file_name } && file_name@ == f
    } else {
        e matches SegmentInfosError::NotSegmentsFile { file_name } && file_name@ == f
    }
}

/// The generation of a commit file: 0 for `segments`, the base-36 number
/// after `segments` and one separator otherwise.
pub fn generation_from_segments_file_name(file_name: &str) -> (r: Result<i64, SegmentInfosError>)
    ensures
        match generation_of(file_name@) {
            Some(g) => r == Ok::<i64, SegmentInfosError>(g),
            None => (r matches Err(e) && generation_error(file_name@, e)),
        },
{
    let chars = chars_of(file_name);
    let n = chars.len();
    let starts = n >= 8 && chars[0] == 's' && chars[1] == 'e' && chars[2] == 'g' && chars[3] == 'm'
        && chars[4] == 'e' && chars[5] == 'n' && chars[6] == 't' && chars[7] == 's';
    proof {
        if n >= 8 {
            let t = file_name@.subrange(0, 8);
            if starts {
                assert(t =~= segments_chars());
            } else if t == segments_chars() {
                assert(t[0] == 's' && t[1] == 'e' && t[2] == 'g' && t[3] == 'm' && t[4] == 'e'
                    && t[5] == 'n' && t[6] == 't' && t[7] == 's');
            }
        }
    }
    let is_old = starts && n == 12 && chars[8] == '.' && chars[9] == 'g' && chars[10] == 'e'
        && chars[11] == 'n';
    proof {
        if is_old {
            assert(file_name@ =~= old_segments_gen_chars());
        } else if file_name@ == old_segments_gen_chars() {
            assert(file_name@.subrange(0, 8) =~= segments_chars());
            assert(file_name@[8] == '.' && file_name@[9] == 'g' && file_name@[10] == 'e'
                && file_name@[11] == 'n');
        }
    }
    if is_old {
        return Err(SegmentInfosError::OldSegmentsGen);
    }
    if starts && n == 8 {
        assert(file_name@ =~= segments_chars());
        return Ok(0);
    }
    if !starts {
        proof {
            if file_name@ == segments_chars() {
                assert(file_name@.subrange(0, 8) =~= segments_chars());
            }
        }
        return Err(SegmentInfosError::NotSegmentsFile { file_name: file_name.to_owned() });
    }
    assert(file_name@ != segments_chars());
    let c8 = chars[8];
    assert(c8 == file_name@[8]);
    if c8 >= '\u{80}' {
        return Err(SegmentInfosError::InvalidGeneration { file_name: file_name.to_owned() });
    }
    let mut tail: Vec<char> = Vec::new();
    let mut i: usize = 9;
    while i < n
        invariant
            chars@ == file_name@,
            n == chars@.len(),
            9 <= i <= n,
            tail@ == file_name@.subrange(9, i as int),
        decreases n - i,
    {
        tail.push(chars[i]);
        i += 1;
        assert(tail@ =~= file_name@.subrange(9, i as int));
    }
    assert(tail@ =~= file_name@.skip(9));
    let tail_str = string_of(&tail);
    match parse_base36(tail_str.as_str()) {
        Some(g) => Ok(g),
        None => Err(SegmentInfosError::InvalidGeneration { file_name: file_name.to_owned() }),
    }
}

/// The commit file name of a generation reads back as that generation.
pub proof fn law_generation_name_round_trip(generation: i64)
    requires
        generation >= 0,
    ensures
        generation_file_name(segments_chars(), Seq::empty(), generation) matches Some(name) && generation_of(name)
            == Some(generation),
{
    let name = generation_file_name(segments_chars(), Seq::empty(), generation)->Some_0;
    if generation == 0 {
        assert(name =~= segments_chars());
    } else {
        let digits = base36_string(generation as int);
        lemma_base36_digits(generation as nat);
        assert(name =~= segments_chars() + seq!['_'] + digits);
        assert(name.subrange(0, 8) =~= segments_chars());
        assert(name[8] == '_');
        assert(name.skip(9) =~= digits);
        assert(name != old_segments_gen_chars()) by {
            assert(old_segments_gen_chars()[8] == '.');
        }
        assert(name != segments_chars()) by {
            assert(name.len() > 8);
        }
    }
}

/// The identity of a segment: its name, its 16-byte id and its codec.
#[derive(Debug, Clone, PartialEq, Eq)]
pub struct SegmentMetadata {
    pub name: String,
    pub id: [u8; 16],
    pub codec: String,
}

/// A segment as a commit lists it.
#[derive(Debug, Clone, PartialEq, Eq)]
pub struct SegmentCommitInfo {
    pub metadata: SegmentMetadata,
    pub del_gen: i64,
    pub del_count: i32,
    pub field_infos_gen: i64,
    pub doc_values_gen: i64,
    pub soft_del_count: i32,
    pub sci_id: Option<[u8; 16]>,
    /// The field infos files, as a set of names.
    pub field_infos_files: StringMap<()>,
    /// The doc values update files per field number.
    pub doc_values_update_files: Vec<(i32, StringMap<()>)>,
}

/// A written commit file.
#[derive(Debug, Clone, PartialEq, Eq)]
pub struct SegmentInfosCommit {
    pub file_name: String,
    pub bytes: Vec<u8>,
}

/// The abstract state of [`SegmentInfos`] that its private fields hold.
pub struct SegmentInfosView {
    pub index_created_version_major: i32,
    pub generation: i64,
    pub last_generation: i64,
    pub id: Option<Seq<u8>>,
    pub lucene_version: Option<(i32, i32, i32)>,
    pub counter: i64,
    pub version: i64,
    pub segments: Seq<SegmentCommitInfo>,
    pub user_data: StringMap<String>,
}

/// The Lucene version this library writes.
pub open spec fn latest_version() -> (i32, i32, i32) {
    (11, 0, 0)
}

/// The generation the next commit is written under.
pub open spec fn next_generation(generation: i64) -> int {
    if generation == -1 {
        1
    } else {
        generation + 1
    }
}

/// A commit's bookkeeping: generations, counters, its segments and user
/// data.
#[derive(Debug, Clone, PartialEq, Eq)]
pub struct SegmentInfos {
    index_created_version_major: i32,
    generation: i64,
    last_generation: i64,
    id: Option<[u8; 16]>,
    lucene_version: Option<(i32, i32, i32)>,
    pub counter: i64,
    pub version: i64,
    pub segments: Vec<SegmentCommitInfo>,
    pub user_data: StringMap<String>,
}

impl View for SegmentInfos {
    type V = SegmentInfosView;

    closed spec fn view(&self) -> SegmentInfosView {
        SegmentInfosView {
            index_created_version_major: self.index_created_version_major,
            generation: self.generation,
            last_generation: self.last_generation,
            id: match self.id {
                Some(x) => Some(x@),
                None => None,
            },
            lucene_version: self.lucene_version,
            counter: self.counter,
            version: self.version,
            segments: self.segments@,
            user_data: self.user_data,
        }
    }
}

impl SegmentInfos {
    /// Empty bookkeeping for an index created by Lucene major version
    /// `index_created_version_major`, which must be at least 6.
    pub fn new(index_created_version_major: i32) -> (r: Result<Self, SegmentInfosError>)
        ensures
            index_created_version_major < 6 ==> r == Err::<Self, SegmentInfosError>(
                SegmentInfosError::UnsupportedIndexCreatedVersion { major: index_created_version_major },
            ),
            index_created_version_major >= 6 ==> (r matches Ok(infos) && infos.wf()
                && infos@.index_created_version_major == index_created_version_major
                && infos@.generation == 0 && infos@.last_generation == 0 && infos@.id is None
                && infos@.lucene_version is None && infos@.counter == 0 && infos@.version == 0
                && infos@.segments.len() == 0 && infos@.user_data.map().dom().len() == 0),
    {
        if index_created_version_major < 6 {
            return Err(SegmentInfosError::UnsupportedIndexCreatedVersion { major: index_created_version_major });
        }
        let user_data = StringMap::new();
        proof {
            assert(user_data.map().dom() =~= Set::<Seq<char>>::empty());
        }
        Ok(SegmentInfos {
            index_created_version_major,
            generation: 0,
            last_generation: 0,
            id: None,
            lucene_version: None,
            counter: 0,
            version: 0,
            segments: Vec::new(),
            user_data,
        })
    }

    /// What the commit codec needs: a supported creation version, a
    /// generation of -1 or more, and ordered name maps.
    pub closed spec fn wf(&self) -> bool {
        &&& self.index_created_version_major >= 6
        &&& self.generation >= -1
        &&& self.user_data.wf()
        &&& forall|i: int| 0 <= i < self.segments@.len() ==> #[trigger] crate::commit_format::segment_maps_wf(self.segments@[i])
    }

    /// What well-formedness says of the view.
    pub proof fn lemma_wf(&self)
        requires
            self.wf(),
        ensures
            self@.index_created_version_major >= 6,
            self@.generation >= -1,
            self@.user_data.wf(),
            forall|i: int| 0 <= i < self@.segments.len() ==> #[trigger] crate::commit_format::segment_maps_wf(self@.segments[i]),
    {
    }

    pub fn index_created_version_major(&self) -> (r: i32)
        ensures
            r == self@.index_created_version_major,
    {
        self.index_created_version_major
    }

    pub fn generation(&self) -> (r: i64)
        ensures
            r == self@.generation,
    {
        self.generation
    }

    pub fn last_generation(&self) -> (r: i64)
        ensures
            r == self@.last_generation,
    {
        self.last_generation
    }

    /// The id of the commit last written or read.
    pub fn id(&self) -> (r: Option<[u8; 16]>)
        ensures
            match r {
                Some(x) => self@.id == Some(x@),
                None => self@.id is None,
            },
    {
        self.id
    }

    /// The Lucene version of the commit last read.
    pub fn lucene_version(&self) -> (r: Option<(i32, i32, i32)>)
        ensures
            r == self@.lucene_version,
    {
        self.lucene_version
    }

    /// Sets the commit counter.
    pub fn set_counter(&mut self, counter: i64)
        ensures
            final(self)@ == (SegmentInfosView { counter, ..old(self)@ }),
            old(self).wf() ==> final(self).wf(),
    {
        self.counter = counter;
    }

    /// Appends a segment to the commit's list.
    pub fn push_segment(&mut self, segment: SegmentCommitInfo)
        ensures
            final(self)@ == (SegmentInfosView { segments: old(self)@.segments.push(segment), ..old(self)@ }),
            old(self).wf() && crate::commit_format::segment_maps_wf(segment) ==> final(self).wf(),
    {
        self.segments.push(segment);
        proof {
            if old(self).wf() && crate::commit_format::segment_maps_wf(segment) {
                assert forall|i: int| 0 <= i < self.segments@.len() implies #[trigger] crate::commit_format::segment_maps_wf(self.segments@[i]) by {
                    if i < old(self).segments@.len() {
                        assert(self.segments@[i] == old(self).segments@[i]);
                    }
                }
            }
        }
    }

    /// The file name of the last commit.
    pub fn get_segments_file_name(&self) -> (r: Option<String>)
        ensures
            match generation_file_name(segments_chars(), Seq::empty(), self@.last_generation) {
                Some(name) => (r matches Some(s) && s@ == name),
                None => r is None,
            },
    {
        let empty = "";
        proof {
            reveal_strlit("");
            reveal_strlit("segments");
            assert(SEGMENTS@ =~= segments_chars());
        }
        file_name_from_generation(SEGMENTS, empty, self.last_generation)
    }

    /// The generation the next commit will be written under.
    pub fn get_next_pending_generation(&self) -> (r: i64)
        requires
            self@.generation < i64::MAX,
        ensures
            r == next_generation(self@.generation),
    {
        if self.generation == -1 {
            1
        } else {
            self.generation + 1
        }
    }

    /// Sets the generation the next commit is written after; it may not go
    /// backwards.
    pub fn set_next_write_generation(&mut self, generation: i64) -> (r: Result<(), SegmentInfosError>)
        ensures
            generation < old(self)@.generation ==> r == Err::<(), SegmentInfosError>(
                SegmentInfosError::GenerationDecrease { requested: generation, current: old(self)@.generation },
            ) && *final(self) == *old(self),
            generation >= old(self)@.generation ==> r is Ok && final(self)@ == (SegmentInfosView {
                generation,
                ..old(self)@
            }),
            old(self).wf() ==> final(self).wf(),
    {
        if generation < self.generation {
            return Err(SegmentInfosError::GenerationDecrease { requested: generation, current: self.generation });
        }
        self.generation = generation;
        Ok(())
    }
}

/// What reading a commit file answers, the commit taken by what the library
/// holds of it: the file's generation, its header fields, each segment read
/// as [`segment_matches`] says, and the user data as the map its pairs make.
pub open spec fn infos_read_as(infos: SegmentInfos, v: CommitView) -> bool {
    &&& infos@.generation == v.generation
    &&& infos@.last_generation == v.generation
    &&& infos@.id == Some(v.id)
    &&& infos@.lucene_version == Some(v.lucene_version)
    &&& infos@.index_created_version_major == v.index_created_version_major
    &&& infos@.version == v.version
    &&& infos@.counter == v.counter
    &&& infos@.segments.len() == v.segments.len()
    &&& forall|i: int| 0 <= i < v.segments.len() ==> segment_matches(#[trigger] infos@.segments[i], v.segments[i])
    &&& string_values(infos@.user_data.map()) == pairs_map(v.user_data)
}

/// What reading the commit file `file_name` holding `bytes` answers, with
/// `empty` when the commit must list no segments.
pub open spec fn read_outcome(file_name: Seq<char>, bytes: Seq<u8>, empty: bool, r: Result<SegmentInfos, SegmentInfosError>) -> bool {
    match generation_of(file_name) {
        None => (r matches Err(e) && generation_error(file_name, e)),
        Some(g) => match footer_check(bytes) {
            Err(ce) => r == Err::<SegmentInfos, SegmentInfosError>(SegmentInfosError::Codec(ce)),
            Ok(_) => match parse_commit(bytes.subrange(0, bytes.len() - 16), g) {
                Err(e) => r == Err::<SegmentInfos, SegmentInfosError>(e),
                Ok(v) => if empty && v.segments.len() > 0 {
                    r == Err::<SegmentInfos, SegmentInfosError>(
                        SegmentInfosError::InvalidCount { count: v.segments.len() as i32 },
                    )
                } else {
                    (r matches Ok(infos) && infos.wf() && infos_read_as(infos, v))
                },
            },
        },
    }
}

impl SegmentInfos {
    /// The commit written under `generation` with id `id` listing `segments`.
    pub open spec fn commit_view(&self, generation: int, id: Seq<u8>, segments: Seq<SegmentCommitInfo>) -> CommitView {
        CommitView {
            generation: generation as i64,
            id,
            lucene_version: latest_version(),
            index_created_version_major: self@.index_created_version_major,
            version: self@.version,
            counter: self@.counter,
            segments: segments.map_values(|s: SegmentCommitInfo| segment_view(s)),
            user_data: user_data_view(self@.user_data),
        }
    }

    /// What writing a commit answers: the commit file of the next generation,
    /// and the bookkeeping moved to it; nothing changes when the commit does
    /// not fit the format.
    pub open spec fn write_outcome(
        old_infos: SegmentInfos,
        new_infos: SegmentInfos,
        id: Seq<u8>,
        segments: Seq<SegmentCommitInfo>,
        r: Result<SegmentInfosCommit, SegmentInfosError>,
    ) -> bool {
        let next = next_generation(old_infos@.generation);
        let v = old_infos.commit_view(next, id, segments);
        if commit_ok(v) {
            &&& r matches Ok(c)
            &&& c.file_name@ == segment_file_name_spec(segments_chars(), base36_string(next), Seq::empty())
            &&& c.bytes@ == with_footer(encode_commit_body(v))
            &&& new_infos@ == (SegmentInfosView {
                generation: next as i64,
                last_generation: next as i64,
                id: Some(id),
                ..old_infos@
            })
            &&& new_infos.wf()
        } else {
            r == Err::<SegmentInfosCommit, SegmentInfosError>(SegmentInfosError::Unencodable)
                && new_infos == old_infos
        }
    }

    fn commit_fits(&self, with_segments: bool) -> (r: bool)
        requires
            self.wf(),
            self@.generation < i64::MAX,
        ensures
            r == commit_ok(
                self.commit_view(
                    next_generation(self@.generation),
                    Seq::new(16, |i: int| 0u8),
                    if with_segments {
                        self@.segments
                    } else {
                        Seq::empty()
                    },
                ),
            ),
    {
        let ghost segs = if with_segments {
            self@.segments
        } else {
            Seq::<SegmentCommitInfo>::empty()
        };
        let ghost v = self.commit_view(next_generation(self@.generation), Seq::new(16, |i: int| 0u8), segs);
        if self.counter < 0 {
            return false;
        }
        if !crate::commit_format::pairs_fit(&self.user_data) {
            return false;
        }
        if with_segments {
            if self.segments.len() > 0x7fff_ffff {
                return false;
            }
            let mut i: usize = 0;
            while i < self.segments.len()
                invariant
                    self.wf(),
                    with_segments,
                    segs == self@.segments,
                    v == self.commit_view(next_generation(self@.generation), Seq::new(16, |i: int| 0u8), segs),
                    i <= self.segments@.len(),
                    forall|k: int| 0 <= k < i ==> crate::commit_format::segment_ok(#[trigger] v.segments[k]),
                decreases self.segments.len() - i,
            {
                assert(crate::commit_format::segment_maps_wf(self.segments@[i as int]));
                assert(v.segments[i as int] == segment_view(self.segments@[i as int]));
                if !crate::commit_format::segment_fits(&self.segments[i]) {
                    return false;
                }
                i += 1;
            }
            assert(v.segments.len() == self.segments@.len());
        } else {
            assert(v.segments.len() == 0);
        }
        true
    }

    fn write_commit_with(&mut self, id: &[u8; 16], with_segments: bool) -> (r: Result<SegmentInfosCommit, SegmentInfosError>)
        requires
            old(self).wf(),
            old(self)@.generation < i64::MAX,
        ensures
            Self::write_outcome(
                *old(self),
                *final(self),
                id@,
                if with_segments {
                    old(self)@.segments
                } else {
                    Seq::empty()
                },
                r,
            ),
    {
        let ghost segs = if with_segments {
            self@.segments
        } else {
            Seq::<SegmentCommitInfo>::empty()
        };
        let next = self.get_next_pending_generation();
        let ghost v = self.commit_view(next as int, id@, segs);
        proof {
            let v0 = self.commit_view(next as int, Seq::new(16, |i: int| 0u8), segs);
            assert(commit_ok(v) == commit_ok(v0));
        }
        if !self.commit_fits(with_segments) {
            return Err(SegmentInfosError::Unencodable);
        }
        let suffix = format_base36(next);
        proof {
            reveal_strlit("segments");
            assert(SEGMENTS@ =~= segments_chars());
            crate::data_io::lemma_utf8_len_bound(segments_chars());
            assert(vstd::arithmetic::power::pow(36, 13) > i64::MAX) by {
                vstd::arithmetic::power::lemma_pow_adds(36, 6, 7);
                reveal_with_fuel(vstd::arithmetic::power::pow, 8);
            }
            crate::commit_format::lemma_base36_len(next as nat, 13);
            crate::data_io::lemma_utf8_len_bound(suffix@);
        }
        let mut out: Vec<u8> = Vec::new();
        write_index_header(&mut out, SEGMENTS, crate::commit_format::COMMIT_FORMAT_VERSION, id, suffix.as_str());
        let ghost h = out@;
        crate::data_io::write_vint(&mut out, 11);
        crate::data_io::write_vint(&mut out, 0);
        crate::data_io::write_vint(&mut out, 0);
        assert(out@ =~= h + crate::commit_format::encode_version(latest_version()));
        crate::data_io::write_vint(&mut out, self.index_created_version_major);
        crate::codec_util::write_be_i64(&mut out, self.version);
        let _ = crate::data_io::write_vlong(&mut out, self.counter);
        let n: usize = if with_segments {
            self.segments.len()
        } else {
            0
        };
        crate::codec_util::write_be_i32(&mut out, n as i32);
        if n > 0 {
            let ghost h2 = out@;
            crate::data_io::write_vint(&mut out, 11);
            crate::data_io::write_vint(&mut out, 0);
            crate::data_io::write_vint(&mut out, 0);
            assert(out@ =~= h2 + crate::commit_format::encode_version(latest_version()));
        } else {
            assert(out@ =~= out@ + Seq::<u8>::empty());
        }
        let ghost head = out@;
        let ghost views = v.segments;
        let mut i: usize = 0;
        assert(crate::commit_format::encode_segments(views.subrange(0, 0)) =~= Seq::<u8>::empty());
        while i < n
            invariant
                i <= n,
                n == segs.len(),
                with_segments ==> segs == self@.segments,
                !with_segments ==> n == 0,
                segs.len() == views.len(),
                self.wf(),
                views == v.segments,
                v == self.commit_view(next as int, id@, segs),
                commit_ok(v),
                out@ == head + crate::commit_format::encode_segments(views.subrange(0, i as int)),
            decreases n - i,
        {
            assert(crate::commit_format::segment_maps_wf(self.segments@[i as int]));
            assert(views[i as int] == segment_view(self.segments@[i as int]));
            crate::commit_format::write_segment(&mut out, &self.segments[i]);
            assert(views.subrange(0, i + 1).drop_last() =~= views.subrange(0, i as int));
            i += 1;
        }
        assert(views.subrange(0, i as int) =~= views);
        crate::commit_format::write_string_map(&mut out, &self.user_data);
        assert(out@ =~= encode_commit_body(v));
        write_footer(&mut out);
        let empty = "";
        proof {
            reveal_strlit("");
        }
        let file_name = segment_file_name(SEGMENTS, suffix.as_str(), empty);
        self.generation = next;
        self.last_generation = next;
        self.id = Some(*id);
        Ok(SegmentInfosCommit { file_name, bytes: out })
    }

    /// Writes the commit of the next generation, listing the segments, and
    /// moves the bookkeeping to that generation.
    pub fn write_commit(&mut self, id: &[u8; 16]) -> (r: Result<SegmentInfosCommit, SegmentInfosError>)
        requires
            old(self).wf(),
            old(self)@.generation < i64::MAX,
        ensures
            Self::write_outcome(*old(self), *final(self), id@, old(self)@.segments, r),
    {
        self.write_commit_with(id, true)
    }

    /// Writes the commit of the next generation listing no segments, and
    /// moves the bookkeeping to that generation.
    pub fn write_empty_commit(&mut self, id: &[u8; 16]) -> (r: Result<SegmentInfosCommit, SegmentInfosError>)
        requires
            old(self).wf(),
            old(self)@.generation < i64::MAX,
        ensures
            Self::write_outcome(*old(self), *final(self), id@, Seq::empty(), r),
    {
        self.write_commit_with(id, false)
    }
}

proof fn lemma_generation_nonneg(f: Seq<char>)
    ensures
        generation_of(f) matches Some(g) ==> g >= 0,
{
    if generation_of(f) is Some && f != segments_chars() {
        lemma_base36_value_nonneg(f.skip(9));
    }
}

impl SegmentInfos {
    fn read_commit_with(file_name: &str, bytes: &[u8], empty: bool) -> (r: Result<SegmentInfos, SegmentInfosError>)
        ensures
            read_outcome(file_name@, bytes@, empty, r),
    {
        let generation = match generation_from_segments_file_name(file_name) {
            Ok(g) => g,
            Err(e) => return Err(e),
        };
        proof {
            lemma_generation_nonneg(file_name@);
        }
        match check_footer(bytes) {
            Ok(()) => {},
            Err(e) => return Err(SegmentInfosError::Codec(e)),
        }
        let body = vstd::slice::slice_subrange(bytes, 0, bytes.len() - 16);
        let ghost s = body@;
        assert(s == bytes@.subrange(0, bytes@.len() - 16));
        let suffix = format_base36(generation);
        proof {
            reveal_strlit("segments");
            assert(SEGMENTS@ =~= segments_chars());
        }
        let (id, p0) = match crate::codec_util::read_index_header(
            body,
            0,
            SEGMENTS,
            crate::commit_format::COMMIT_FORMAT_VERSION,
            crate::commit_format::COMMIT_FORMAT_VERSION,
            suffix.as_str(),
        ) {
            Ok(x) => x,
            Err(e) => return Err(SegmentInfosError::Codec(e)),
        };
        proof {
            reveal(crate::codec_util::index_header_at);
        }
        let (lucene_version, p1) = match crate::commit_format::read_version_at(body, p0) {
            Ok(x) => x,
            Err(e) => return Err(e),
        };
        let (created, p2) = match crate::commit_format::read_vint_at(body, p1) {
            Ok(x) => x,
            Err(e) => return Err(e),
        };
        if created < 6 {
            return Err(SegmentInfosError::UnsupportedIndexCreatedVersion { major: created });
        }
        let (version, p3) = match crate::commit_format::read_long_at(body, p2) {
            Ok(x) => x,
            Err(e) => return Err(e),
        };
        let (counter, p4) = match crate::commit_format::read_vlong_at(body, p3) {
            Ok(x) => x,
            Err(e) => return Err(e),
        };
        let (n, p5) = match crate::commit_format::read_int_at(body, p4) {
            Ok(x) => x,
            Err(e) => return Err(e),
        };
        if n < 0 {
            return Err(SegmentInfosError::InvalidCount { count: n });
        }
        let p6 = if n > 0 {
            match crate::commit_format::read_version_at(body, p5) {
                Ok((_, p)) => p,
                Err(e) => return Err(e),
            }
        } else {
            p5
        };
        let (segments, p7) = match crate::commit_format::read_segments_at(body, p6, n) {
            Ok(x) => x,
            Err(e) => return Err(e),
        };
        let (user_data, p8) = match crate::commit_format::read_string_map_at(body, p7) {
            Ok(x) => x,
            Err(e) => return Err(e),
        };
        if p8 < body.len() {
            return Err(SegmentInfosError::TrailingBytes { count: body.len() - p8 });
        }
        if empty && segments.len() > 0 {
            return Err(SegmentInfosError::InvalidCount { count: segments.len() as i32 });
        }
        let infos = SegmentInfos {
            index_created_version_major: created,
            generation,
            last_generation: generation,
            id: Some(id),
            lucene_version: Some(lucene_version),
            counter,
            version,
            segments,
            user_data,
        };
        proof {
            let v = parse_commit(s, generation)->Ok_0;
            assert forall|i: int| 0 <= i < infos.segments@.len() implies #[trigger] crate::commit_format::segment_maps_wf(infos.segments@[i]) by {
                crate::commit_format::lemma_matches_wf(infos.segments@[i], v.segments[i]);
            }
        }
        Ok(infos)
    }

    /// Reads the commit file `file_name` holding `bytes`: the generation of
    /// its name, its footer, then its contents.
    pub fn read_commit(file_name: &str, bytes: &[u8]) -> (r: Result<SegmentInfos, SegmentInfosError>)
        ensures
            read_outcome(file_name@, bytes@, false, r),
    {
        Self::read_commit_with(file_name, bytes, false)
    }

    /// Reads a commit file that must list no segments.
    pub fn read_empty_commit(file_name: &str, bytes: &[u8]) -> (r: Result<SegmentInfos, SegmentInfosError>)
        ensures
            read_outcome(file_name@, bytes@, true, r),
    {
        Self::read_commit_with(file_name, bytes, true)
    }
}

/// A commit written and then read back gives the commit that was written:
/// the file's name carries the generation it was written under, the
/// reader's bookkeeping is at that generation, as the writer's now is, and
/// the id, segments and user data read are those written, as
/// [`infos_read_as`] says.
pub proof fn law_write_then_read_commit(
    old_infos: SegmentInfos,
    new_infos: SegmentInfos,
    id: Seq<u8>,
    segments: Seq<SegmentCommitInfo>,
    written: Result<SegmentInfosCommit, SegmentInfosError>,
    read: Result<SegmentInfos, SegmentInfosError>,
)
    requires
        old_infos.wf(),
        old_infos@.generation < i64::MAX,
        SegmentInfos::write_outcome(old_infos, new_infos, id, segments, written),
        written is Ok,
        read_outcome(written->Ok_0.file_name@, written->Ok_0.bytes@, false, read),
    ensures
        generation_of(written->Ok_0.file_name@) == Some(new_infos@.generation),
        read matches Ok(infos) && infos@.generation == new_infos@.generation && infos_read_as(
            infos,
            old_infos.commit_view(next_generation(old_infos@.generation), id, segments),
        ),
{
    old_infos.lemma_wf();
    let next = next_generation(old_infos@.generation);
    let v = old_infos.commit_view(next, id, segments);
    law_generation_name_round_trip(next as i64);
    crate::commit_format::law_commit_file_round_trip(v);
}

/// Whether a file takes part in finding the last commit: it starts with
/// `segments` and is not the old `segments.gen`.
pub open spec fn is_commit_file(f: Seq<char>) -> bool {
    starts_with(f, segments_chars()) && !starts_with(f, old_segments_gen_chars())
}

/// The highest generation among the commit files of `fs`, -1 when there is
/// none.
pub open spec fn max_commit_generation(fs: Seq<Seq<char>>) -> int
    decreases fs.len(),
{
    if fs.len() == 0 {
        -1
    } else {
        let m = max_commit_generation(fs.drop_last());
        let f = fs.last();
        if is_commit_file(f) && generation_of(f) is Some && generation_of(f)->0 > m {
            generation_of(f)->0 as int
        } else {
            m
        }
    }
}

/// The last commit's generation is the highest that a commit file of the
/// listing names: no commit file names a higher one, and it is the
/// generation of one of them, or -1 exactly when none names one.
pub proof fn law_last_commit_is_highest(fs: Seq<Seq<char>>)
    ensures
        -1 <= max_commit_generation(fs),
        forall|i: int|
            0 <= i < fs.len() && is_commit_file(#[trigger] fs[i]) && generation_of(fs[i]) is Some
                ==> generation_of(fs[i])->0 <= max_commit_generation(fs),
        max_commit_generation(fs) == -1 <==> !exists|i: int|
            0 <= i < fs.len() && is_commit_file(#[trigger] fs[i]) && generation_of(fs[i]) is Some,
        max_commit_generation(fs) != -1 ==> exists|i: int|
            0 <= i < fs.len() && is_commit_file(#[trigger] fs[i]) && generation_of(fs[i]) is Some
                && generation_of(fs[i])->0 == max_commit_generation(fs),
    decreases fs.len(),
{
    if fs.len() > 0 {
        let p = fs.drop_last();
        law_last_commit_is_highest(p);
        let n = fs.len() - 1;
        assert forall|i: int| 0 <= i < n implies fs[i] == #[trigger] p[i] by {}
        let f = fs.last();
        if generation_of(f) is Some {
            lemma_generation_not_negative(f);
        }
        if max_commit_generation(fs) != -1 {
            if max_commit_generation(fs) == max_commit_generation(p) {
                let j = choose|j: int|
                    0 <= j < p.len() && is_commit_file(#[trigger] p[j]) && generation_of(p[j]) is Some
                        && generation_of(p[j])->0 == max_commit_generation(p);
                assert(fs[j] == p[j]);
            } else {
                assert(is_commit_file(fs[n]));
            }
        }
        if exists|i: int| 0 <= i < fs.len() && is_commit_file(#[trigger] fs[i]) && generation_of(fs[i]) is Some {
            let i = choose|i: int| 0 <= i < fs.len() && is_commit_file(#[trigger] fs[i]) && generation_of(fs[i]) is Some;
            lemma_generation_not_negative(fs[i]);
            if i < n {
                assert(p[i] == fs[i]);
            }
        }
        assert forall|i: int|
            0 <= i < fs.len() && is_commit_file(#[trigger] fs[i]) && generation_of(fs[i]) is Some
                implies generation_of(fs[i])->0 <= max_commit_generation(fs) by {
            if i < n {
                assert(p[i] == fs[i]);
            }
        }
    }
}

/// A generation read from a name is never negative.
proof fn lemma_generation_not_negative(f: Seq<char>)
    requires
        generation_of(f) is Some,
    ensures
        generation_of(f)->0 >= 0,
{
    if f != segments_chars() {
        lemma_base36_value_not_negative(f.skip(9));
    }
}

/// Base-36 digits spell a number that is not negative.
proof fn lemma_base36_value_not_negative(s: Seq<char>)
    requires
        all_digits(s),
    ensures
        base36_value(s) >= 0,
    decreases s.len(),
{
    if s.len() > 0 {
        let p = s.drop_last();
        assert forall|i: int| 0 <= i < p.len() implies #[trigger] digit_value(p[i]) is Some by {
            assert(p[i] == s[i]);
        }
        lemma_base36_value_not_negative(p);
        assert(digit_value(s[s.len() - 1]) is Some);
    }
}

/// Which commit is last depends only on the names listed, not on their
/// order or on repeats.
pub proof fn law_last_commit_ignores_order(fs: Seq<Seq<char>>, gs: Seq<Seq<char>>)
    requires
        forall|f: Seq<char>| fs.contains(f) <==> gs.contains(f),
    ensures
        max_commit_generation(fs) == max_commit_generation(gs),
{
    law_last_commit_is_highest(fs);
    law_last_commit_is_highest(gs);
    let a = max_commit_generation(fs);
    let b = max_commit_generation(gs);
    if a != -1 {
        let i = choose|i: int|
            0 <= i < fs.len() && is_commit_file(#[trigger] fs[i]) && generation_of(fs[i]) is Some
                && generation_of(fs[i])->0 == a;
        assert(fs.contains(fs[i]));
        let j = choose|j: int| 0 <= j < gs.len() && gs[j] == fs[i];
        assert(is_commit_file(gs[j]));
    }
    if b != -1 {
        let j = choose|j: int|
            0 <= j < gs.len() && is_commit_file(#[trigger] gs[j]) && generation_of(gs[j]) is Some
                && generation_of(gs[j])->0 == b;
        assert(gs.contains(gs[j]));
        let i = choose|i: int| 0 <= i < fs.len() && fs[i] == gs[j];
        assert(is_commit_file(fs[i]));
    }
}

/// Every commit file among the first `n` of `fs` names a valid generation.
pub open spec fn commit_files_valid(fs: Seq<Seq<char>>, n: int) -> bool {
    forall|i: int| 0 <= i < n && is_commit_file(#[trigger] fs[i]) ==> generation_of(fs[i]) is Some
}

/// The generation of the last commit among `files`: the highest generation
/// of a `segments` file, -1 when there is none. The first commit file whose
/// generation cannot be read stops the search with its error.
pub fn get_last_commit_generation(files: &[&str]) -> (r: Result<i64, SegmentInfosError>)
    ensures
        commit_files_valid(crate::string_map::str_views(files@), files@.len() as int) ==> r
            == Ok::<i64, SegmentInfosError>(max_commit_generation(crate::string_map::str_views(files@)) as i64),
        !commit_files_valid(crate::string_map::str_views(files@), files@.len() as int) ==> (r matches Err(e)
            && exists|i: int|
            0 <= i < files@.len() && is_commit_file(#[trigger] files@[i]@) && generation_of(files@[i]@) is None
                && commit_files_valid(crate::string_map::str_views(files@), i) && generation_error(
                files@[i]@,
                e,
            )),
{
    let ghost fs = crate::string_map::str_views(files@);
    let mut max_generation: i64 = -1;
    let mut i: usize = 0;
    while i < files.len()
        invariant
            fs == crate::string_map::str_views(files@),
            i <= files@.len(),
            commit_files_valid(fs, i as int),
            max_generation == max_commit_generation(fs.subrange(0, i as int)),
            -1 <= max_generation,
        decreases files.len() - i,
    {
        let file = files[i];
        let chars = chars_of(file);
        assert(fs[i as int] == file@);
        let starts = chars.len() >= 8 && chars[0] == 's' && chars[1] == 'e' && chars[2] == 'g'
            && chars[3] == 'm' && chars[4] == 'e' && chars[5] == 'n' && chars[6] == 't' && chars[7] == 's';
        let old_gen = starts && chars.len() >= 12 && chars[8] == '.' && chars[9] == 'g' && chars[10] == 'e'
            && chars[11] == 'n';
        proof {
            if chars.len() >= 8 {
                let t = file@.subrange(0, 8);
                if starts {
                    assert(t =~= segments_chars());
                } else if t == segments_chars() {
                    assert(t[0] == 's' && t[1] == 'e' && t[2] == 'g' && t[3] == 'm' && t[4] == 'e'
                        && t[5] == 'n' && t[6] == 't' && t[7] == 's');
                }
            }
            if chars.len() >= 12 {
                let t = file@.subrange(0, 12);
                if old_gen {
                    assert(t =~= old_segments_gen_chars());
                } else if t == old_segments_gen_chars() {
                    assert(t[0] == 's' && t[1] == 'e' && t[2] == 'g' && t[3] == 'm' && t[4] == 'e'
                        && t[5] == 'n' && t[6] == 't' && t[7] == 's' && t[8] == '.' && t[9] == 'g'
                        && t[10] == 'e' && t[11] == 'n');
                    assert(file@.subrange(0, 8) =~= t.subrange(0, 8));
                }
            }
        }
        assert(fs.subrange(0, i + 1).drop_last() =~= fs.subrange(0, i as int));
        if starts && !old_gen {
            assert(is_commit_file(file@));
            let generation = match generation_from_segments_file_name(file) {
                Ok(g) => g,
                Err(e) => {
                    proof {
                        assert(files@[i as int]@ == file@);
                        assert(!commit_files_valid(fs, files@.len() as int)) by {
                            assert(is_commit_file(fs[i as int]));
                        }
                    }
                    return Err(e);
                },
            };
            if generation > max_generation {
                max_generation = generation;
            }
        } else {
            assert(!is_commit_file(file@));
        }
        i += 1;
    }
    assert(fs.subrange(0, i as int) =~= fs);
    Ok(max_generation)
}

} // verus!
