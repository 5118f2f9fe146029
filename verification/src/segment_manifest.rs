//! The files of a single-segment index: the segment's field infos file and
//! the first commit file listing that segment.

use vstd::prelude::*;

use crate::codec_util::{footer_check, with_footer};
use crate::commit_format::{commit_ok, encode_commit_body, parse_commit, CommitView, SegmentView};
use crate::field_infos::FieldInfos;
use crate::field_infos_codec::encode_result;
use crate::segment_field_infos::{
    field_infos_extension, valid_segment_name, write_segment_field_infos, SegmentFieldInfosError,
};
use crate::segment_infos::{
    base36_string, generation_of, latest_version, read_outcome, segment_file_name_spec, segments_chars,
    SegmentCommitInfo, SegmentInfos, SegmentInfosError, SegmentMetadata,
};
use crate::string_map::{sorted_names, StringMap};

verus! {

#[derive(Debug, Clone, PartialEq, Eq)]
pub enum SegmentManifestError {
    FieldInfos(SegmentFieldInfosError),
    SegmentInfos(SegmentInfosError),
}

/// A named file of the manifest.
#[derive(Debug, Clone, PartialEq, Eq)]
pub struct SegmentFile {
    pub name: String,
    pub bytes: Vec<u8>,
}

/// The files that make up an index.
#[derive(Debug, Clone, PartialEq, Eq)]
pub struct SegmentManifest {
    pub files: Vec<SegmentFile>,
}

pub open spec fn lucene90_chars() -> Seq<char> {
    seq!['L', 'u', 'c', 'e', 'n', 'e', '9', '0']
}

/// The first commit of a single-segment index: generation 1, counter 1,
/// one live segment named `name` with the commit id, the `Lucene90` codec
/// and its field infos file, no user data.
pub open spec fn single_segment_commit(name: Seq<char>, id: Seq<u8>) -> CommitView {
    CommitView {
        generation: 1,
        id,
        lucene_version: latest_version(),
        index_created_version_major: 10,
        version: 0,
        counter: 1,
        segments: seq![
            SegmentView {
                name,
                id,
                codec: lucene90_chars(),
                del_gen: -1i64,
                del_count: 0,
                field_infos_gen: -1i64,
                doc_values_gen: -1i64,
                soft_del_count: 0,
                sci_id: Some(id),
                field_infos_files: seq![name + field_infos_extension()],
                doc_values_updates: Seq::empty(),
            },
        ],
        user_data: Seq::empty(),
    }
}

/// Reading the commit file of a new single-segment index, as the manifest
/// names and writes it, gives generation 1 and one segment, the index's
/// own, with no deletions: no deletes generation (-1), no deleted and no
/// soft-deleted documents.
pub proof fn law_first_commit_reads_back_without_deletions(
    name: Seq<char>,
    id: Seq<u8>,
    file_name: Seq<char>,
    bytes: Seq<u8>,
    r: Result<SegmentInfos, SegmentInfosError>,
)
    requires
        commit_ok(single_segment_commit(name, id)),
        file_name == segment_file_name_spec(segments_chars(), base36_string(1), Seq::empty()),
        bytes == with_footer(encode_commit_body(single_segment_commit(name, id))),
        read_outcome(file_name, bytes, false, r),
    ensures
        r matches Ok(infos) && infos@.generation == 1 && infos@.segments.len() == 1
            && infos@.segments[0].metadata.name@ == name && infos@.segments[0].del_gen == -1
            && infos@.segments[0].del_count == 0 && infos@.segments[0].soft_del_count == 0,
{
    let c = single_segment_commit(name, id);
    let body = encode_commit_body(c);
    crate::segment_infos::law_generation_name_round_trip(1);
    assert(generation_of(file_name) == Some(1i64));
    crate::codec_util::law_footer_round_trip(body);
    assert(footer_check(bytes) is Ok);
    assert(bytes.subrange(0, bytes.len() - 16) == body);
    crate::commit_format::law_commit_round_trip(c);
    assert(parse_commit(body, 1) == Ok::<CommitView, SegmentInfosError>(c));
    let infos = r->Ok_0;
    assert(crate::commit_format::segment_matches(infos@.segments[0], c.segments[0]));
}

proof fn lemma_single_name(s: Seq<Seq<char>>, k: Seq<char>)
    requires
        sorted_names(s),
        s.to_set() == Set::<Seq<char>>::empty().insert(k),
    ensures
        s == seq![k],
{
    assert(s.to_set().contains(k));
    assert forall|i: int| 0 <= i < s.len() implies s[i] == k by {
        assert(s.to_set().contains(s[i]));
    }
    if s.len() > 1 {
        assert(crate::text::lex_lt(s[0], s[1]));
        assert(s[0] == k && s[1] == k);
        crate::text::lemma_lex_irreflexive(k);
    }
    assert(s =~= seq![k]);
}

/// Builds the field infos file of segment `segment_name` and the first
/// commit file listing it.
pub fn build_single_segment_manifest(segment_name: &str, field_infos: &FieldInfos, commit_id: &[u8; 16]) -> (r: Result<
    SegmentManifest,
    SegmentManifestError,
>)
    ensures
        !valid_segment_name(segment_name@) ==> (r matches Err(
            SegmentManifestError::FieldInfos(SegmentFieldInfosError::InvalidSegmentName { segment_name: n }),
        ) && n@ == segment_name@),
        valid_segment_name(segment_name@) && encode_result(field_infos@) is Err ==> r
            == Err::<SegmentManifest, SegmentManifestError>(
            SegmentManifestError::FieldInfos(SegmentFieldInfosError::Codec(encode_result(field_infos@)->Err_0)),
        ),
        valid_segment_name(segment_name@) && encode_result(field_infos@) is Ok && !commit_ok(
            single_segment_commit(segment_name@, commit_id@),
        ) ==> r == Err::<SegmentManifest, SegmentManifestError>(
            SegmentManifestError::SegmentInfos(SegmentInfosError::Unencodable),
        ),
        valid_segment_name(segment_name@) && encode_result(field_infos@) is Ok && commit_ok(
            single_segment_commit(segment_name@, commit_id@),
        ) ==> (r matches Ok(m) && m.files@.len() == 2 && m.files@[0].name@ == segment_name@
            + field_infos_extension() && m.files@[0].bytes@ == encode_result(field_infos@)->Ok_0
            && m.files@[1].name@ == segment_file_name_spec(segments_chars(), base36_string(1), Seq::empty())
            && m.files@[1].bytes@ == with_footer(encode_commit_body(single_segment_commit(segment_name@, commit_id@)))),
{
    let file = match write_segment_field_infos(segment_name, field_infos) {
        Ok(f) => f,
        Err(e) => return Err(SegmentManifestError::FieldInfos(e)),
    };
    let mut infos = match SegmentInfos::new(10) {
        Ok(i) => i,
        Err(e) => return Err(SegmentManifestError::SegmentInfos(e)),
    };
    infos.set_counter(1);
    let mut field_infos_files: StringMap<()> = StringMap::new();
    field_infos_files.insert(file.file_name.as_str(), ());
    proof {
        assert(field_infos_files.names().to_set() =~= Set::<Seq<char>>::empty().insert(file.file_name@)) by {
            assert(Seq::<Seq<char>>::empty().to_set() =~= Set::<Seq<char>>::empty());
        }
        field_infos_files.lemma_entries();
        lemma_single_name(field_infos_files.names(), file.file_name@);
    }
    let codec = "Lucene90";
    proof {
        reveal_strlit("Lucene90");
        assert(codec@ =~= lucene90_chars());
    }
    let segment = SegmentCommitInfo {
        metadata: SegmentMetadata { name: segment_name.to_owned(), id: *commit_id, codec: codec.to_owned() },
        del_gen: -1,
        del_count: 0,
        field_infos_gen: -1,
        doc_values_gen: -1,
        soft_del_count: 0,
        sci_id: Some(*commit_id),
        field_infos_files,
        doc_values_update_files: Vec::new(),
    };
    infos.push_segment(segment);
    let ghost v = infos.commit_view(1, commit_id@, infos@.segments);
    proof {
        assert(infos@.user_data.map().dom().len() == 0);
        infos.lemma_wf();
        infos@.user_data.lemma_entries();
        assert(infos@.user_data.names().len() == 0) by {
            if infos@.user_data.names().len() > 0 {
                assert(infos@.user_data.names().to_set().contains(infos@.user_data.names()[0]));
            }
        }
        assert(crate::commit_format::user_data_view(infos@.user_data) =~= Seq::<(Seq<char>, Seq<char>)>::empty());
        let sv = crate::commit_format::segment_view(segment);
        assert(sv.doc_values_updates =~= Seq::<(i32, Seq<Seq<char>>)>::empty());
        assert(sv == single_segment_commit(segment_name@, commit_id@).segments[0]);
        assert(v.segments =~= single_segment_commit(segment_name@, commit_id@).segments);
        assert(v == single_segment_commit(segment_name@, commit_id@));
    }
    let commit = match infos.write_commit(commit_id) {
        Ok(c) => c,
        Err(e) => return Err(SegmentManifestError::SegmentInfos(e)),
    };
    let mut files: Vec<SegmentFile> = Vec::new();
    files.push(SegmentFile { name: file.file_name, bytes: file.bytes });
    files.push(SegmentFile { name: commit.file_name, bytes: commit.bytes });
    Ok(SegmentManifest { files })
}

} // verus!
