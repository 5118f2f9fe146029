//! Per-segment field infos files: `<segment>.fnm`, holding the
//! [`FieldInfos`] codec bytes.

use vstd::prelude::*;

use crate::field_infos::FieldInfos;
use crate::field_infos_codec::{
    decode_field_infos, decode_outcome, encode_field_infos, FieldInfosCodecError,
};
use crate::text::{chars_of, concat};

verus! {

/// The extension of a field infos file, dot included.
pub open spec fn field_infos_extension() -> Seq<char> {
    seq!['.', 'f', 'n', 'm']
}

/// Errors raised while naming, writing or reading a segment's field infos.
#[derive(Debug, Clone, PartialEq, Eq)]
pub enum SegmentFieldInfosError {
    InvalidSegmentName { segment_name: String },
    InvalidFileExtension { file_name: String },
    Codec(FieldInfosCodecError),
}

/// A segment name starts with `_` and holds no `.`, `/` or `\`.
pub open spec fn valid_segment_name(name: Seq<char>) -> bool {
    &&& name.len() > 0
    &&& name[0] == '_'
    &&& forall|i: int|
        0 <= i < name.len() ==> #[trigger] name[i] != '.' && name[i] != '/' && name[i] != '\\'
}

/// Whether `name` ends with `.fnm`.
pub open spec fn has_field_infos_extension(name: Seq<char>) -> bool {
    name.len() >= 4 && name.subrange(name.len() - 4, name.len() as int) == field_infos_extension()
}

/// A named file and its bytes.
#[derive(Debug, Clone, PartialEq, Eq)]
pub struct SegmentFieldInfosFile {
    pub file_name: String,
    pub bytes: Vec<u8>,
}

fn validate_segment_name(segment_name: &str) -> (r: Result<(), SegmentFieldInfosError>)
    ensures
        valid_segment_name(segment_name@) ==> r is Ok,
        !valid_segment_name(segment_name@) ==> (r matches Err(
            SegmentFieldInfosError::InvalidSegmentName { segment_name: n },
        ) && n@ == segment_name@),
{
    let chars = chars_of(segment_name);
    let mut ok = chars.len() > 0 && chars[0] == '_';
    if ok {
        let mut i: usize = 0;
        while i < chars.len()
            invariant
                chars@ == segment_name@,
                i <= chars.len(),
                chars.len() > 0 && chars@[0] == '_',
                ok == forall|k: int|
                    0 <= k < i ==> #[trigger] chars@[k] != '.' && chars@[k] != '/' && chars@[k] != '\\',
            decreases chars.len() - i,
        {
            let c = chars[i];
            if c == '.' || c == '/' || c == '\\' {
                ok = false;
                assert(!(chars@[i as int] != '.' && chars@[i as int] != '/' && chars@[i as int] != '\\'));
            }
            i += 1;
        }
    }
    if ok {
        Ok(())
    } else {
        Err(SegmentFieldInfosError::InvalidSegmentName { segment_name: segment_name.to_owned() })
    }
}

fn validate_field_infos_extension(file_name: &str) -> (r: Result<(), SegmentFieldInfosError>)
    ensures
        has_field_infos_extension(file_name@) ==> r is Ok,
        !has_field_infos_extension(file_name@) ==> (r matches Err(
            SegmentFieldInfosError::InvalidFileExtension { file_name: n },
        ) && n@ == file_name@),
{
    let chars = chars_of(file_name);
    let n = chars.len();
    let ok = n >= 4 && chars[n - 4] == '.' && chars[n - 3] == 'f' && chars[n - 2] == 'n'
        && chars[n - 1] == 'm';
    proof {
        if n >= 4 {
            let t = file_name@.subrange(n - 4, n as int);
            if ok {
                assert(t =~= field_infos_extension());
            } else {
                assert(t != field_infos_extension()) by {
                    if t == field_infos_extension() {
                        assert(t[0] == '.' && t[1] == 'f' && t[2] == 'n' && t[3] == 'm');
                    }
                }
            }
        }
    }
    if ok {
        Ok(())
    } else {
        Err(SegmentFieldInfosError::InvalidFileExtension { file_name: file_name.to_owned() })
    }
}

/// The field infos file name of a segment: the name followed by `.fnm`.
pub fn field_infos_file_name(segment_name: &str) -> (r: Result<String, SegmentFieldInfosError>)
    ensures
        valid_segment_name(segment_name@) ==> (r matches Ok(name) && name@ == segment_name@
            + field_infos_extension()),
        !valid_segment_name(segment_name@) ==> (r matches Err(
            SegmentFieldInfosError::InvalidSegmentName { segment_name: n },
        ) && n@ == segment_name@),
{
    match validate_segment_name(segment_name) {
        Ok(()) => {},
        Err(e) => return Err(e),
    }
    let ext = ".fnm";
    proof {
        reveal_strlit(".fnm");
    }
    Ok(concat(segment_name, ext))
}

/// Names the segment's field infos file and encodes its contents.
pub fn write_segment_field_infos(segment_name: &str, field_infos: &FieldInfos) -> (r: Result<
    SegmentFieldInfosFile,
    SegmentFieldInfosError,
>)
    ensures
        !valid_segment_name(segment_name@) ==> (r matches Err(
            SegmentFieldInfosError::InvalidSegmentName { segment_name: n },
        ) && n@ == segment_name@),
        valid_segment_name(segment_name@) ==> match crate::field_infos_codec::encode_result(
            field_infos@,
        ) {
            Ok(bytes) => (r matches Ok(file) && file.file_name@ == segment_name@
                + field_infos_extension() && file.bytes@ == bytes),
            Err(e) => r == Err::<SegmentFieldInfosFile, SegmentFieldInfosError>(
                SegmentFieldInfosError::Codec(e),
            ),
        },
{
    let file_name = match field_infos_file_name(segment_name) {
        Ok(n) => n,
        Err(e) => return Err(e),
    };
    match encode_field_infos(field_infos) {
        Ok(bytes) => Ok(SegmentFieldInfosFile { file_name, bytes }),
        Err(e) => Err(SegmentFieldInfosError::Codec(e)),
    }
}

/// Checks the `.fnm` extension, then decodes the field infos.
pub fn read_segment_field_infos(file_name: &str, bytes: &[u8]) -> (r: Result<
    FieldInfos,
    SegmentFieldInfosError,
>)
    ensures
        !has_field_infos_extension(file_name@) ==> (r matches Err(
            SegmentFieldInfosError::InvalidFileExtension { file_name: n },
        ) && n@ == file_name@),
        has_field_infos_extension(file_name@) ==> match r {
            Ok(infos) => decode_outcome(bytes@, Ok(infos@)),
            Err(SegmentFieldInfosError::Codec(e)) => decode_outcome(bytes@, Err(e)),
            Err(_) => false,
        },
{
    match validate_field_infos_extension(file_name) {
        Ok(()) => {},
        Err(e) => return Err(e),
    }
    match decode_field_infos(bytes) {
        Ok(infos) => Ok(infos),
        Err(e) => Err(SegmentFieldInfosError::Codec(e)),
    }
}

} // verus!
