//! Input files: telling gzip from plain content, decompressing, and checking that a file
//! is there.

use std::io::Read;
use vstd::prelude::*;
use vstd::utf8::{decode_utf8, encode_utf8, valid_utf8};

verus! {

/// `std::io::Error`: why bytes could not be decompressed.
#[verifier::external_type_specification]
#[verifier::external_body]
pub struct ExIoError(std::io::Error);

/// `std::string::FromUtf8Error`: why bytes are no text.
#[verifier::external_type_specification]
#[verifier::external_body]
pub struct ExFromUtf8Error(std::string::FromUtf8Error);

/// `String::from_utf8` gives the text that bytes encode, if they are valid UTF-8, and fails
/// otherwise.
pub assume_specification[ String::from_utf8 ](vec: Vec<u8>) -> (r: Result<
    String,
    std::string::FromUtf8Error,
>)
    ensures
        match r {
            Ok(s) => valid_utf8(vec@) && s@ == decode_utf8(vec@),
            Err(_) => !valid_utf8(vec@),
        },
;

/// The content of a gzip stream, as `flate2::read::GzDecoder` decompresses it: none where it
/// fails.
pub uninterp spec fn gunzipped(data: Seq<u8>) -> Option<Seq<u8>>;

/// `flate2::read::GzDecoder`, read to its end, decompresses the first member of a gzip
/// stream. What the content is, and when it fails, depends on the bytes alone; nothing more
/// is stated of it.
#[verifier::external_body]
fn gunzip(data: &[u8]) -> (r: Result<Vec<u8>, std::io::Error>)
    ensures
        match r {
            Ok(content) => gunzipped(data@) == Some(content@),
            Err(_) => gunzipped(data@) is None,
        },
{
    let mut content: Vec<u8> = Vec::new();
    match flate2::read::GzDecoder::new(data).read_to_end(&mut content) {
        Ok(_) => Ok(content),
        Err(e) => Err(e),
    }
}

/// Whether bytes start as a gzip stream does.
pub open spec fn has_gzip_magic(data: Seq<u8>) -> bool {
    data.len() >= 2 && data[0] == 0x1f && data[1] == 0x8b
}

/// The content of a file: decompressed if it is a gzip stream, as it is otherwise.
pub open spec fn file_content(data: Seq<u8>) -> Option<Seq<u8>> {
    if has_gzip_magic(data) {
        gunzipped(data)
    } else {
        Some(data)
    }
}

/// Tells whether bytes start as a gzip stream does.
pub fn is_gzip(data: &[u8]) -> (r: bool)
    ensures
        r == has_gzip_magic(data@),
{
    data.len() >= 2 && data[0] == 0x1f && data[1] == 0x8b
}

/// Decompresses the content of a file if it is a gzip stream, and keeps it otherwise.
pub fn open_reader(data: Vec<u8>) -> (r: Result<Vec<u8>, std::io::Error>)
    ensures
        match r {
            Ok(content) => file_content(data@) == Some(content@),
            Err(_) => file_content(data@) is None,
        },
{
    if is_gzip(&data) {
        gunzip(&data)
    } else {
        Ok(data)
    }
}

/// Why a file could not be read as text.
#[derive(Debug)]
pub enum ReadError {
    /// It starts as a gzip stream does, and could not be decompressed.
    Decompress(std::io::Error),
    /// It was decompressed, and the content is not valid UTF-8.
    DecompressedText(std::string::FromUtf8Error),
    /// It is not compressed, and not valid UTF-8.
    Text(std::string::FromUtf8Error),
}

/// Reads the content of a file as text, decompressing it if it is a gzip stream.
pub fn read_maybe_gzipped(data: Vec<u8>) -> (r: Result<String, ReadError>)
    ensures
        match r {
            Ok(s) => file_content(data@) matches Some(content) && valid_utf8(content) && s@
                == decode_utf8(content),
            Err(ReadError::Decompress(_)) => file_content(data@) is None,
            Err(ReadError::DecompressedText(_)) => has_gzip_magic(data@) && (file_content(data@) matches Some(
                content,
            ) && !valid_utf8(content)),
            Err(ReadError::Text(_)) => !has_gzip_magic(data@) && !valid_utf8(data@),
        },
{
    if is_gzip(&data) {
        match gunzip(&data) {
            Ok(content) => match String::from_utf8(content) {
                Ok(s) => Ok(s),
                Err(e) => Err(ReadError::DecompressedText(e)),
            },
            Err(e) => Err(ReadError::Decompress(e)),
        }
    } else {
        match String::from_utf8(data) {
            Ok(s) => Ok(s),
            Err(e) => Err(ReadError::Text(e)),
        }
    }
}

/// A text file that is not compressed is read as it is. The second magic byte cannot follow the
/// first in valid UTF-8, so no such file is taken for a gzip stream, and the text read from it
/// encodes back to its bytes.
pub proof fn law_plain_text_is_kept(data: Seq<u8>)
    requires
        valid_utf8(data),
    ensures
        !has_gzip_magic(data),
        file_content(data) == Some(data),
        encode_utf8(decode_utf8(data)) == data,
{
    if has_gzip_magic(data) {
        let rest = vstd::utf8::pop_first_scalar(data);
        assert(rest == data.skip(1));
        assert(rest[0] == 0x8b);
        assert(valid_utf8(rest));
    }
    vstd::utf8::decode_utf8_encode_utf8(data);
}

/// What is known of a path: whether anything is there, and whether it is a file.
#[derive(Debug)]
pub struct PathStatus {
    pub path: String,
    pub exists: bool,
    pub is_file: bool,
}

/// Why an input file cannot be used.
#[derive(Debug)]
pub enum PathError {
    /// Nothing is there.
    NotFound(String),
    /// What is there is not a file.
    NotAFile(String),
}

/// Whether a path leads to a file.
pub open spec fn usable(status: PathStatus) -> bool {
    status.exists && status.is_file
}

/// Checks that all input files are there and are files. The first that is not decides.
pub fn validate_trace_files(paths: &[PathStatus]) -> (r: Result<(), PathError>)
    ensures
        match r {
            Ok(()) => forall|i: int| 0 <= i < paths@.len() ==> usable(#[trigger] paths@[i]),
            Err(PathError::NotFound(path)) => exists|i: int|
                0 <= i < paths@.len() && path@ == (#[trigger] paths@[i]).path@ && !paths@[i].exists
                    && forall|j: int| 0 <= j < i ==> usable(#[trigger] paths@[j]),
            Err(PathError::NotAFile(path)) => exists|i: int|
                0 <= i < paths@.len() && path@ == (#[trigger] paths@[i]).path@ && paths@[i].exists
                    && !paths@[i].is_file && forall|j: int|
                    0 <= j < i ==> usable(#[trigger] paths@[j]),
        },
{
    for i in 0..paths.len()
        invariant
            forall|j: int| 0 <= j < i ==> usable(#[trigger] paths@[j]),
    {
        if !paths[i].exists {
            return Err(PathError::NotFound(paths[i].path.clone()));
        }
        if !paths[i].is_file {
            return Err(PathError::NotAFile(paths[i].path.clone()));
        }
    }
    Ok(())
}

/// What a file holds is told by its first two bytes: those of gzip mean the decompressed content, and
/// any others the bytes as they are.
pub proof fn law_content_is_told_by_the_first_bytes(data: Seq<u8>)
    ensures
        data.len() >= 2 && data[0] == 0x1f && data[1] == 0x8b ==> file_content(data) == gunzipped(data),
        data.len() < 2 || data[0] != 0x1f || data[1] != 0x8b ==> file_content(data) == Some(data),
{
}

/// A path can be used exactly if it is there and is a file.
pub proof fn law_usable_paths_are_files(status: PathStatus)
    ensures
        usable(status) <==> status.exists && status.is_file,
{
}

} // verus!
