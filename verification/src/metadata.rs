//! Extraction of the metadata document from a compressed archive: the
//! archive walk and field assembly are verified; zstd decompression and
//! JSON parsing are calls into outside crates behind trusted wrappers, whose
//! results the contracts name as functions of the document.

use vstd::prelude::*;
use vstd::string::*;

use crate::model::ExtractedMetadata;
use crate::tar::{tar_find, tar_find_entry, TarError, TarFind};

verus! {

/// Extraction error: the entry is absent, the archive malformed, the
/// metadata document malformed, or the compressed stream unreadable.
#[derive(Debug)]
pub enum ExtractError {
    EntryNotFound(String),
    CorruptArchive,
    MetadataParse,
    BadCompression,
}

/// Declares serde_json::Value, the parsed JSON document the wrappers read.
#[verifier::external_type_specification]
#[verifier::external_body]
pub struct ExJsonValue(serde_json::Value);

/// Declares serde_json::Error, what serde_json::from_slice fails with.
#[verifier::external_type_specification]
#[verifier::external_body]
pub struct ExJsonError(serde_json::Error);

/// Whether `b` is a JSON document that serde_json accepts.
pub uninterp spec fn json_well_formed(b: Seq<u8>) -> bool;

/// What a parsed document holds at the top-level field `key`: nothing where
/// the field is absent (or the document is no object), `Some(None)` where it
/// is present but no string, and the text where it is a string.
pub uninterp spec fn json_str_field(v: serde_json::Value, key: Seq<char>) -> Option<
    Option<Seq<char>>,
>;

/// As `json_str_field`, for a field that is an array of strings: `Some(None)`
/// where the field is no array or some element is no string, else the texts
/// in array order.
pub uninterp spec fn json_str_array_field(v: serde_json::Value, key: Seq<char>) -> Option<
    Option<Seq<Seq<char>>>,
>;

/// `json_str_field`, as a function of the document's bytes.
pub uninterp spec fn json_doc_str_field(b: Seq<u8>, key: Seq<char>) -> Option<Option<Seq<char>>>;

/// `json_str_array_field`, as a function of the document's bytes.
pub uninterp spec fn json_doc_str_array_field(b: Seq<u8>, key: Seq<char>) -> Option<
    Option<Seq<Seq<char>>>,
>;

/// Relies on serde_json::from_slice: parses a JSON document from bytes, and
/// succeeds exactly on the documents the crate accepts; the parsed value,
/// and so every field read from it, is a function of the bytes alone.
#[verifier::external_body]
fn json_parse(b: &[u8]) -> (r: Result<serde_json::Value, serde_json::Error>)
    ensures
        r is Ok <==> json_well_formed(b@),
        r matches Ok(v) ==> forall|key: Seq<char>| #[trigger] json_str_field(v, key)
            == json_doc_str_field(b@, key),
        r matches Ok(v) ==> forall|key: Seq<char>| #[trigger] json_str_array_field(v, key)
            == json_doc_str_array_field(b@, key),
{
    serde_json::from_slice(b)
}

/// Relies on serde_json::Value::get and Value::as_str: reads the named
/// top-level field, telling an absent field, a non-string value and a string
/// apart; the conversion moves the text out, one for one.
#[verifier::external_body]
fn json_read_str_field(v: &serde_json::Value, key: &str) -> (r: Option<Option<String>>)
    ensures
        match r {
            None => json_str_field(*v, key@) is None,
            Some(inner) => match inner {
                None => json_str_field(*v, key@) == Some(Option::<Seq<char>>::None),
                Some(s) => json_str_field(*v, key@) == Some(Some(s@)),
            },
        },
{
    match v.get(key) {
        None => None,
        Some(f) => match f.as_str() {
            None => Some(None),
            Some(s) => Some(Some(s.to_string())),
        },
    }
}

/// Relies on serde_json::Value::get, Value::as_array and Value::as_str:
/// reads the named top-level field as an array of strings, telling an absent
/// field and a wrongly shaped one apart; the conversion moves each element's
/// text out, one for one, in array order.
#[verifier::external_body]
fn json_read_str_array_field(v: &serde_json::Value, key: &str) -> (r: Option<Option<Vec<String>>>)
    ensures
        match r {
            None => json_str_array_field(*v, key@) is None,
            Some(inner) => match inner {
                None => json_str_array_field(*v, key@) == Some(Option::<Seq<Seq<char>>>::None),
                Some(xs) => json_str_array_field(*v, key@) == Some(Some(xs.deep_view())),
            },
        },
{
    let field = match v.get(key) { None => return None, Some(f) => f };
    let arr = match field.as_array() { None => return Some(None), Some(a) => a };
    let mut out: Vec<String> = Vec::new();
    for e in arr {
        match e.as_str() {
            None => return Some(None),
            Some(s) => out.push(s.to_string()),
        }
    }
    Some(Some(out))
}

/// What `b` decompresses to when it is a complete zstd stream, a function of
/// the bytes alone.
pub uninterp spec fn zstd_plain(b: Seq<u8>) -> Option<Seq<u8>>;

/// Relies on zstd::stream::decode_all: decompresses a complete zstd stream
/// held in memory.
#[verifier::external_body]
fn zstd_decode(b: &[u8]) -> (r: Option<Vec<u8>>)
    ensures
        r is Some <==> zstd_plain(b@) is Some,
        r matches Some(v) ==> zstd_plain(b@) == Some(v@),
{
    match zstd::stream::decode_all(b) {
        Ok(v) => Some(v),
        Err(_) => None,
    }
}

/// The key of the deployment-target field.
pub open spec fn target_key() -> Seq<char> {
    "apple_sdk_deployment_target"@
}

/// The key of the feature-list field.
pub open spec fn features_key() -> Seq<char> {
    "crt_features"@
}

/// `b` parses as a metadata document: well-formed JSON whose two known
/// fields, where present, have the right shapes.
pub open spec fn metadata_doc_ok(b: Seq<u8>) -> bool {
    &&& json_well_formed(b)
    &&& json_doc_str_field(b, target_key()) != Some(Option::<Seq<char>>::None)
    &&& json_doc_str_array_field(b, features_key()) != Some(Option::<Seq<Seq<char>>>::None)
}

/// `m` holds exactly the two named fields of the document `b`, each one
/// absent exactly where the document lacks it.
pub open spec fn metadata_of(b: Seq<u8>, m: ExtractedMetadata) -> bool {
    &&& match json_doc_str_field(b, target_key()) {
        Option::None => m.apple_sdk_deployment_target is None,
        Option::Some(inner) => match inner {
            Option::None => false,
            Option::Some(s) => m.apple_sdk_deployment_target matches Some(t) && t@ == s,
        },
    }
    &&& match json_doc_str_array_field(b, features_key()) {
        Option::None => m.crt_features is None,
        Option::Some(inner) => match inner {
            Option::None => false,
            Option::Some(xs) => m.crt_features matches Some(fs) && fs.deep_view() == xs,
        },
    }
}

/// Parses the metadata document permissively: both fields are optional and
/// independently absent; it succeeds exactly on well-formed documents whose
/// present fields have the right shapes, and then returns exactly the
/// document's fields.
pub fn parse_metadata(payload: &[u8]) -> (r: Result<ExtractedMetadata, ExtractError>)
    ensures
        r is Ok <==> metadata_doc_ok(payload@),
        r matches Ok(m) ==> metadata_of(payload@, m),
        r matches Err(e) ==> e matches ExtractError::MetadataParse,
{
    let doc = match json_parse(payload) {
        Ok(v) => v,
        Err(_) => {
            return Err(ExtractError::MetadataParse);
        },
    };
    let target: Option<String> = match json_read_str_field(&doc, "apple_sdk_deployment_target") {
        None => None,
        Some(inner) => match inner {
            None => {
                return Err(ExtractError::MetadataParse);
            },
            Some(s) => Some(s),
        },
    };
    let features: Option<Vec<String>> = match json_read_str_array_field(&doc, "crt_features") {
        None => None,
        Some(inner) => match inner {
            None => {
                return Err(ExtractError::MetadataParse);
            },
            Some(xs) => Some(xs),
        },
    };
    Ok(ExtractedMetadata { apple_sdk_deployment_target: target, crt_features: features })
}

/// Pulls the metadata document out of the zstd-compressed tar archive held
/// in `compressed`: decompresses, walks entries in storage order, and parses
/// the payload of the first entry named `entry_path` — the returned fields
/// are exactly that payload's, and nothing else influences them.
pub fn extract_entry(compressed: &[u8], entry_path: &str) -> (r: Result<
    ExtractedMetadata,
    ExtractError,
>)
    ensures
        match r {
            Ok(m) => zstd_plain(compressed@) matches Some(d) && tar_find(
                d,
                entry_path.spec_bytes(),
            ) matches TarFind::Found(p) && metadata_doc_ok(p) && metadata_of(p, m),
            Err(e) => match e {
                ExtractError::BadCompression => zstd_plain(compressed@) is None,
                ExtractError::EntryNotFound(q) => q@ == entry_path@ && (zstd_plain(
                    compressed@,
                ) matches Some(d) && tar_find(d, entry_path.spec_bytes()) == TarFind::Absent),
                ExtractError::CorruptArchive => zstd_plain(compressed@) matches Some(d)
                    && tar_find(d, entry_path.spec_bytes()) == TarFind::Corrupt,
                ExtractError::MetadataParse => zstd_plain(compressed@) matches Some(d) && (tar_find(
                    d,
                    entry_path.spec_bytes(),
                ) matches TarFind::Found(p) && !metadata_doc_ok(p)),
            },
        },
{
    let data = match zstd_decode(compressed) {
        Some(d) => d,
        None => {
            return Err(ExtractError::BadCompression);
        },
    };
    match tar_find_entry(data.as_slice(), entry_path.as_bytes()) {
        Ok(payload) => {
            match parse_metadata(payload.as_slice()) {
                Ok(m) => Ok(m),
                Err(_) => Err(ExtractError::MetadataParse),
            }
        },
        Err(TarError::NotFound) => Err(ExtractError::EntryNotFound(entry_path.to_owned())),
        Err(TarError::Corrupt) => Err(ExtractError::CorruptArchive),
    }
}

} // verus!
