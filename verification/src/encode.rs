use vstd::prelude::*;
use vstd::string::StringExecFns;
use crate::ImageFormat;
use crate::chars::{str_to_chars, chars_to_string};
use crate::parse::{
    spec_ext_exists, spec_ext_of, spec_is_supported, split_stem_ext, is_supported_ext,
    chars_eq_str,
};

verus! {

/// What the standard base64 encoding with padding makes of the bytes.
pub uninterp spec fn b64_of(bytes: Seq<u8>) -> Seq<char>;

/// Relies on base64's `STANDARD` engine (`Engine::encode`): the standard
/// alphabet with padding, a function of the bytes alone.
#[verifier::external_body]
fn b64_encode(bytes: &Vec<u8>) -> (r: String)
    ensures
        r@ == b64_of(bytes@),
{
    base64::Engine::encode(&base64::engine::general_purpose::STANDARD, bytes)
}

/// The MIME type text that the extension table resolves for a lower-cased
/// extension, `application/octet-stream` when the table has no entry.
pub uninterp spec fn mime_of(ext: Seq<char>) -> Seq<char>;

/// Relies on `mime_guess::from_ext` and `MimeGuess::first_or_octet_stream`:
/// a lookup in a fixed extension table, a function of the extension alone;
/// the table carries the entries for the supported image extensions that the
/// clauses below state.
#[verifier::external_body]
fn mime_for_ext(ext: &str) -> (r: String)
    ensures
        r@ == mime_of(ext@),
        ext@ == "svg"@ ==> r@ == "image/svg+xml"@,
        ext@ == "png"@ ==> r@ == "image/png"@,
        ext@ == "jpg"@ ==> r@ == "image/jpeg"@,
        ext@ == "jpeg"@ ==> r@ == "image/jpeg"@,
        ext@ == "gif"@ ==> r@ == "image/gif"@,
        ext@ == "webp"@ ==> r@ == "image/webp"@,
        ext@ == "avif"@ ==> r@ == "image/avif"@,
{
    mime_guess::from_ext(ext).first_or_octet_stream().to_string()
}

/// The exact shape of a data URI: `data:<mime>;base64,<payload>`.
pub open spec fn spec_data_uri(mime: Seq<char>, payload: Seq<char>) -> Seq<char> {
    "data:"@ + mime + ";base64,"@ + payload
}

fn make_data_uri(mime: &str, payload: &str) -> (r: String)
    ensures
        r@ == spec_data_uri(mime@, payload@),
{
    let mut s: String = String::from_str("data:");
    s.append(mime);
    s.append(";base64,");
    s.append(payload);
    proof {
        assert(s@ =~= spec_data_uri(mime@, payload@));
    }
    s
}

/// File contents as they were read from disk: vector text, or raw bytes.
#[derive(Debug, PartialEq, Eq)]
pub enum FileContent {
    Text(String),
    Binary(Vec<u8>),
}

/// Raw mode keeps the text of an `svg` file as it stands.
pub open spec fn spec_is_raw_svg(format: ImageFormat, ext: Seq<char>) -> bool {
    format is Raw && ext == "svg"@
}

pub fn is_raw_svg(format: ImageFormat, ext: &Vec<char>) -> (r: bool)
    ensures
        r == spec_is_raw_svg(format, ext@),
{
    match format {
        ImageFormat::Raw => chars_eq_str(ext, "svg"),
        ImageFormat::Base64 => false,
    }
}

/// The data field and the MIME type the encoder produces: text is handed
/// back as it stands under the fixed `image/svg` type; bytes become a
/// base64 data URI under the type resolved for the extension.
pub open spec fn spec_content_data(content: FileContent, ext: Seq<char>) -> (Seq<char>, Seq<
    char,
>) {
    match content {
        FileContent::Text(t) => (t@, "image/svg"@),
        FileContent::Binary(b) => (spec_data_uri(mime_of(ext), b64_of(b@)), mime_of(ext)),
    }
}

/// Produces the `data` string and the MIME type for one file's contents.
/// Text contents stand for a vector file kept raw, byte contents for any
/// file that is wrapped in a base64 data URI.
pub fn encode_content(content: &FileContent, format: ImageFormat, ext: &Vec<char>) -> (r: (
    String,
    String,
))
    requires
        content is Text <==> spec_is_raw_svg(format, ext@),
    ensures
        (r.0@, r.1@) == spec_content_data(*content, ext@),
{
    match content {
        FileContent::Text(t) => {
            let data: String = t.clone();
            let mime: String = String::from_str("image/svg");
            (data, mime)
        },
        FileContent::Binary(b) => {
            let ext_string: String = chars_to_string(ext);
            let mime: String = mime_for_ext(ext_string.as_str());
            let payload: String = b64_encode(b);
            let uri: String = make_data_uri(mime.as_str(), payload.as_str());
            (uri, mime)
        },
    }
}

/// How a file is read, decided from its name and the format: skipped when
/// its extension is not supported, as text for a raw-mode `svg`, as bytes
/// otherwise.
#[derive(Clone, Copy, PartialEq, Eq, Structural, Debug)]
pub enum ReadKind {
    Skip,
    Text,
    Binary,
}

pub open spec fn spec_read_kind(format: ImageFormat, filename: Seq<char>) -> ReadKind {
    if !(spec_ext_exists(filename) && spec_is_supported(spec_ext_of(filename))) {
        ReadKind::Skip
    } else if spec_is_raw_svg(format, spec_ext_of(filename)) {
        ReadKind::Text
    } else {
        ReadKind::Binary
    }
}

/// Decides from the file name alone whether the file is skipped, read as
/// text, or read as bytes.
pub fn file_read_kind(format: ImageFormat, filename: &str) -> (r: ReadKind)
    ensures
        r == spec_read_kind(format, filename@),
{
    let cs: Vec<char> = str_to_chars(filename);
    let (_stem, ext_opt) = split_stem_ext(&cs);
    match ext_opt {
        Option::None => ReadKind::Skip,
        Option::Some(ext) => {
            if !is_supported_ext(&ext) {
                ReadKind::Skip
            } else if is_raw_svg(format, &ext) {
                ReadKind::Text
            } else {
                ReadKind::Binary
            }
        },
    }
}

} // verus!
