//! Compression algorithms, HTTP response values, and the answers of a
//! yes/no prompt.

use vstd::prelude::*;

use crate::errors::Error;
use crate::text::str_eq;

verus! {

/// The two answers a yes/no prompt can produce.
#[derive(Debug, Clone, Copy, Eq, PartialEq, Structural)]
pub enum YesNoAnswer {
    YES,
    NO,
}

/// A string holding the verbatim value of the HTTP `ETag` response header.
#[derive(Debug)]
pub struct ETag {
    pub value: String,
}

impl ETag {
    /// Wraps a header value.
    pub fn new(value: String) -> (r: ETag)
        ensures
            r.value@ == value@,
    {
        ETag { value }
    }

    /// A copy of this ETag, equal to it.
    pub fn duplicate(&self) -> (r: ETag)
        ensures
            r == *self,
    {
        ETag { value: self.value.clone() }
    }

    /// Whether two ETags hold the same header value.
    pub fn same(&self, other: &ETag) -> (r: bool)
        ensures
            r == (self.value@ == other.value@),
    {
        str_eq(self.value.as_str(), other.value.as_str())
    }
}

/// What a successful download hands back: the ETag header and the body.
#[derive(Debug)]
pub struct Response {
    pub etag: ETag,
    pub body: Vec<u8>,
}

/// The three compression algorithms of the repository artifacts.
#[derive(Debug, Clone, Copy, Eq, PartialEq, Structural)]
pub enum Compression {
    ZSTD,
    XZ,
    GZ,
}

/// What `zstd::decode_all` yields on the given input, `None` where the
/// library reports an error.
pub uninterp spec fn zstd_decoded(data: Seq<u8>) -> Option<Seq<u8>>;

/// What `zstd::encode_all` yields on the given input at the default level.
pub uninterp spec fn zstd_encoded(data: Seq<u8>) -> Seq<u8>;

/// What `xz_decom::decompress` yields on the given input, `None` where the
/// library reports an error.
pub uninterp spec fn xz_decoded(data: Seq<u8>) -> Option<Seq<u8>>;

/// What `inflate::inflate_bytes` yields on the given raw deflate stream,
/// `None` where the library reports an error.
pub uninterp spec fn inflate_decoded(data: Seq<u8>) -> Option<Seq<u8>>;

/// Relies on zstd::decode_all: decoding is a function of the input bytes
/// alone, and fails exactly where the library reports an error.
#[verifier::external_body]
fn zstd_decompress(data: &[u8]) -> (r: Option<Vec<u8>>)
    ensures
        match r {
            Some(v) => zstd_decoded(data@) == Some(v@),
            None => zstd_decoded(data@) is None,
        },
{
    zstd::decode_all(data).ok()
}

/// Relies on zstd::encode_all at the library's default level: encoding is
/// a function of the input bytes alone, and decoding an encoded image
/// restores it.
#[verifier::external_body]
pub fn zstd_compress(data: &[u8]) -> (r: Option<Vec<u8>>)
    ensures
        match r {
            Some(v) => v@ == zstd_encoded(data@) && zstd_decoded(v@) == Some(data@),
            None => true,
        },
{
    zstd::encode_all(data, zstd::DEFAULT_COMPRESSION_LEVEL).ok()
}

/// Relies on xz_decom::decompress: decoding is a function of the input
/// bytes alone, and fails exactly where the library reports an error.
#[verifier::external_body]
fn xz_decompress(data: &[u8]) -> (r: Option<Vec<u8>>)
    ensures
        match r {
            Some(v) => xz_decoded(data@) == Some(v@),
            None => xz_decoded(data@) is None,
        },
{
    xz_decom::decompress(data).ok()
}

/// Relies on inflate::inflate_bytes: decoding a raw deflate stream is a
/// function of the input bytes alone, and fails exactly where the library
/// reports an error.
#[verifier::external_body]
fn inflate_decompress(data: &[u8]) -> (r: Option<Vec<u8>>)
    ensures
        match r {
            Some(v) => inflate_decoded(data@) == Some(v@),
            None => inflate_decoded(data@) is None,
        },
{
    inflate::inflate_bytes(data).ok()
}

/// Relies on String::from_utf8: it succeeds exactly on valid UTF-8 and
/// decodes the bytes to their character sequence.
#[verifier::external_body]
pub fn bytes_to_string(v: Vec<u8>) -> (r: Option<String>)
    ensures
        match r {
            Some(s) => vstd::utf8::valid_utf8(v@) && s@ == vstd::utf8::decode_utf8(v@),
            None => !vstd::utf8::valid_utf8(v@),
        },
{
    String::from_utf8(v).ok()
}

/// What decompressing `data` with algorithm `c` yields: for GZIP the fixed
/// ten-byte member header is skipped before the raw deflate stream.
pub open spec fn decoded_of(c: Compression, data: Seq<u8>) -> Option<Seq<u8>> {
    match c {
        Compression::ZSTD => zstd_decoded(data),
        Compression::XZ => xz_decoded(data),
        Compression::GZ => if data.len() >= 10 {
            inflate_decoded(data.skip(10))
        } else {
            None
        },
    }
}

impl Compression {
    /// The file extension of this algorithm.
    pub open spec fn spec_extension(self) -> Seq<char> {
        match self {
            Compression::ZSTD => "zst"@,
            Compression::XZ => "xz"@,
            Compression::GZ => "gz"@,
        }
    }

    /// The file extension of this algorithm.
    pub fn extension(&self) -> (r: &'static str)
        ensures
            r@ == self.spec_extension(),
    {
        match self {
            Compression::ZSTD => "zst",
            Compression::XZ => "xz",
            Compression::GZ => "gz",
        }
    }

    /// The algorithm with the given file extension, if any.
    pub open spec fn spec_from_extension(s: Seq<char>) -> Option<Compression> {
        if s == "zst"@ {
            Some(Compression::ZSTD)
        } else if s == "xz"@ {
            Some(Compression::XZ)
        } else if s == "gz"@ {
            Some(Compression::GZ)
        } else {
            None
        }
    }

    /// The algorithm with the given file extension, if any.
    pub fn from_extension(extension: &str) -> (r: Option<Compression>)
        ensures
            r == Compression::spec_from_extension(extension@),
    {
        if str_eq(extension, "zst") {
            Some(Compression::ZSTD)
        } else if str_eq(extension, "xz") {
            Some(Compression::XZ)
        } else if str_eq(extension, "gz") {
            Some(Compression::GZ)
        } else {
            None
        }
    }

    /// Decompresses `data` with this algorithm; fails with
    /// `DecompressionError` exactly where the codec yields nothing.
    pub fn decompress(&self, data: &[u8]) -> (r: Result<Vec<u8>, Error>)
        ensures
            match r {
                Ok(out) => decoded_of(*self, data@) == Some(out@),
                Err(e) => e == Error::DecompressionError && decoded_of(*self, data@) is None,
            },
    {
        let attempt = match self {
            Compression::ZSTD => zstd_decompress(data),
            Compression::XZ => xz_decompress(data),
            Compression::GZ => {
                if data.len() >= 10 {
                    let rest = vstd::slice::slice_subrange(data, 10, data.len());
                    proof {
                        assert(rest@ =~= data@.skip(10));
                    }
                    inflate_decompress(rest)
                } else {
                    None
                }
            },
        };
        match attempt {
            Some(out) => Ok(out),
            None => Err(Error::DecompressionError),
        }
    }
}

/// The three extensions name three distinct algorithms, and each
/// algorithm's extension names it back.
pub proof fn lemma_extension_round_trip(c: Compression)
    ensures
        Compression::spec_from_extension(c.spec_extension()) == Some(c),
{
    reveal_strlit("zst");
    reveal_strlit("xz");
    reveal_strlit("gz");
    assert("zst"@.len() == 3);
    assert("xz"@.len() == 2);
    assert("gz"@.len() == 2);
    assert("xz"@[0] == 'x');
    assert("gz"@[0] == 'g');
    assert("xz"@ != "gz"@);
}

} // verus!
