//! Block compression: identity pass-through or gzip (RFC 1952, deflate at
//! best level).  Each block is compressed independently of every other.
use vstd::prelude::*;
use vstd::slice::slice_to_vec;
use vstd::string::StringExecFns;
use crate::DbError;

verus! {

/// The algorithm a dataset's blocks are compressed with.
#[derive(Debug, Clone, Copy, PartialEq, Eq, Hash, Structural)]
pub enum CompressionAlgorithm {
    NoCompression,
    Gzip,
}

impl CompressionAlgorithm {
    /// The inverse of the numeric tag (0 = none, 1 = gzip).
    pub fn try_from(v: u8) -> (r: Result<CompressionAlgorithm, ()>)
        ensures
            match r {
                Ok(a) => (v == 0 && a == CompressionAlgorithm::NoCompression) || (v == 1 && a
                    == CompressionAlgorithm::Gzip),
                Err(()) => v >= 2,
            },
    {
        match v {
            0 => Ok(CompressionAlgorithm::NoCompression),
            1 => Ok(CompressionAlgorithm::Gzip),
            _ => Err(()),
        }
    }
}

impl Default for CompressionAlgorithm {
    fn default() -> (r: Self)
        ensures
            r == CompressionAlgorithm::NoCompression,
    {
        CompressionAlgorithm::NoCompression
    }
}

/// What flate2's gzip decoder computes on a byte string: `Some` of the
/// inflated bytes when the input begins with one well-formed gzip
/// member (bytes after that member are ignored), `None` otherwise.  The
/// result depends on the input bytes alone.
pub uninterp spec fn gunzip_of(b: Seq<u8>) -> Option<Seq<u8>>;

/// Relies on flate2's `write::GzEncoder` at `Compression::best`: gzip
/// (RFC 1952) is lossless, so decoding the stream it emits yields exactly
/// the bytes that were written into it.
#[verifier::external_body]
fn gzip_compress(data: &[u8]) -> (r: Vec<u8>)
    ensures
        gunzip_of(r@) == Some(data@),
{
    let mut encoder = flate2::write::GzEncoder::new(Vec::new(), flate2::Compression::best());
    std::io::Write::write_all(&mut encoder, data).expect("writing to a Vec cannot fail");
    encoder.finish().expect("writing to a Vec cannot fail")
}

/// Relies on flate2's `read::GzDecoder`: inflating is a function of the
/// input bytes alone; it succeeds exactly on a well-formed gzip stream.
#[verifier::external_body]
fn gzip_decompress(data: &[u8]) -> (r: Option<Vec<u8>>)
    ensures
        match r {
            Some(d) => gunzip_of(data@) == Some(d@),
            None => gunzip_of(data@) is None,
        },
{
    let mut decoder = flate2::read::GzDecoder::new(data);
    let mut out = Vec::new();
    match std::io::Read::read_to_end(&mut decoder, &mut out) {
        Ok(_) => Some(out),
        Err(_) => None,
    }
}

/// What decompressing a block under `algo` yields: the bytes unchanged for
/// the identity algorithm, the inflated bytes for gzip.
pub open spec fn decompress_of(algo: CompressionAlgorithm, b: Seq<u8>) -> Option<Seq<u8>> {
    match algo {
        CompressionAlgorithm::NoCompression => Some(b),
        CompressionAlgorithm::Gzip => gunzip_of(b),
    }
}

/// Serializes rows into its scratch buffer, then compresses the buffer as
/// one block onto an output vector.
pub struct RowCompressor {
    pub buffer: Vec<u8>,
}

impl RowCompressor {
    pub fn new() -> (r: Self)
        ensures
            r.buffer@ == Seq::<u8>::empty(),
    {
        RowCompressor { buffer: Vec::new() }
    }

    /// Append one compressed block holding this compressor's buffer to
    /// `out`; returns the number of bytes appended.  Whatever the
    /// algorithm, decompressing the appended bytes gives back the buffer.
    pub fn compress(&mut self, algorithm: CompressionAlgorithm, out: &mut Vec<u8>) -> (n: usize)
        ensures
            final(self).buffer == old(self).buffer,
            final(out)@.len() == old(out)@.len() + n,
            final(out)@.subrange(0, old(out)@.len() as int) == old(out)@,
            decompress_of(algorithm, final(out)@.subrange(old(out)@.len() as int, final(out)@.len() as int))
                == Some(old(self).buffer@),
    {
        let start = out.len();
        match algorithm {
            CompressionAlgorithm::NoCompression => {
                let mut i: usize = 0;
                let len = self.buffer.len();
                while i < len
                    invariant
                        i <= len,
                        len == self.buffer@.len(),
                        self.buffer == old(self).buffer,
                        out@ == old(out)@ + self.buffer@.subrange(0, i as int),
                    decreases len - i,
                {
                    out.push(self.buffer[i]);
                    i = i + 1;
                    proof {
                        assert(self.buffer@.subrange(0, i as int) =~= self.buffer@.subrange(
                            0,
                            i - 1,
                        ) + seq![self.buffer@[i - 1]]);
                        assert(out@ =~= old(out)@ + self.buffer@.subrange(0, i as int));
                    }
                }
                proof {
                    assert(self.buffer@.subrange(0, len as int) =~= self.buffer@);
                    assert(out@.subrange(0, old(out)@.len() as int) =~= old(out)@);
                    assert(out@.subrange(old(out)@.len() as int, out@.len() as int)
                        =~= self.buffer@);
                }
                out.len() - start
            },
            CompressionAlgorithm::Gzip => {
                let mut compressed = gzip_compress(self.buffer.as_slice());
                let ghost cview = compressed@;
                let n = compressed.len();
                out.append(&mut compressed);
                proof {
                    assert(out@.subrange(0, old(out)@.len() as int) =~= old(out)@);
                    assert(out@.subrange(old(out)@.len() as int, out@.len() as int) =~= cview);
                }
                n
            },
        }
    }
}

/// Decompresses blocks of one dataset, whose algorithm it is built with.
pub struct RowDecompressor {
    pub algorithm: CompressionAlgorithm,
}

impl RowDecompressor {
    pub fn new(algorithm: CompressionAlgorithm) -> (r: Self)
        ensures
            r.algorithm == algorithm,
    {
        RowDecompressor { algorithm }
    }

    /// Decompress one block; succeeds exactly when the bytes are a
    /// well-formed block under this decompressor's algorithm.
    pub fn decompress(&self, bytes: &[u8]) -> (r: Result<Vec<u8>, DbError>)
        ensures
            match r {
                Ok(d) => decompress_of(self.algorithm, bytes@) == Some(d@),
                Err(e) => decompress_of(self.algorithm, bytes@) is None && e is InvalidFormat,
            },
    {
        match self.algorithm {
            CompressionAlgorithm::NoCompression => Ok(slice_to_vec(bytes)),
            CompressionAlgorithm::Gzip => {
                match gzip_decompress(bytes) {
                    Some(d) => Ok(d),
                    None => Err(
                        DbError::InvalidFormat(String::from_str("malformed gzip block")),
                    ),
                }
            },
        }
    }
}

} // verus!
