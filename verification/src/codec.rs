use vstd::prelude::*;
use crate::errors::ErrorKind;

verus! {

/// Mask bit that selects the deflate (zlib) codec for a stored sector.
pub const METHOD_ZLIB: u8 = 0x02;

/// The zlib stream that the deflate codec produces for `s`. The stream is a
/// pure function of the input bytes; its exact shape is the codec's business.
pub uninterp spec fn deflate_of(s: Seq<u8>) -> Seq<u8>;

/// What inflating `s` with an output bound of `limit` bytes yields: the
/// decoded bytes, or nothing when the stream is rejected or exceeds the
/// bound. A pure function of both arguments.
pub uninterp spec fn inflate_of(s: Seq<u8>, limit: nat) -> Option<Seq<u8>>;

/// Relies on miniz_oxide's `compress_to_vec_zlib`: the output is a zlib
/// stream, a function of the input bytes alone, and inflating it with any
/// sufficient output bound restores the input exactly (deflate is lossless).
#[verifier::external_body]
fn deflate(data: &[u8]) -> (r: Vec<u8>)
    ensures
        r@ == deflate_of(data@),
        forall|limit: nat| limit >= data@.len() ==> #[trigger] inflate_of(r@, limit) == Some(
            data@,
        ),
{
    miniz_oxide::deflate::compress_to_vec_zlib(data, 6)
}

/// Relies on miniz_oxide's `decompress_to_vec_zlib_with_limit`: decoding is a
/// pure function of the stream and the output bound; a rejected or oversized
/// stream yields an error.
#[verifier::external_body]
fn inflate(data: &[u8], limit: usize) -> (r: Option<Vec<u8>>)
    ensures
        match r {
            Some(v) => inflate_of(data@, limit as nat) == Some(v@),
            None => inflate_of(data@, limit as nat) is None,
        },
{
    match miniz_oxide::inflate::decompress_to_vec_zlib_with_limit(data, limit) {
        Ok(v) => Some(v),
        Err(_) => None,
    }
}

/// What decompressing a stored sector body yields. The first byte of a
/// compressed sector names the codecs applied to it; only the deflate codec
/// is carried by this engine, so any other mask is refused as unsupported,
/// and a decoded payload whose length differs from the expected decompressed
/// size is a codec failure.
pub open spec fn decompress_spec(data: Seq<u8>, expected: nat) -> Result<Seq<u8>, ErrorKind> {
    if data.len() == 0 {
        Err(ErrorKind::CodecFailure)
    } else if data[0] == METHOD_ZLIB {
        match inflate_of(data.drop_first(), expected) {
            Some(v) => if v.len() == expected {
                Ok(v)
            } else {
                Err(ErrorKind::CodecFailure)
            },
            None => Err(ErrorKind::CodecFailure),
        }
    } else {
        Err(ErrorKind::NotSupported)
    }
}

/// Decompress one stored sector body to exactly `expected` bytes, walking
/// the leading method mask.
pub fn decompress(data: &[u8], expected: usize) -> (r: Result<Vec<u8>, ErrorKind>)
    ensures
        match r {
            Ok(v) => decompress_spec(data@, expected as nat) == Ok::<Seq<u8>, ErrorKind>(v@),
            Err(e) => decompress_spec(data@, expected as nat) == Err::<Seq<u8>, ErrorKind>(e),
        },
{
    if data.len() == 0 {
        return Err(ErrorKind::CodecFailure);
    }
    let mask = data[0];
    if mask == METHOD_ZLIB {
        let mut body: Vec<u8> = Vec::new();
        let mut i: usize = 1;
        while i < data.len()
            invariant
                1 <= i <= data@.len(),
                body@ == data@.subrange(1, i as int),
            decreases data@.len() - i,
        {
            body.push(data[i]);
            proof {
                assert(data@.subrange(1, i + 1) =~= data@.subrange(1, i as int).push(
                    data@[i as int],
                ));
            }
            i = i + 1;
        }
        proof {
            assert(data@.subrange(1, data@.len() as int) =~= data@.drop_first());
        }
        match inflate(body.as_slice(), expected) {
            Some(v) => {
                if v.len() == expected {
                    Ok(v)
                } else {
                    Err(ErrorKind::CodecFailure)
                }
            },
            None => Err(ErrorKind::CodecFailure),
        }
    } else {
        Err(ErrorKind::NotSupported)
    }
}

/// What reading back a stored sector yields. A body whose stored length
/// equals its decompressed length is raw by the format's escape for
/// incompressible data, whatever the `compressed` flag says; otherwise a
/// compressed body is decoded by its mask, and an uncompressed body of the
/// wrong length marks a corrupt file.
pub open spec fn decode_sector_spec(body: Seq<u8>, expected: nat, compressed: bool) -> Result<
    Seq<u8>,
    ErrorKind,
> {
    if body.len() == expected {
        Ok(body)
    } else if compressed {
        decompress_spec(body, expected)
    } else {
        Err(ErrorKind::FileCorrupt)
    }
}

/// Read back one stored sector of `expected` decompressed bytes.
pub fn decode_sector(body: &[u8], expected: usize, compressed: bool) -> (r: Result<
    Vec<u8>,
    ErrorKind,
>)
    ensures
        match r {
            Ok(v) => decode_sector_spec(body@, expected as nat, compressed) == Ok::<
                Seq<u8>,
                ErrorKind,
            >(v@),
            Err(e) => decode_sector_spec(body@, expected as nat, compressed) == Err::<
                Seq<u8>,
                ErrorKind,
            >(e),
        },
{
    if body.len() == expected {
        let mut v: Vec<u8> = Vec::new();
        let mut i: usize = 0;
        while i < body.len()
            invariant
                i <= body@.len(),
                v@ == body@.subrange(0, i as int),
            decreases body@.len() - i,
        {
            v.push(body[i]);
            proof {
                assert(body@.subrange(0, i + 1) =~= body@.subrange(0, i as int).push(
                    body@[i as int],
                ));
            }
            i = i + 1;
        }
        proof {
            assert(body@.subrange(0, body@.len() as int) =~= body@);
        }
        Ok(v)
    } else if compressed {
        decompress(body, expected)
    } else {
        Err(ErrorKind::FileCorrupt)
    }
}

/// Encode one sector for storage: deflate it, keep the compressed form only
/// when it is strictly smaller than the input (the format's escape stores
/// incompressible sectors raw), and report which form was kept. Whatever
/// form is kept, decoding the stored body restores the input bytes exactly
/// — the lossless round trip of the codec adapter.
pub fn encode_sector(data: &[u8]) -> (r: (Vec<u8>, bool))
    ensures
        decode_sector_spec(r.0@, data@.len() as nat, r.1) == Ok::<Seq<u8>, ErrorKind>(data@),
        r.1 ==> r.0@.len() < data@.len(),
        !r.1 ==> r.0@ == data@,
{
    let packed = deflate(data);
    if packed.len() < data.len() && packed.len() + 1 < data.len() {
        let mut out: Vec<u8> = Vec::new();
        out.push(METHOD_ZLIB);
        let mut i: usize = 0;
        while i < packed.len()
            invariant
                i <= packed@.len(),
                out@.len() == i + 1,
                out@[0] == METHOD_ZLIB,
                out@.subrange(1, out@.len() as int) == packed@.subrange(0, i as int),
            decreases packed@.len() - i,
        {
            out.push(packed[i]);
            proof {
                assert(out@.subrange(1, out@.len() as int) =~= packed@.subrange(0, i as int).push(
                    packed@[i as int],
                ));
                assert(packed@.subrange(0, i + 1) =~= packed@.subrange(0, i as int).push(
                    packed@[i as int],
                ));
            }
            i = i + 1;
        }
        proof {
            assert(packed@.subrange(0, packed@.len() as int) =~= packed@);
            assert(out@.drop_first() =~= out@.subrange(1, out@.len() as int));
            assert(inflate_of(packed@, data@.len() as nat) == Some(data@));
        }
        (out, true)
    } else {
        let mut v: Vec<u8> = Vec::new();
        let mut i: usize = 0;
        while i < data.len()
            invariant
                i <= data@.len(),
                v@ == data@.subrange(0, i as int),
            decreases data@.len() - i,
        {
            v.push(data[i]);
            proof {
                assert(data@.subrange(0, i + 1) =~= data@.subrange(0, i as int).push(
                    data@[i as int],
                ));
            }
            i = i + 1;
        }
        proof {
            assert(data@.subrange(0, data@.len() as int) =~= data@);
        }
        (v, false)
    }
}

} // verus!
