//! Decompression of a zstd stream, with what comes out of a stream that breaks off or is
//! damaged.
//!
//! The decoder is read in steps of `READ_SIZE` bytes. A step in which it meets an error
//! gives nothing, so the size of the steps has a say in where a damaged stream ends.

use std::io::{BufReader, Read};
use vstd::prelude::*;

verus! {

/// How many bytes are asked of the decoder at a time.
pub const READ_SIZE: usize = 8192;

/// `zstd::Decoder`.
#[verifier::external_type_specification]
#[verifier::external_body]
#[verifier::reject_recursive_types(R)]
pub struct ExDecoder<'a, R>(zstd::Decoder<'a, R>);

/// `std::io::BufReader`.
#[verifier::external_type_specification]
#[verifier::external_body]
#[verifier::reject_recursive_types(R)]
pub struct ExBufReader<R: ?Sized>(BufReader<R>);

/// What is still to come out of a decoder that is read in steps of `READ_SIZE` bytes, up to
/// the end or to the first error.
pub uninterp spec fn zstd_left(d: zstd::Decoder<'static, BufReader<&[u8]>>) -> Seq<u8>;

/// Whether a decoder that is read in steps of `READ_SIZE` bytes comes to its end without an
/// error.
pub uninterp spec fn zstd_sound(d: zstd::Decoder<'static, BufReader<&[u8]>>) -> bool;

/// What comes out of a new decoder for some bytes, and whether it comes to its end without
/// an error; `None` where no decoder is made.
pub uninterp spec fn zstd_stream(bytes: Seq<u8>) -> Option<(Seq<u8>, bool)>;

/// `zstd::Decoder::new`: a decoder for the bytes, of which nothing has been read.
#[verifier::external_body]
fn zstd_open<'a>(bytes: &'a [u8]) -> (r: Option<zstd::Decoder<'static, BufReader<&'a [u8]>>>)
    ensures
        match r {
            Some(d) => zstd_stream(bytes@) == Some((zstd_left(d), zstd_sound(d))),
            None => zstd_stream(bytes@) is None,
        },
{
    zstd::Decoder::new(bytes).ok()
}

/// `read` of `zstd::Decoder`: puts the next bytes at the front of the buffer and gives their
/// number, which is 0 at the end of a sound stream and nowhere else. `None` stands for an
/// error, with which the stream is over.
#[verifier::external_body]
fn zstd_read(d: &mut zstd::Decoder<'static, BufReader<&[u8]>>, buf: &mut Vec<u8>) -> (r: Option<usize>)
    requires
        old(buf)@.len() == READ_SIZE,
    ensures
        final(buf)@.len() == READ_SIZE,
        match r {
            Some(n) => {
                &&& n <= READ_SIZE
                &&& zstd_left(*old(d)) == final(buf)@.take(n as int) + zstd_left(*final(d))
                &&& zstd_sound(*old(d)) == zstd_sound(*final(d))
                &&& n == 0 ==> zstd_left(*final(d)).len() == 0 && zstd_sound(*final(d))
            },
            None => zstd_left(*old(d)).len() == 0 && !zstd_sound(*old(d)),
        },
{
    d.read(buf.as_mut_slice()).ok()
}

/// What the bytes decompress to up to the end or to the first error, and whether there was
/// none; `None` where no decoder is made.
pub fn unpack(bytes: &[u8]) -> (r: Option<(Vec<u8>, bool)>)
    ensures
        match r {
            Some((plain, sound)) => zstd_stream(bytes@) == Some((plain@, sound)),
            None => zstd_stream(bytes@) is None,
        },
{
    let mut d = match zstd_open(bytes) {
        Some(d) => d,
        None => {
            return None;
        },
    };
    let mut plain: Vec<u8> = Vec::new();
    let mut buf: Vec<u8> = vec![0; READ_SIZE];
    let ghost all = zstd_left(d);
    let ghost whole = zstd_sound(d);
    loop
        invariant
            buf@.len() == READ_SIZE,
            plain@ + zstd_left(d) == all,
            zstd_sound(d) == whole,
            zstd_stream(bytes@) == Some((all, whole)),
        decreases zstd_left(d).len(),
    {
        let ghost left = zstd_left(d);
        match zstd_read(&mut d, &mut buf) {
            Some(n) => {
                if n == 0 {
                    assert(plain@ =~= all);
                    return Some((plain, true));
                }
                let ghost before = plain@;
                let mut i: usize = 0;
                while i < n
                    invariant
                        i <= n <= buf@.len(),
                        plain@ == before + buf@.take(i as int),
                    decreases n - i,
                {
                    plain.push(buf[i]);
                    i += 1;
                    assert(buf@.take(i as int) =~= buf@.take(i - 1).push(buf@[i - 1]));
                }
                assert(plain@ + zstd_left(d) =~= before + left);
            },
            None => {
                assert(plain@ =~= all);
                return Some((plain, false));
            },
        }
    }
}

} // verus!
