//! zstd streaming compression and bulk decompression, and SHA-1.

use vstd::prelude::*;
use std::io::Write;
use sha1::Digest;

verus! {

/// A zstd stream encoder that writes its frame into a `Vec`. Verus does not
/// take a declaration of `zstd::stream::Encoder` (its writer is bound by
/// `std::io::Write`), so the encoder is held here, out of Verus's sight.
#[verifier::external_body]
pub struct StripEncoder {
    inner: zstd::stream::Encoder<'static, Vec<u8>>,
}

/// What a zstd stream encoder was made with: its compression level, and the
/// total input size announced to it (`None` until one is announced).
pub uninterp spec fn encoder_setup(e: StripEncoder) -> (i32, Option<u64>);

/// The calls made on a zstd stream encoder so far, in order: `Some(buf)` for
/// a `write_all` of `buf`, `None` for a `flush`.
pub uninterp spec fn encoder_events(e: StripEncoder) -> Seq<Option<Seq<u8>>>;

/// The bytes that `Encoder::finish` returns: the zstd frame that an encoder
/// over an empty `Vec`, made with the level and announced size `setup`, writes
/// for the calls `events`.
pub uninterp spec fn zstd_stream_frame(setup: (i32, Option<u64>), events: Seq<Option<Seq<u8>>>) -> Seq<u8>;

/// What `zstd::bulk::decompress` returns for compressed data and a capacity:
/// the decompressed bytes, or `None` when it reports an error.
pub uninterp spec fn zstd_decompressed(data: Seq<u8>, capacity: nat) -> Option<Seq<u8>>;

/// SHA-1 digest of a byte sequence.
pub uninterp spec fn sha1_digest(data: Seq<u8>) -> Seq<u8>;

/// The bytes written by the calls `events`, in order.
pub open spec fn written(events: Seq<Option<Seq<u8>>>) -> Seq<u8>
    decreases events.len(),
{
    if events.len() == 0 {
        Seq::empty()
    } else {
        written(events.drop_last()) + match events.last() {
            Some(b) => b,
            None => Seq::empty(),
        }
    }
}

/// One more call adds what it writes to what was written.
pub proof fn lemma_written_push(events: Seq<Option<Seq<u8>>>, b: Option<Seq<u8>>)
    ensures
        written(events.push(b)) == written(events) + match b {
            Some(b) => b,
            None => Seq::<u8>::empty(),
        },
{
    assert(events.push(b).drop_last() =~= events);
}

/// The bytes written into a zstd stream encoder so far.
pub open spec fn encoder_input(e: StripEncoder) -> Seq<u8> {
    written(encoder_events(e))
}

/// `zstd::stream::Encoder::new` over an empty `Vec`. It sets the level on a
/// fresh compression context, where zstd clamps any level into its range
/// instead of failing, so it succeeds; the encoder has had no calls and
/// announces no size. (When zstd cannot allocate a context, `zstd-safe`
/// panics, as an allocation failure does anywhere; that is left unsaid.)
#[verifier::external_body]
pub(crate) fn encoder_new(level: i32) -> (r: core::result::Result<StripEncoder, String>)
    ensures
        r is Ok,
        r matches Ok(e) ==> encoder_events(e) == Seq::<Option<Seq<u8>>>::empty(),
        r matches Ok(e) ==> encoder_setup(e) == (level, None::<u64>),
{
    match zstd::stream::Encoder::new(Vec::new(), level) {
        Ok(inner) => Ok(StripEncoder { inner }),
        Err(e) => Err(e.to_string()),
    }
}

/// `Encoder::set_pledged_src_size`: announces the total input size. Before
/// any call that compresses it cannot fail; the calls made are unchanged.
#[verifier::external_body]
pub(crate) fn encoder_set_pledged_src_size(e: &mut StripEncoder, size: u64) -> (r: core::result::Result<(), String>)
    requires
        encoder_events(*old(e)).len() == 0,
    ensures
        r is Ok,
        encoder_events(*final(e)) == encoder_events(*old(e)),
        encoder_setup(*final(e)) == (encoder_setup(*old(e)).0, Some(size)),
{
    match e.inner.set_pledged_src_size(Some(size)) {
        Ok(()) => Ok(()),
        Err(err) => Err(err.to_string()),
    }
}

/// `Write::write_all` on the encoder. zstd fails only on input past the
/// announced size and writing into a `Vec` does not fail, so within the
/// announced size it succeeds; the call is recorded.
#[verifier::external_body]
pub(crate) fn encoder_write_all(e: &mut StripEncoder, buf: &[u8]) -> (r: core::result::Result<(), String>)
    requires
        encoder_setup(*old(e)).1 matches Some(n) ==> encoder_input(*old(e)).len() + buf@.len() <= n,
    ensures
        r is Ok,
        encoder_events(*final(e)) == encoder_events(*old(e)).push(Some(buf@)),
        encoder_setup(*final(e)) == encoder_setup(*old(e)),
{
    match e.inner.write_all(buf) {
        Ok(()) => Ok(()),
        Err(err) => Err(err.to_string()),
    }
}

/// `Write::flush` on the encoder: compressed output is pushed to the inner
/// `Vec`, which cannot fail; the call is recorded.
#[verifier::external_body]
pub(crate) fn encoder_flush(e: &mut StripEncoder) -> (r: core::result::Result<(), String>)
    ensures
        r is Ok,
        encoder_events(*final(e)) == encoder_events(*old(e)).push(None),
        encoder_setup(*final(e)) == encoder_setup(*old(e)),
{
    match e.inner.flush() {
        Ok(()) => Ok(()),
        Err(err) => Err(err.to_string()),
    }
}

/// `Encoder::finish`: ends the zstd frame and returns the inner `Vec`. zstd
/// fails only when the input differs from the announced size, so with the
/// announced size met it succeeds, and the bytes are the named frame for the
/// encoder's setup and calls. `zstd::bulk::decompress` of that frame with any
/// capacity at least the input size gives back exactly the input.
#[verifier::external_body]
pub(crate) fn encoder_finish(e: StripEncoder) -> (r: core::result::Result<Vec<u8>, String>)
    requires
        encoder_setup(e).1 matches Some(n) ==> encoder_input(e).len() == n,
    ensures
        r is Ok,
        r matches Ok(z) ==> z@ == zstd_stream_frame(encoder_setup(e), encoder_events(e)),
        r matches Ok(z) ==> forall|cap: nat|
            cap >= encoder_input(e).len() ==> #[trigger] zstd_decompressed(z@, cap) == Some(
                encoder_input(e),
            ),
{
    match e.inner.finish() {
        Ok(v) => Ok(v),
        Err(err) => Err(err.to_string()),
    }
}

/// `zstd::bulk::decompress`: the result is the named decompression of the
/// data with this capacity; errors are returned as their message.
#[verifier::external_body]
pub(crate) fn zstd_decompress(data: &[u8], capacity: usize) -> (r: core::result::Result<Vec<u8>, String>)
    ensures
        match zstd_decompressed(data@, capacity as nat) {
            Some(v) => r matches Ok(o) && o@ == v,
            None => r is Err,
        },
{
    match zstd::bulk::decompress(data, capacity) {
        Ok(v) => Ok(v),
        Err(err) => Err(err.to_string()),
    }
}

/// `Sha1::digest`, copied into an array: the SHA-1 digest of `data`.
#[verifier::external_body]
pub(crate) fn sha1_20(data: &[u8]) -> (out: [u8; 20])
    ensures
        out@ == sha1_digest(data@),
{
    let d = sha1::Sha1::digest(data);
    let mut out = [0u8; 20];
    out.copy_from_slice(&d);
    out
}

} // verus!
