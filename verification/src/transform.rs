//! Bayer same-channel left delta, then byte-shuffle (low plane, high plane).
//! The inverse is a per-channel prefix sum after the unshuffle.

use vstd::prelude::*;

verus! {

/// Pixel `i` of a row-major image `width` pixels wide, minus the pixel two to
/// its left (the previous pixel of the same Bayer channel), modulo 2^16. The
/// first two pixels of a row are kept as they are.
pub open spec fn channel_delta(px: Seq<u16>, width: nat, i: int) -> u16 {
    if i % (width as int) >= 2 {
        ((px[i] - px[i - 2]) % 0x10000) as u16
    } else {
        px[i]
    }
}

/// The shuffled delta image: low bytes of all deltas, then their high bytes.
pub open spec fn spec_forward(px: Seq<u16>, width: nat) -> Seq<u8> {
    let n = px.len();
    Seq::new(
        2 * n,
        |k: int|
            if k < n {
                (channel_delta(px, width, k) % 256) as u8
            } else {
                (channel_delta(px, width, k - n) / 256) as u8
            },
    )
}

/// Delta `i` put back together from its low and high byte planes.
pub open spec fn unshuffled(s: Seq<u8>, i: int) -> int {
    s[i] + 256 * s[s.len() / 2 + i]
}

/// Pixel `i` rebuilt from the shuffled deltas: the running sum, modulo 2^16,
/// of the deltas of its channel in its row.
pub open spec fn channel_sum(s: Seq<u8>, width: nat, i: int) -> u16
    decreases i,
{
    if i >= 2 && i % (width as int) >= 2 {
        ((unshuffled(s, i) + channel_sum(s, width, i - 2)) % 0x10000) as u16
    } else {
        unshuffled(s, i) as u16
    }
}

/// The pixels that `inverse` rebuilds from a shuffled delta image.
pub open spec fn spec_inverse(s: Seq<u8>, width: nat) -> Seq<u16> {
    Seq::new(s.len() / 2, |i: int| channel_sum(s, width, i))
}

/// Little-endian 16-bit samples of a byte strip (a trailing odd byte is ignored).
pub open spec fn spec_pixels_from_le_bytes(strip: Seq<u8>) -> Seq<u16> {
    Seq::new(strip.len() / 2, |i: int| (strip[2 * i] + 256 * strip[2 * i + 1]) as u16)
}

/// The little-endian bytes of 16-bit samples.
pub open spec fn spec_pixels_to_le_bytes(px: Seq<u16>) -> Seq<u8> {
    Seq::new(
        2 * px.len(),
        |k: int| if k % 2 == 0 { (px[k / 2] % 256) as u8 } else { (px[k / 2] / 256) as u8 },
    )
}

/// Delta-codes each row per Bayer channel and splits the deltas into a low
/// byte plane followed by a high byte plane.
pub fn forward(pixels: &[u16], width: usize) -> (out: Vec<u8>)
    requires
        width > 0,
        pixels@.len() % (width as nat) == 0,
        2 * pixels@.len() <= usize::MAX,
    ensures
        out@ == spec_forward(pixels@, width as nat),
{
    let n = pixels.len();
    let mut lo: Vec<u8> = Vec::with_capacity(2 * n);
    let mut hi: Vec<u8> = Vec::with_capacity(n);
    let mut x: usize = 0;
    let mut i: usize = 0;
    while i < n
        invariant
            n == pixels@.len(),
            width > 0,
            i <= n,
            x == i % width,
            lo@.len() == i,
            hi@.len() == i,
            forall|k: int|
                0 <= k < i ==> lo@[k] == (channel_delta(pixels@, width as nat, k) % 256) as u8,
            forall|k: int|
                0 <= k < i ==> hi@[k] == (channel_delta(pixels@, width as nat, k) / 256) as u8,
        decreases n - i,
    {
        let v = pixels[i];
        proof {
            vstd::arithmetic::div_mod::lemma_mod_decreases(i as nat, width as nat);
        }
        let d: u16 = if x >= 2 {
            ((v as u32 + 0x10000 - pixels[i - 2] as u32) % 0x10000) as u16
        } else {
            v
        };
        assert(d == channel_delta(pixels@, width as nat, i as int));
        lo.push((d % 256) as u8);
        hi.push((d / 256) as u8);
        x += 1;
        if x == width {
            x = 0;
        }
        i += 1;
        proof {
            lemma_mod_step((i - 1) as int, width as int);
        }
    }
    let ghost lo_part = lo@;
    lo.append(&mut hi);
    assert(lo@ =~= spec_forward(pixels@, width as nat));
    lo
}

/// Undoes `forward`: joins the byte planes and sums the deltas of each
/// channel along each row.
pub fn inverse(shuffled: &[u8], width: usize) -> (px: Vec<u16>)
    requires
        width > 0,
        shuffled@.len() % 2 == 0,
        (shuffled@.len() / 2) % (width as nat) == 0,
    ensures
        px@ == spec_inverse(shuffled@, width as nat),
{
    let n = shuffled.len() / 2;
    let mut px: Vec<u16> = Vec::with_capacity(n);
    let mut x: usize = 0;
    let mut i: usize = 0;
    while i < n
        invariant
            n == shuffled@.len() / 2,
            shuffled@.len() % 2 == 0,
            width > 0,
            i <= n,
            x == i % width,
            px@.len() == i,
            forall|k: int| 0 <= k < i ==> px@[k] == channel_sum(shuffled@, width as nat, k),
        decreases n - i,
    {
        proof {
            vstd::arithmetic::div_mod::lemma_mod_decreases(i as nat, width as nat);
        }
        let u: u16 = shuffled[i] as u16 + (shuffled[n + i] as u16) * 256;
        assert(u == unshuffled(shuffled@, i as int));
        let v: u16 = if x >= 2 {
            ((px[i - 2] as u32 + u as u32) % 0x10000) as u16
        } else {
            u
        };
        assert(v == channel_sum(shuffled@, width as nat, i as int));
        px.push(v);
        x += 1;
        if x == width {
            x = 0;
        }
        i += 1;
        proof {
            lemma_mod_step((i - 1) as int, width as int);
        }
    }
    assert(px@ =~= spec_inverse(shuffled@, width as nat));
    px
}

/// Reads a strip of little-endian 16-bit samples.
pub fn pixels_from_le_bytes(strip: &[u8]) -> (px: Vec<u16>)
    ensures
        px@ == spec_pixels_from_le_bytes(strip@),
{
    let len = strip.len();
    let n = len / 2;
    let mut px: Vec<u16> = Vec::with_capacity(n);
    let mut i: usize = 0;
    while i < n
        invariant
            n == strip@.len() / 2,
            len == strip@.len(),
            i <= n,
            px@.len() == i,
            forall|k: int|
                0 <= k < i ==> px@[k] == (strip@[2 * k] + 256 * strip@[2 * k + 1]) as u16,
        decreases n - i,
    {
        px.push(strip[2 * i] as u16 + (strip[2 * i + 1] as u16) * 256);
        i += 1;
    }
    assert(px@ =~= spec_pixels_from_le_bytes(strip@));
    px
}

/// Writes 16-bit samples as little-endian bytes.
pub fn pixels_to_le_bytes(px: &[u16]) -> (out: Vec<u8>)
    requires
        2 * px@.len() <= usize::MAX,
    ensures
        out@ == spec_pixels_to_le_bytes(px@),
{
    let mut out: Vec<u8> = Vec::with_capacity(2 * px.len());
    let mut i: usize = 0;
    while i < px.len()
        invariant
            i <= px@.len(),
            out@.len() == 2 * i,
            forall|k: int|
                0 <= k < 2 * i ==> out@[k] == if k % 2 == 0 {
                    (px@[k / 2] % 256) as u8
                } else {
                    (px@[k / 2] / 256) as u8
                },
        decreases px@.len() - i,
    {
        let p = px[i];
        out.push((p % 256) as u8);
        out.push((p / 256) as u8);
        i += 1;
    }
    assert(out@ =~= spec_pixels_to_le_bytes(px@));
    out
}

/// Counting columns: the column after column `i % w` is the next one, or 0
/// at the end of a row.
proof fn lemma_mod_step(i: int, w: int)
    requires
        w > 0,
        i >= 0,
    ensures
        (i + 1) % w == if i % w + 1 == w { 0 } else { i % w + 1 },
{
    let q = i / w;
    let r = i % w;
    vstd::arithmetic::div_mod::lemma_fundamental_div_mod(i, w);
    if r + 1 == w {
        assert(i + 1 == (q + 1) * w + 0) by (nonlinear_arith)
            requires
                i == w * q + r,
                r + 1 == w,
        ;
        vstd::arithmetic::div_mod::lemma_fundamental_div_mod_converse(i + 1, w, q + 1, 0);
    } else {
        assert(i + 1 == q * w + (r + 1)) by (nonlinear_arith)
            requires
                i == w * q + r,
        ;
        vstd::arithmetic::div_mod::lemma_fundamental_div_mod_converse(i + 1, w, q, r + 1);
    }
}

/// The deltas in a shuffled image are the channel deltas of the pixels.
proof fn lemma_unshuffled_forward(px: Seq<u16>, width: nat, i: int)
    requires
        0 <= i < px.len(),
    ensures
        unshuffled(spec_forward(px, width), i) == channel_delta(px, width, i),
{
    let s = spec_forward(px, width);
    assert(s.len() / 2 == px.len());
    let d = channel_delta(px, width, i);
    assert(s[i] == (d % 256) as u8);
    assert(s[px.len() + i] == (d / 256) as u8);
}

/// Summing the deltas of a channel gives back its pixels.
proof fn lemma_channel_sum_forward(px: Seq<u16>, width: nat, i: int)
    requires
        width > 0,
        0 <= i < px.len(),
    ensures
        channel_sum(spec_forward(px, width), width, i) == px[i],
    decreases i,
{
    let s = spec_forward(px, width);
    lemma_unshuffled_forward(px, width, i);
    if i >= 2 && i % (width as int) >= 2 {
        lemma_channel_sum_forward(px, width, i - 2);
    } else if i < 2 {
        vstd::arithmetic::div_mod::lemma_mod_decreases(i as nat, width);
    }
}

/// `inverse` undoes `forward` on every image whose length is a whole number
/// of rows.
pub proof fn lemma_inverse_undoes_forward(px: Seq<u16>, width: nat)
    requires
        width > 0,
    ensures
        spec_inverse(spec_forward(px, width), width) == px,
{
    let s = spec_forward(px, width);
    assert forall|i: int| 0 <= i < px.len() implies #[trigger] spec_inverse(s, width)[i] == px[i] by {
        lemma_channel_sum_forward(px, width, i);
    }
    assert(spec_inverse(s, width) =~= px);
}

/// The delta that `forward` takes of pixel `i` of the rebuilt image is the
/// delta that was unshuffled for it.
proof fn lemma_delta_of_sum(s: Seq<u8>, width: nat, i: int)
    requires
        width > 0,
        s.len() % 2 == 0,
        0 <= i < s.len() / 2,
    ensures
        channel_delta(spec_inverse(s, width), width, i) == unshuffled(s, i),
        0 <= unshuffled(s, i) < 65536,
{
    let px = spec_inverse(s, width);
    let u = unshuffled(s, i);
    assert(0 <= s[i] < 256 && 0 <= s[s.len() / 2 + i] < 256);
    assert(0 <= u < 65536);
    if i % (width as int) >= 2 {
        assert(i >= 2) by {
            vstd::arithmetic::div_mod::lemma_mod_decreases(i as nat, width);
        }
        let c = px[i - 2] as int;
        assert(px[i] == channel_sum(s, width, i));
        assert(px[i] as int == (u + c) % 65536);
        assert(((u + c) % 65536 - c) % 65536 == u) by (nonlinear_arith)
            requires
                0 <= u < 65536,
                0 <= c < 65536,
        ;
    }
}

/// `forward` undoes `inverse`: delta-coding the rebuilt image gives the
/// shuffled deltas back, for every shuffled image of even length.
pub proof fn lemma_forward_undoes_inverse(s: Seq<u8>, width: nat)
    requires
        width > 0,
        s.len() % 2 == 0,
    ensures
        spec_forward(spec_inverse(s, width), width) == s,
{
    let px = spec_inverse(s, width);
    let n = s.len() / 2;
    let f = spec_forward(px, width);
    assert forall|k: int| 0 <= k < s.len() implies #[trigger] f[k] == s[k] by {
        if k < n {
            lemma_delta_of_sum(s, width, k);
            assert(unshuffled(s, k) % 256 == s[k]);
        } else {
            lemma_delta_of_sum(s, width, k - n);
            assert(unshuffled(s, k - n) / 256 == s[k]);
        }
    }
    assert(f =~= s);
}

/// Reading little-endian samples back from their bytes gives the samples.
pub proof fn lemma_le_bytes_roundtrip(px: Seq<u16>)
    ensures
        spec_pixels_from_le_bytes(spec_pixels_to_le_bytes(px)) == px,
{
    let b = spec_pixels_to_le_bytes(px);
    assert forall|i: int| 0 <= i < px.len() implies #[trigger] spec_pixels_from_le_bytes(b)[i]
        == px[i] by {
        assert((2 * i) % 2 == 0);
        assert((2 * i + 1) % 2 == 1);
        assert((2 * i) / 2 == i);
        assert((2 * i + 1) / 2 == i);
    }
    assert(spec_pixels_from_le_bytes(b) =~= px);
}

/// Writing the samples of an even-length strip back as bytes gives the strip.
pub proof fn lemma_le_samples_roundtrip(strip: Seq<u8>)
    requires
        strip.len() % 2 == 0,
    ensures
        spec_pixels_to_le_bytes(spec_pixels_from_le_bytes(strip)) == strip,
{
    let p = spec_pixels_from_le_bytes(strip);
    let b = spec_pixels_to_le_bytes(p);
    assert forall|k: int| 0 <= k < strip.len() implies #[trigger] b[k] == strip[k] by {
        let i = k / 2;
        assert(0 <= i < p.len());
        if k % 2 == 0 {
            assert(k == 2 * i);
        } else {
            assert(k == 2 * i + 1);
        }
    }
    assert(b =~= strip);
}

} // verus!
