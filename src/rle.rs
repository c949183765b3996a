//! Run-length coding of pixel data.
//!
//! A stream is a sequence of packets. A packet starts with a header byte `h`:
//! below 128 it is followed by `h + 1` literal pixels; from 128 on it is
//! followed by one pixel that stands for `h - 127` copies of itself.
use vstd::prelude::*;

use crate::tga::TgaError;

verus! {

/// How many pixels a packet with header `h` produces.
pub open spec fn packet_count(h: u8) -> nat {
    if h < 128 {
        h as nat + 1
    } else {
        (h - 127) as nat
    }
}

/// How many bytes follow the header of such a packet.
pub open spec fn payload_len(h: u8, bpp: nat) -> nat {
    if h < 128 {
        packet_count(h) * bpp
    } else {
        bpp
    }
}

/// `n` copies of the pixel `px`, one after another.
pub open spec fn repeat(px: Seq<u8>, n: nat) -> Seq<u8>
    decreases n,
{
    if n == 0 {
        seq![]
    } else {
        repeat(px, (n - 1) as nat) + px
    }
}

/// The pixel bytes of the packet at the front of `data`.
pub open spec fn packet_pixels(data: Seq<u8>, bpp: nat) -> Seq<u8> {
    if data[0] < 128 {
        data.subrange(1, 1 + payload_len(data[0], bpp) as int)
    } else {
        repeat(data.subrange(1, 1 + bpp as int), packet_count(data[0]))
    }
}

/// Whether the front of `data` holds a whole packet.
pub open spec fn has_packet(data: Seq<u8>, bpp: nat) -> bool {
    data.len() > 0 && data.len() >= 1 + payload_len(data[0], bpp)
}

pub open spec fn prepend(o: Option<Seq<u8>>, p: Seq<u8>) -> Option<Seq<u8>> {
    match o {
        Some(q) => Some(p + q),
        None => None,
    }
}

/// Decodes exactly `npix` pixels from the front of `data`, ignoring what
/// follows them; `None` where the data ends early or a packet overruns.
pub open spec fn rle_decode(data: Seq<u8>, bpp: nat, npix: nat) -> Option<Seq<u8>>
    decreases npix,
{
    if npix == 0 {
        Some(seq![])
    } else if !has_packet(data, bpp) || packet_count(data[0]) > npix {
        None
    } else {
        prepend(
            rle_decode(
                data.skip(1 + payload_len(data[0], bpp) as int),
                bpp,
                (npix - packet_count(data[0])) as nat,
            ),
            packet_pixels(data, bpp),
        )
    }
}

/// Decodes the whole of `data` as packets: the pixel bytes and their count.
pub open spec fn rle_stream(data: Seq<u8>, bpp: nat) -> Option<(Seq<u8>, nat)>
    decreases data.len(),
{
    if data.len() == 0 {
        Some((seq![], 0))
    } else if !has_packet(data, bpp) {
        None
    } else {
        match rle_stream(data.skip(1 + payload_len(data[0], bpp) as int), bpp) {
            Some((p, k)) => Some((packet_pixels(data, bpp) + p, k + packet_count(data[0]))),
            None => None,
        }
    }
}

proof fn lemma_repeat_len(px: Seq<u8>, n: nat)
    ensures
        repeat(px, n).len() == n * px.len(),
    decreases n,
{
    let l = px.len();
    if n > 0 {
        let m = (n - 1) as nat;
        lemma_repeat_len(px, m);
        assert(n * l == m * l + l) by (nonlinear_arith)
            requires n == m + 1;
    } else {
        assert(n * l == 0) by (nonlinear_arith)
            requires n == 0;
    }
}

/// Decoding `npix` pixels gives `npix * bpp` bytes.
pub proof fn lemma_decode_len(data: Seq<u8>, bpp: nat, npix: nat)
    requires
        rle_decode(data, bpp, npix) is Some,
    ensures
        rle_decode(data, bpp, npix)->Some_0.len() == npix * bpp,
    decreases npix,
{
    if npix > 0 {
        let h = data[0];
        let n = packet_count(h);
        let rest = data.skip(1 + payload_len(h, bpp) as int);
        lemma_decode_len(rest, bpp, (npix - n) as nat);
        if h < 128 {
            assert(packet_pixels(data, bpp).len() == n * bpp);
        } else {
            lemma_repeat_len(data.subrange(1, 1 + bpp as int), n);
        }
        let m = (npix - n) as nat;
        assert(npix * bpp == m * bpp + n * bpp) by (nonlinear_arith)
            requires npix == m + n;
    } else {
        assert(npix * bpp == 0) by (nonlinear_arith)
            requires npix == 0;
    }
}

/// A whole stream followed by more data decodes to its pixels, then to what
/// the rest decodes to.
pub proof fn lemma_stream_then_decode(a: Seq<u8>, b: Seq<u8>, bpp: nat, n2: nat)
    requires
        rle_stream(a, bpp) is Some,
        rle_decode(b, bpp, n2) is Some,
    ensures
        rle_decode(a + b, bpp, rle_stream(a, bpp)->Some_0.1 + n2) == Some(
            rle_stream(a, bpp)->Some_0.0 + rle_decode(b, bpp, n2)->Some_0,
        ),
    decreases a.len(),
{
    if a.len() == 0 {
        assert(a + b =~= b);
        assert(rle_stream(a, bpp)->Some_0.0 + rle_decode(b, bpp, n2)->Some_0 =~= rle_decode(b, bpp, n2)->Some_0);
    } else {
        let m = 1 + payload_len(a[0], bpp);
        let rest = a.skip(m as int);
        lemma_stream_then_decode(rest, b, bpp, n2);
        let ab = a + b;
        assert(ab[0] == a[0]);
        assert(ab.skip(m as int) =~= rest + b);
        assert(ab.subrange(1, m as int) =~= a.subrange(1, m as int));
        if a[0] >= 128 {
            assert(ab.subrange(1, 1 + bpp as int) =~= a.subrange(1, 1 + bpp as int));
        }
        assert(packet_pixels(ab, bpp) == packet_pixels(a, bpp));
        let p1 = packet_pixels(a, bpp);
        let p2 = rle_stream(rest, bpp)->Some_0.0;
        let q = rle_decode(b, bpp, n2)->Some_0;
        assert(p1 + (p2 + q) =~= (p1 + p2) + q);
    }
}

/// Decoding what the encoder produced gives back the pixels, whatever bytes
/// follow the stream.
pub proof fn lemma_rle_round_trip(pixels: Seq<u8>, bpp: nat, encoded: Seq<u8>, tail: Seq<u8>)
    requires
        bpp >= 1,
        rle_stream(encoded, bpp) == Some((pixels, pixels.len() / bpp)),
    ensures
        rle_decode(encoded + tail, bpp, pixels.len() / bpp) == Some(pixels),
{
    assert(rle_decode(tail, bpp, 0) == Some(Seq::<u8>::empty()));
    lemma_stream_then_decode(encoded, tail, bpp, 0);
    assert(pixels + Seq::<u8>::empty() =~= pixels);
}

/// Appending one whole packet to a stream appends its pixels.
pub proof fn lemma_stream_push(a: Seq<u8>, pk: Seq<u8>, bpp: nat)
    requires
        rle_stream(a, bpp) is Some,
        has_packet(pk, bpp),
        pk.len() == 1 + payload_len(pk[0], bpp),
    ensures
        rle_stream(a + pk, bpp) == Some(
            (
                rle_stream(a, bpp)->Some_0.0 + packet_pixels(pk, bpp),
                rle_stream(a, bpp)->Some_0.1 + packet_count(pk[0]),
            ),
        ),
    decreases a.len(),
{
    if a.len() == 0 {
        assert(a + pk =~= pk);
        let e = pk.skip(pk.len() as int);
        assert(e =~= seq![]);
        assert(rle_stream(e, bpp) == Some((Seq::<u8>::empty(), 0nat)));
        assert(packet_pixels(pk, bpp) + seq![] =~= packet_pixels(pk, bpp));
        assert(seq![] + packet_pixels(pk, bpp) =~= packet_pixels(pk, bpp));
    } else {
        let m = 1 + payload_len(a[0], bpp);
        let rest = a.skip(m as int);
        lemma_stream_push(rest, pk, bpp);
        let ap = a + pk;
        assert(ap[0] == a[0]);
        assert(ap.skip(m as int) =~= rest + pk);
        assert(ap.subrange(1, m as int) =~= a.subrange(1, m as int));
        if a[0] >= 128 {
            assert(ap.subrange(1, 1 + bpp as int) =~= a.subrange(1, 1 + bpp as int));
        }
        assert(packet_pixels(ap, bpp) == packet_pixels(a, bpp));
        let p1 = packet_pixels(a, bpp);
        let p2 = rle_stream(rest, bpp)->Some_0.0;
        let q = packet_pixels(pk, bpp);
        assert(p1 + (p2 + q) =~= (p1 + p2) + q);
    }
}


/// Decodes `width * height` pixels of `bytespp` bytes from the front of
/// `data`. Bytes after the last pixel are left unread.
pub fn load_rle_data(data: &[u8], width: u16, height: u16, bytespp: u8) -> (r: Result<Vec<u8>, TgaError>)
    requires
        1 <= bytespp <= 4,
    ensures
        match rle_decode(data@, bytespp as nat, width as nat * height as nat) {
            Some(p) => r is Ok && r->Ok_0@ == p,
            None => r is Err && r->Err_0 == TgaError::CorruptStream,
        },
{
    let ghost bpp = bytespp as nat;
    assert(width as int * height as int <= 65535 * 65535) by (nonlinear_arith)
        requires width <= 65535, height <= 65535;
    let pixelcount: u64 = width as u64 * height as u64;
    let ghost npix = width as nat * height as nat;
    let mut currentpixel: u64 = 0;
    let mut pos: usize = 0;
    let mut out: Vec<u8> = Vec::new();
    let len = data.len();
    let bpp_u = bytespp as usize;
    assert(data@.skip(0) =~= data@);
    proof {
        if let Some(q) = rle_decode(data@, bpp, npix) {
            assert(Seq::<u8>::empty() + q =~= q);
        }
    }
    while currentpixel < pixelcount
        invariant
            pixelcount == npix,
            npix == width as nat * height as nat,
            bpp == bytespp as nat,
            currentpixel <= pixelcount,
            pos <= len,
            len == data@.len(),
            bpp_u == bpp,
            1 <= bpp <= 4,
            rle_decode(data@, bpp, npix) == prepend(
                rle_decode(data@.skip(pos as int), bpp, (npix - currentpixel) as nat),
                out@,
            ),
        decreases pixelcount - currentpixel,
    {
        let ghost rest = data@.skip(pos as int);
        let ghost remaining = (npix - currentpixel) as nat;
        assert(rest.len() == len - pos);
        if pos >= len {
            assert(rle_decode(rest, bpp, remaining) is None);
            return Err(TgaError::CorruptStream);
        }
        let chunkheader = data[pos];
        assert(rest[0] == chunkheader);
        let count: usize = if chunkheader < 128 { chunkheader as usize + 1 } else { chunkheader as usize - 127 };
        assert(count * bpp_u <= 512) by (nonlinear_arith)
            requires count <= 128, bpp_u <= 4;
        let payload: usize = if chunkheader < 128 { count * bpp_u } else { bpp_u };
        assert(count == packet_count(chunkheader));
        assert(payload == payload_len(chunkheader, bpp));
        if len - pos < 1 + payload || count as u64 > pixelcount - currentpixel {
            assert(rle_decode(rest, bpp, remaining) is None);
            return Err(TgaError::CorruptStream);
        }
        let ghost out0 = out@;
        let start = pos + 1;
        if chunkheader < 128 {
            let mut k: usize = 0;
            while k < payload
                invariant
                    start + payload <= len,
                    len == data@.len(),
                    k <= payload,
                    out@ == out0 + data@.subrange(start as int, start + k),
                decreases payload - k,
            {
                out.push(data[start + k]);
                k = k + 1;
                assert(out@ =~= out0 + data@.subrange(start as int, start + k));
            }
            assert(data@.subrange(start as int, start + payload) =~= packet_pixels(rest, bpp));
        } else {
            let ghost px = data@.subrange(start as int, start + bpp_u);
            let mut t: usize = 0;
            while t < count
                invariant
                    start + bpp_u <= len,
                    len == data@.len(),
                    bpp_u == bpp,
                    px == data@.subrange(start as int, start + bpp_u),
                    t <= count,
                    out@ == out0 + repeat(px, t as nat),
                decreases count - t,
            {
                let ghost out1 = out@;
                let mut c: usize = 0;
                while c < bpp_u
                    invariant
                        start + bpp_u <= len,
                        len == data@.len(),
                        c <= bpp_u,
                        px == data@.subrange(start as int, start + bpp_u),
                        out@ == out1 + px.subrange(0, c as int),
                    decreases bpp_u - c,
                {
                    out.push(data[start + c]);
                    c = c + 1;
                    assert(out@ =~= out1 + px.subrange(0, c as int));
                }
                assert(px.subrange(0, bpp_u as int) =~= px);
                t = t + 1;
                assert(out@ =~= out0 + repeat(px, t as nat));
            }
            assert(px =~= rest.subrange(1, 1 + bpp as int));
        }
        assert(rest.skip(1 + payload as int) =~= data@.skip(pos + 1 + payload));
        assert(out0 + (packet_pixels(rest, bpp) + rle_decode(rest.skip(1 + payload as int), bpp, (remaining - count) as nat)->Some_0)
            =~= (out0 + packet_pixels(rest, bpp)) + rle_decode(rest.skip(1 + payload as int), bpp, (remaining - count) as nat)->Some_0);
        pos = pos + 1 + payload;
        currentpixel = currentpixel + count as u64;
    }
    assert(rle_decode(data@.skip(pos as int), bpp, 0) == Some(Seq::<u8>::empty()));
    assert(out@ + Seq::<u8>::empty() =~= out@);
    Ok(out)
}


/// Pixel `i` of a buffer of `bpp`-byte pixels.
pub open spec fn pixel(data: Seq<u8>, i: int, bpp: nat) -> Seq<u8> {
    data.subrange(i * bpp, i * bpp + bpp)
}

/// The length of the run of pixels equal to pixel `t`, counted on from `k`
/// and capped at 128 and at the end of the buffer.
pub open spec fn run_from(data: Seq<u8>, bpp: nat, npix: int, t: int, k: int) -> int
    decreases 129 - k,
{
    if k >= 128 || t + k >= npix || pixel(data, t + k, bpp) != pixel(data, t, bpp) {
        k
    } else {
        run_from(data, bpp, npix, t, k + 1)
    }
}

/// The length of the stretch of pixels from `t` on, counted on from `k`,
/// that ends before a pair of equal neighbours, capped at 128 and at the
/// end of the buffer.
pub open spec fn literal_from(data: Seq<u8>, bpp: nat, npix: int, t: int, k: int) -> int
    decreases 129 - k,
{
    if k >= 128 || t + k >= npix || (t + k + 1 < npix && pixel(data, t + k, bpp) == pixel(data, t + k + 1, bpp)) {
        k
    } else {
        literal_from(data, bpp, npix, t, k + 1)
    }
}

/// The packets that encode the pixels from `t` on: a repeat packet for a
/// run of two or more equal pixels, else a literal packet up to the next
/// such run.
pub open spec fn rle_encoding(data: Seq<u8>, bpp: nat, npix: int, t: int) -> Seq<u8>
    decreases (if npix > t { npix - t } else { 0 }),
{
    if t >= npix {
        seq![]
    } else {
        let r = run_from(data, bpp, npix, t, 1);
        if r > 1 {
            seq![(127 + r) as u8] + pixel(data, t, bpp) + rle_encoding(data, bpp, npix, t + r)
        } else {
            let c = literal_from(data, bpp, npix, t, 1);
            let c1 = if c >= 1 { c } else { 1 };
            seq![(c1 - 1) as u8] + data.subrange(t * bpp, (t + c1) * bpp) + rle_encoding(data, bpp, npix, t + c1)
        }
    }
}

proof fn lemma_literal_from_bounds(data: Seq<u8>, bpp: nat, npix: int, t: int, k: int)
    requires
        1 <= k,
    ensures
        literal_from(data, bpp, npix, t, k) >= k,
    decreases 129 - k,
{
    if !(k >= 128 || t + k >= npix || (t + k + 1 < npix && pixel(data, t + k, bpp) == pixel(data, t + k + 1, bpp))) {
        lemma_literal_from_bounds(data, bpp, npix, t, k + 1);
    }
}

/// A run of `r` equal pixels starting at pixel `t` is that pixel repeated.
#[verifier::rlimit(60)]
proof fn lemma_run_is_repeat(data: Seq<u8>, t: int, r: nat, bpp: nat)
    requires
        0 <= t,
        (t + r) * bpp <= data.len(),
        forall|s: int| 0 <= s < r ==> #[trigger] pixel(data, t + s, bpp) == pixel(data, t, bpp),
    ensures
        data.subrange(t * bpp, (t + r) * bpp) == repeat(pixel(data, t, bpp), r),
    decreases r,
{
    let a = t * bpp;
    let c = (t + r) * bpp;
    if r == 0 {
        assert(data.subrange(a, c) =~= seq![]);
    } else {
        let r1 = (r - 1) as nat;
        let b = (t + r1) * bpp;
        assert(c == b + bpp && 0 <= a <= b) by (nonlinear_arith)
            requires r1 == r - 1, 0 <= t, a == t * bpp, b == (t + r1) * bpp, c == (t + r) * bpp;
        lemma_run_is_repeat(data, t, r1, bpp);
        assert(pixel(data, t + r1, bpp) == pixel(data, t, bpp));
        assert(pixel(data, t + r1, bpp) == data.subrange(b, c));
        assert(data.subrange(a, c) =~= data.subrange(a, b) + data.subrange(b, c));
    }
}

/// Appends `data[from..to]` to `out`.
pub(crate) fn push_bytes(out: &mut Vec<u8>, data: &[u8], from: usize, to: usize)
    requires
        from <= to <= data@.len(),
    ensures
        final(out)@ == old(out)@ + data@.subrange(from as int, to as int),
{
    let ghost out0 = out@;
    let mut k: usize = from;
    while k < to
        invariant
            from <= k <= to,
            to <= data@.len(),
            out@ == out0 + data@.subrange(from as int, k as int),
        decreases to - k,
    {
        out.push(data[k]);
        k = k + 1;
        assert(out@ =~= out0 + data@.subrange(from as int, k as int));
    }
}

/// Whether the `bpp` bytes at `a` equal those at `b`.
fn same_pixel(data: &[u8], a: usize, b: usize, bpp: usize) -> (r: bool)
    requires
        a + bpp <= data@.len(),
        b + bpp <= data@.len(),
    ensures
        r == (data@.subrange(a as int, a + bpp) == data@.subrange(b as int, b + bpp)),
{
    let n = data.len();
    let mut c: usize = 0;
    while c < bpp
        invariant
            n == data@.len(),
            c <= bpp,
            a + bpp <= data@.len(),
            b + bpp <= data@.len(),
            forall|j: int| 0 <= j < c ==> #[trigger] data@[a + j] == data@[b + j],
        decreases bpp - c,
    {
        if data[a + c] != data[b + c] {
            assert(data@.subrange(a as int, a + bpp)[c as int] != data@.subrange(b as int, b + bpp)[c as int]);
            return false;
        }
        c = c + 1;
    }
    assert forall|j: int| 0 <= j < bpp implies #[trigger] data@.subrange(a as int, a + bpp)[j] == data@.subrange(b as int, b + bpp)[j] by {
        assert(data@[a + j] == data@[b + j]);
    }
    assert(data@.subrange(a as int, a + bpp) =~= data@.subrange(b as int, b + bpp));
    true
}

/// The number of pixels, at most 128, equal to pixel `t` from `t` on.
fn repeat_run(data: &[u8], t: usize, npix: usize, bpp_u: usize) -> (run: usize)
    requires
        1 <= bpp_u <= 4,
        npix * bpp_u == data@.len(),
        t < npix,
    ensures
        1 <= run <= 128,
        t + run <= npix,
        forall|s: int| 0 <= s < run ==> #[trigger] pixel(data@, t + s, bpp_u as nat) == pixel(data@, t as int, bpp_u as nat),
        run == run_from(data@, bpp_u as nat, npix as int, t as int, 1),
{
    let ghost bpp = bpp_u as nat;
    let len = data.len();
    assert(t * bpp < len) by (nonlinear_arith)
        requires t < npix, npix * bpp == len, bpp >= 1;
    let pos = t * bpp_u;
    let mut run: usize = 1;
    loop
        invariant
            bpp == bpp_u,
            1 <= bpp <= 4,
            len == data@.len(),
            npix * bpp == len,
            t < npix,
            pos == t * bpp,
            1 <= run <= 128,
            t + run <= npix,
            forall|s: int| 0 <= s < run ==> #[trigger] pixel(data@, t + s, bpp) == pixel(data@, t as int, bpp),
            run_from(data@, bpp, npix as int, t as int, run as int) == run_from(data@, bpp, npix as int, t as int, 1),
        ensures
            1 <= run <= 128,
            t + run <= npix,
            forall|s: int| 0 <= s < run ==> #[trigger] pixel(data@, t + s, bpp) == pixel(data@, t as int, bpp),
            run_from(data@, bpp, npix as int, t as int, 1) == run,
        decreases 128 - run,
    {
        if t + run >= npix || run >= 128 {
            assert(run_from(data@, bpp, npix as int, t as int, run as int) == run);
            break;
        }
        assert((t + run + 1) * bpp <= npix * bpp && (t + run) * bpp == pos + run * bpp && run * bpp <= 512
            && (t + run + 1) * bpp == pos + run * bpp + bpp && pos + bpp <= len) by (nonlinear_arith)
            requires t + run < npix, 1 <= bpp <= 4, pos == t * bpp, run <= 128, npix * bpp == len;
        let q = pos + run * bpp_u;
        assert(pixel(data@, (t + run) as int, bpp) == data@.subrange(q as int, q + bpp));
        if !same_pixel(data, pos, q, bpp_u) {
            assert(run_from(data@, bpp, npix as int, t as int, run as int) == run);
            break;
        }
        assert(pixel(data@, (t + run) as int, bpp) == pixel(data@, t as int, bpp));
        run = run + 1;
    }
    run
}

/// The number of pixels, at most 128, from `t` on before a pair of equal
/// neighbours starts.
fn literal_run(data: &[u8], t: usize, npix: usize, bpp_u: usize) -> (cnt: usize)
    requires
        1 <= bpp_u <= 4,
        npix * bpp_u == data@.len(),
        t < npix,
    ensures
        1 <= cnt <= 128,
        t + cnt <= npix,
        cnt == literal_from(data@, bpp_u as nat, npix as int, t as int, 1),
{
    let ghost bpp = bpp_u as nat;
    let len = data.len();
    let mut cnt: usize = 1;
    loop
        invariant
            bpp == bpp_u,
            1 <= bpp <= 4,
            len == data@.len(),
            npix * bpp == len,
            1 <= cnt <= 128,
            t + cnt <= npix,
            literal_from(data@, bpp, npix as int, t as int, cnt as int) == literal_from(data@, bpp, npix as int, t as int, 1),
        ensures
            1 <= cnt <= 128,
            t + cnt <= npix,
            literal_from(data@, bpp, npix as int, t as int, 1) == cnt,
        decreases 128 - cnt,
    {
        if t + cnt >= npix || cnt >= 128 {
            assert(literal_from(data@, bpp, npix as int, t as int, cnt as int) == cnt);
            break;
        }
        if t + cnt + 1 < npix {
            assert((t + cnt + 2) * bpp <= npix * bpp && (t + cnt) * bpp <= len
                && (t + cnt + 2) * bpp == (t + cnt) * bpp + 2 * bpp
                && (t + cnt + 1) * bpp == (t + cnt) * bpp + bpp) by (nonlinear_arith)
                requires t + cnt + 1 < npix, 1 <= bpp <= 4, npix * bpp == len;
            let a = (t + cnt) * bpp_u;
            assert(pixel(data@, (t + cnt) as int, bpp) == data@.subrange(a as int, a + bpp));
            assert(pixel(data@, (t + cnt + 1) as int, bpp) == data@.subrange(a + bpp, a + bpp + bpp));
            if same_pixel(data, a, a + bpp_u, bpp_u) {
                assert(literal_from(data@, bpp, npix as int, t as int, cnt as int) == cnt);
                break;
            }
        }
        cnt = cnt + 1;
    }
    cnt
}

/// A repeat packet extends a stream by its pixel, repeated.
proof fn lemma_push_repeat(out0: Seq<u8>, px: Seq<u8>, h: u8, bpp: nat, p0: Seq<u8>, k: nat)
    requires
        h >= 128,
        px.len() == bpp,
        rle_stream(out0, bpp) == Some((p0, k)),
    ensures
        rle_stream(out0 + (seq![h] + px), bpp) == Some((p0 + repeat(px, packet_count(h)), k + packet_count(h))),
{
    let pk = seq![h] + px;
    assert(pk[0] == h);
    assert(pk.subrange(1, 1 + bpp as int) =~= px);
    lemma_stream_push(out0, pk, bpp);
}

/// A repeat packet for a run of equal pixels extends a stream by the run.
proof fn lemma_repeat_packet_stream(out0: Seq<u8>, data: Seq<u8>, t: int, run: nat, bpp: nat)
    requires
        1 <= bpp,
        0 <= t,
        2 <= run <= 128,
        (t + run) * bpp <= data.len(),
        forall|s: int| 0 <= s < run ==> #[trigger] pixel(data, t + s, bpp) == pixel(data, t, bpp),
        rle_stream(out0, bpp) == Some((data.subrange(0, t * bpp), t as nat)),
    ensures
        rle_stream(out0 + (seq![(127 + run) as u8] + pixel(data, t, bpp)), bpp) == Some(
            (data.subrange(0, (t + run) * bpp), (t + run) as nat),
        ),
{
    let lo = t * bpp;
    let hi = (t + run) * bpp;
    assert(0 <= lo && lo + bpp <= hi) by (nonlinear_arith)
        requires 0 <= t, run >= 2, bpp >= 1, lo == t * bpp, hi == (t + run) * bpp;
    assert(repeat(pixel(data, t, bpp), run) == data.subrange(lo, hi)) by {
        lemma_run_is_repeat(data, t, run, bpp);
    }
    assert(packet_count((127 + run) as u8) == run);
    assert(pixel(data, t, bpp).len() == bpp);
    lemma_push_repeat(out0, pixel(data, t, bpp), (127 + run) as u8, bpp, data.subrange(0, lo), t as nat);
    assert(data.subrange(0, lo) + data.subrange(lo, hi) =~= data.subrange(0, hi));
}

/// Appends a repeat packet for the `run` equal pixels from `t` on.
fn push_repeat_packet(out: &mut Vec<u8>, data: &[u8], t: usize, run: usize, npix: usize, bpp_u: usize)
    requires
        1 <= bpp_u <= 4,
        npix * bpp_u == data@.len(),
        2 <= run <= 128,
        t + run <= npix,
        forall|s: int| 0 <= s < run ==> #[trigger] pixel(data@, t + s, bpp_u as nat) == pixel(data@, t as int, bpp_u as nat),
        rle_stream(old(out)@, bpp_u as nat) == Some((data@.subrange(0, t * bpp_u), t as nat)),
    ensures
        rle_stream(final(out)@, bpp_u as nat) == Some((data@.subrange(0, (t + run) * bpp_u), (t + run) as nat)),
        final(out)@ == old(out)@ + (seq![(127 + run) as u8] + pixel(data@, t as int, bpp_u as nat)),
{
    let ghost bpp = bpp_u as nat;
    let ghost out0 = out@;
    let len = data.len();
    assert((t + run) * bpp <= len && t * bpp + bpp <= (t + run) * bpp && 0 <= t * bpp) by (nonlinear_arith)
        requires t + run <= npix, npix * bpp == len, bpp >= 1, run >= 2;
    let pos = t * bpp_u;
    out.push((127 + run) as u8);
    push_bytes(out, data, pos, pos + bpp_u);
    assert(out@ =~= out0 + (seq![(127 + run) as u8] + pixel(data@, t as int, bpp)));
    proof {
        lemma_repeat_packet_stream(out0, data@, t as int, run as nat, bpp);
    }
}

/// Appends a literal packet for the `cnt` pixels from `t` on.
fn push_literal_packet(out: &mut Vec<u8>, data: &[u8], t: usize, cnt: usize, npix: usize, bpp_u: usize)
    requires
        1 <= bpp_u <= 4,
        npix * bpp_u == data@.len(),
        1 <= cnt <= 128,
        t + cnt <= npix,
        rle_stream(old(out)@, bpp_u as nat) == Some((data@.subrange(0, t * bpp_u), t as nat)),
    ensures
        rle_stream(final(out)@, bpp_u as nat) == Some((data@.subrange(0, (t + cnt) * bpp_u), (t + cnt) as nat)),
        final(out)@ == old(out)@ + (seq![(cnt - 1) as u8] + data@.subrange(t * bpp_u, (t + cnt) * bpp_u)),
{
    let ghost bpp = bpp_u as nat;
    let ghost out0 = out@;
    let len = data.len();
    assert((t + cnt) * bpp <= len && (t + cnt) * bpp == t * bpp + cnt * bpp && cnt * bpp <= 512 && 0 <= t * bpp) by (nonlinear_arith)
        requires t + cnt <= npix, npix * bpp == len, 1 <= bpp <= 4, cnt <= 128;
    let pos = t * bpp_u;
    let end = pos + cnt * bpp_u;
    out.push((cnt - 1) as u8);
    push_bytes(out, data, pos, end);
    proof {
        let pk = out@.subrange(out0.len() as int, out@.len() as int);
        assert(out@ =~= out0 + pk);
        assert(pk[0] == (cnt - 1) as u8);
        assert(pk.subrange(1, pk.len() as int) =~= data@.subrange(pos as int, end as int));
        lemma_stream_push(out0, pk, bpp);
        assert(data@.subrange(0, pos as int) + data@.subrange(pos as int, end as int) =~= data@.subrange(0, end as int));
        assert(out@ =~= out0 + (seq![(cnt - 1) as u8] + data@.subrange(pos as int, end as int)));
    }
}

/// Run-length encodes a buffer of `bytespp`-byte pixels: runs of two or
/// more equal pixels become repeat packets, the rest literal packets, each
/// packet holding at most 128 pixels.
pub fn encode_rle(data: &[u8], bytespp: u8) -> (r: Vec<u8>)
    requires
        1 <= bytespp <= 4,
        data@.len() % (bytespp as nat) == 0,
    ensures
        r@ == rle_encoding(data@, bytespp as nat, (data@.len() / (bytespp as nat)) as int, 0),
        rle_stream(r@, bytespp as nat) == Some((data@, data@.len() / (bytespp as nat))),
{
    let ghost bpp = bytespp as nat;
    let bpp_u = bytespp as usize;
    let len = data.len();
    let npix = len / bpp_u;
    proof {
        vstd::arithmetic::div_mod::lemma_fundamental_div_mod(len as int, bpp as int);
    }
    assert(npix * bpp == len) by (nonlinear_arith)
        requires len == bpp * (len as int / bpp as int) + len as int % bpp as int, len as int % bpp as int == 0, npix == len as int / bpp as int;
    let mut out: Vec<u8> = Vec::new();
    let mut t: usize = 0;
    assert(data@.subrange(0, 0) =~= seq![]);
    assert(Seq::<u8>::empty() + rle_encoding(data@, bpp, npix as int, 0) =~= rle_encoding(data@, bpp, npix as int, 0));
    while t < npix
        invariant
            bpp == bytespp as nat,
            bpp_u == bpp,
            1 <= bpp <= 4,
            len == data@.len(),
            npix * bpp == len,
            npix == len as nat / bpp,
            t <= npix,
            rle_stream(out@, bpp) == Some((data@.subrange(0, t * bpp), t as nat)),
            out@ + rle_encoding(data@, bpp, npix as int, t as int) == rle_encoding(data@, bpp, npix as int, 0),
        decreases npix - t,
    {
        let ghost out0 = out@;
        let ghost rest = rle_encoding(data@, bpp, npix as int, t as int);
        let run = repeat_run(data, t, npix, bpp_u);
        if run > 1 {
            push_repeat_packet(&mut out, data, t, run, npix, bpp_u);
            let ghost pk = seq![(127 + run) as u8] + pixel(data@, t as int, bpp);
            assert(rest == pk + rle_encoding(data@, bpp, npix as int, t + run));
            assert(out0 + (pk + rle_encoding(data@, bpp, npix as int, t + run)) =~= (out0 + pk) + rle_encoding(data@, bpp, npix as int, t + run));
            t = t + run;
        } else {
            let cnt = literal_run(data, t, npix, bpp_u);
            push_literal_packet(&mut out, data, t, cnt, npix, bpp_u);
            let ghost pk = seq![(cnt - 1) as u8] + data@.subrange(t * bpp, (t + cnt) * bpp);
            assert(rest == pk + rle_encoding(data@, bpp, npix as int, t + cnt));
            assert(out0 + (pk + rle_encoding(data@, bpp, npix as int, t + cnt)) =~= (out0 + pk) + rle_encoding(data@, bpp, npix as int, t + cnt));
            t = t + cnt;
        }
    }
    assert(data@.subrange(0, len as int) =~= data@);
    assert(out@ + Seq::<u8>::empty() =~= out@);
    out
}

} // verus!
