use vstd::prelude::*;

use crate::rle::{encode_rle, load_rle_data, push_bytes, rle_decode, rle_encoding, rle_stream};

verus! {

/// A color as blue, green, red and alpha channel bytes, with the number of
/// meaningful channels.
#[derive(Clone, Copy, Debug)]
pub struct TgaColor {
    pub bgra: [u8; 4],
    pub bytespp: u8,
}

/// An opaque color given by its red, green, blue and alpha channels.
pub fn rgba(r: u8, g: u8, b: u8, a: u8) -> (c: TgaColor)
    ensures
        c.bgra@ == seq![b, g, r, a],
        c.bytespp == 4,
{
    let c = TgaColor { bgra: [b, g, r, a], bytespp: 4 };
    assert(c.bgra@ =~= seq![b, g, r, a]);
    c
}

/// Black, as a one-channel color.
pub fn black() -> (c: TgaColor)
    ensures
        c.bgra@ == seq![0u8, 0u8, 0u8, 255u8],
        c.bytespp == 1,
{
    let c = TgaColor { bgra: [0, 0, 0, 255], bytespp: 1 };
    assert(c.bgra@ =~= seq![0u8, 0u8, 0u8, 255u8]);
    c
}


impl TgaColor {
    /// Channel-wise product with a tint, each channel scaled back to a byte:
    /// `self[i] * tint[i] / 255`. The result keeps this color's depth.
    pub fn mul(&self, tint: &TgaColor) -> (c: TgaColor)
        ensures
            c.bytespp == self.bytespp,
            forall|i: int| 0 <= i < 4 ==> #[trigger] c.bgra@[i] == modulate(self.bgra@[i], tint.bgra@[i]),
    {
        let mut out: [u8; 4] = [0, 0, 0, 0];
        let mut i: usize = 0;
        while i < 4
            invariant
                0 <= i <= 4,
                forall|j: int| 0 <= j < i ==> #[trigger] out@[j] == modulate(self.bgra@[j], tint.bgra@[j]),
            decreases 4 - i,
        {
            let a = self.bgra[i] as u32;
            let b = tint.bgra[i] as u32;
            assert(a * b <= 255 * 255) by (nonlinear_arith)
                requires a <= 255, b <= 255;
            let v = (a * b) / 255;
            assert(v <= 255) by (nonlinear_arith)
                requires v == (a * b) / 255, a * b <= 255 * 255;
            out[i] = v as u8;
            i = i + 1;
        }
        TgaColor { bgra: out, bytespp: self.bytespp }
    }
}

/// One channel of a tinted color.
pub open spec fn modulate(a: u8, b: u8) -> u8 {
    ((a as int * b as int) / 255) as u8
}

/// The fixed 18-byte record at the start of an image file. Multi-byte fields
/// are little-endian:
///
/// | offset | size | field           |
/// |--------|------|-----------------|
/// | 0      | 1    | idlength        |
/// | 1      | 1    | colormaptype    |
/// | 2      | 1    | datatypecode    |
/// | 3      | 2    | colormaporigin  |
/// | 5      | 2    | colormaplength  |
/// | 7      | 1    | colormapdepth   |
/// | 8      | 2    | x_origin        |
/// | 10     | 2    | y_origin        |
/// | 12     | 2    | width           |
/// | 14     | 2    | height          |
/// | 16     | 1    | bitsperpixel    |
/// | 17     | 1    | imagedescriptor |
#[derive(Clone, Copy, Debug, PartialEq, Eq, Structural)]
pub struct TgaHeader {
    pub idlength: u8,
    pub colormaptype: u8,
    pub datatypecode: u8,
    pub colormaporigin: i16,
    pub colormaplength: i16,
    pub colormapdepth: i8,
    pub x_origin: u16,
    pub y_origin: u16,
    pub width: u16,
    pub height: u16,
    pub bitsperpixel: u8,
    pub imagedescriptor: u8,
}

pub const HEADER_SIZE: usize = 18;

/// Bytes of the footer that closes a written file.
pub const FOOTER_SIZE: usize = 26;

/// A `u16` as two little-endian bytes.
pub open spec fn le16(v: int) -> Seq<u8> {
    seq![(v % 256) as u8, (v / 256) as u8]
}

/// The two's-complement bits of an `i16`.
pub open spec fn i16_bits(v: i16) -> int {
    if v < 0 { v + 65536 } else { v as int }
}

/// The `i16` whose bits are `u`.
pub open spec fn i16_of_bits(u: int) -> i16 {
    (if u >= 32768 { u - 65536 } else { u }) as i16
}

pub open spec fn read_u16(b: Seq<u8>, at: int) -> u16 {
    (b[at] + 256 * b[at + 1]) as u16
}

impl TgaHeader {
    /// The header's bytes, per the table above.
    pub open spec fn spec_bytes(self) -> Seq<u8> {
        seq![self.idlength, self.colormaptype, self.datatypecode]
            + le16(i16_bits(self.colormaporigin))
            + le16(i16_bits(self.colormaplength))
            + seq![(if self.colormapdepth < 0 { self.colormapdepth + 256 } else { self.colormapdepth as int }) as u8]
            + le16(self.x_origin as int)
            + le16(self.y_origin as int)
            + le16(self.width as int)
            + le16(self.height as int)
            + seq![self.bitsperpixel, self.imagedescriptor]
    }

    /// The header that the first 18 bytes of `b` hold.
    pub open spec fn spec_parse(b: Seq<u8>) -> TgaHeader {
        TgaHeader {
            idlength: b[0],
            colormaptype: b[1],
            datatypecode: b[2],
            colormaporigin: i16_of_bits(read_u16(b, 3) as int),
            colormaplength: i16_of_bits(read_u16(b, 5) as int),
            colormapdepth: (if b[7] >= 128 { b[7] - 256 } else { b[7] as int }) as i8,
            x_origin: read_u16(b, 8),
            y_origin: read_u16(b, 10),
            width: read_u16(b, 12),
            height: read_u16(b, 14),
            bitsperpixel: b[16],
            imagedescriptor: b[17],
        }
    }

    /// Serializes the header into its 18 bytes.
    pub fn to_bytes(&self) -> (r: Vec<u8>)
        ensures
            r@ == self.spec_bytes(),
            r@.len() == HEADER_SIZE,
    {
        let mut r: Vec<u8> = Vec::new();
        r.push(self.idlength);
        r.push(self.colormaptype);
        r.push(self.datatypecode);
        push_u16(&mut r, i16_to_bits(self.colormaporigin));
        push_u16(&mut r, i16_to_bits(self.colormaplength));
        r.push(if self.colormapdepth < 0 { (self.colormapdepth as i16 + 256) as u8 } else { self.colormapdepth as u8 });
        push_u16(&mut r, self.x_origin);
        push_u16(&mut r, self.y_origin);
        push_u16(&mut r, self.width);
        push_u16(&mut r, self.height);
        r.push(self.bitsperpixel);
        r.push(self.imagedescriptor);
        assert(r@ =~= self.spec_bytes());
        r
    }

    /// Reads a header from the front of `b`; `None` where `b` is shorter
    /// than a header.
    pub fn from_bytes(b: &[u8]) -> (r: Option<TgaHeader>)
        ensures
            r is Some <==> b@.len() >= HEADER_SIZE,
            r is Some ==> r->Some_0 == TgaHeader::spec_parse(b@),
    {
        if b.len() < HEADER_SIZE {
            return None;
        }
        Some(
            TgaHeader {
                idlength: b[0],
                colormaptype: b[1],
                datatypecode: b[2],
                colormaporigin: i16_from_bits(get_u16(b, 3)),
                colormaplength: i16_from_bits(get_u16(b, 5)),
                colormapdepth: if b[7] >= 128 { (b[7] as i16 - 256) as i8 } else { b[7] as i8 },
                x_origin: get_u16(b, 8),
                y_origin: get_u16(b, 10),
                width: get_u16(b, 12),
                height: get_u16(b, 14),
                bitsperpixel: b[16],
                imagedescriptor: b[17],
            },
        )
    }
}

/// Reading back the bytes of a header gives the same header.
pub proof fn lemma_header_round_trip(h: TgaHeader)
    ensures
        h.spec_bytes().len() == 18,
        TgaHeader::spec_parse(h.spec_bytes()) == h,
{
    let b = h.spec_bytes();
    assert(b.len() == 18);
    assert(b[3] == le16(i16_bits(h.colormaporigin))[0]);
    assert(b[4] == le16(i16_bits(h.colormaporigin))[1]);
    assert(b[5] == le16(i16_bits(h.colormaplength))[0]);
    assert(b[6] == le16(i16_bits(h.colormaplength))[1]);
    assert(b[8] == le16(h.x_origin as int)[0]);
    assert(b[9] == le16(h.x_origin as int)[1]);
    assert(b[10] == le16(h.y_origin as int)[0]);
    assert(b[11] == le16(h.y_origin as int)[1]);
    assert(b[12] == le16(h.width as int)[0]);
    assert(b[13] == le16(h.width as int)[1]);
    assert(b[14] == le16(h.height as int)[0]);
    assert(b[15] == le16(h.height as int)[1]);
    let p = TgaHeader::spec_parse(b);
    assert(p.idlength == h.idlength);
    assert(p.colormaptype == h.colormaptype);
    assert(p.datatypecode == h.datatypecode);
    assert(p.colormaporigin == h.colormaporigin);
    assert(p.colormaplength == h.colormaplength);
    assert(p.colormapdepth == h.colormapdepth);
    assert(p.x_origin == h.x_origin);
    assert(p.y_origin == h.y_origin);
    assert(p.width == h.width);
    assert(p.height == h.height);
    assert(p.bitsperpixel == h.bitsperpixel);
    assert(p.imagedescriptor == h.imagedescriptor);
}

fn i16_to_bits(v: i16) -> (u: u16)
    ensures
        u == i16_bits(v),
{
    if v < 0 { (v as i32 + 65536) as u16 } else { v as u16 }
}

fn i16_from_bits(u: u16) -> (v: i16)
    ensures
        v == i16_of_bits(u as int),
{
    if u >= 32768 { (u as i32 - 65536) as i16 } else { u as i16 }
}

fn push_u16(r: &mut Vec<u8>, v: u16)
    ensures
        final(r)@ == old(r)@ + le16(v as int),
{
    r.push((v % 256) as u8);
    r.push((v / 256) as u8);
    assert(r@ =~= old(r)@ + le16(v as int));
}

fn get_u16(b: &[u8], at: usize) -> (v: u16)
    requires
        at + 1 < b@.len(),
    ensures
        v == read_u16(b@, at as int),
{
    b[at] as u16 + 256 * b[at + 1] as u16
}

/// What can go wrong when reading or addressing an image.
#[derive(Clone, Copy, Debug, PartialEq, Eq, Structural)]
pub enum TgaError {
    /// A malformed header, an unsupported pixel depth or image type.
    Format,
    /// Pixel data that ends early, or runs that overrun the image.
    CorruptStream,
    /// A pixel address outside the image.
    OutOfBounds,
}

/// A grid of pixels of `bytespp` bytes each, stored row by row, top row first.
#[derive(Debug)]
pub struct TgaImage {
    buffer: Vec<u8>,
    pub width: u16,
    pub height: u16,
    bytespp: u8,
}

/// The mathematical content of an image.
pub ghost struct ImageView {
    pub width: nat,
    pub height: nat,
    pub bytespp: nat,
    pub data: Seq<u8>,
}

impl View for TgaImage {
    type V = ImageView;

    closed spec fn view(&self) -> ImageView {
        ImageView {
            width: self.width as nat,
            height: self.height as nat,
            bytespp: self.bytespp as nat,
            data: self.buffer@,
        }
    }
}

impl ImageView {
    /// The buffer holds exactly one pixel per cell, of at most four bytes.
    pub open spec fn wf(self) -> bool {
        &&& self.bytespp <= 4
        &&& self.width <= 65535
        &&& self.height <= 65535
        &&& self.data.len() == self.width * self.height * self.bytespp
    }

    pub open spec fn in_bounds(self, x: int, y: int) -> bool {
        0 <= x < self.width && 0 <= y < self.height
    }

    /// Index of the first byte of pixel (x, y).
    pub open spec fn offset(self, x: int, y: int) -> int {
        (x + y * self.width) * self.bytespp
    }

    /// Channel `i` of pixel (x, y), or 0 past the image's depth.
    pub open spec fn channel(self, x: int, y: int, i: int) -> u8 {
        if i < self.bytespp {
            self.data[self.offset(x, y) + i]
        } else {
            0
        }
    }

    /// Bytes in one row.
    pub open spec fn row_len(self) -> int {
        (self.width * self.bytespp) as int
    }

    /// Where byte `i` of the vertically flipped image comes from: the same
    /// place in the mirrored row.
    pub open spec fn vflip_src(self, i: int) -> int {
        (self.height - 1 - i / self.row_len()) * self.row_len() + i % self.row_len()
    }

    /// Where byte `i` of the horizontally flipped image comes from: the same
    /// channel of the mirrored pixel in the same row.
    pub open spec fn hflip_src(self, i: int) -> int {
        let k = i % self.row_len();
        (i / self.row_len()) * self.row_len() + (self.width - 1 - k / (self.bytespp as int)) * self.bytespp
            + k % (self.bytespp as int)
    }

    /// The image with its rows in reverse order.
    pub open spec fn flipped_v(self) -> ImageView {
        ImageView { data: Seq::new(self.data.len(), |i: int| self.data[self.vflip_src(i)]), ..self }
    }

    /// The image with each row's pixels in reverse order.
    pub open spec fn flipped_h(self) -> ImageView {
        ImageView { data: Seq::new(self.data.len(), |i: int| self.data[self.hflip_src(i)]), ..self }
    }

    /// The image after writing the first `bytespp` channels of `c` at (x, y);
    /// unchanged where (x, y) lies outside.
    pub open spec fn put(self, x: int, y: int, c: Seq<u8>) -> ImageView {
        if self.in_bounds(x, y) {
            ImageView {
                data: Seq::new(
                    self.data.len(),
                    |j: int|
                        if self.offset(x, y) <= j < self.offset(x, y) + self.bytespp {
                            c[j - self.offset(x, y)]
                        } else {
                            self.data[j]
                        },
                ),
                ..self
            }
        } else {
            self
        }
    }
}

/// A pixel's bytes lie inside the buffer.
proof fn lemma_pixel_in_range(x: int, y: int, w: int, h: int, bpp: int)
    requires
        0 <= x < w,
        0 <= y < h,
        0 <= bpp,
    ensures
        0 <= y * w <= x + y * w,
        x + y * w <= (x + y * w) * bpp || bpp == 0,
        (x + y * w) * bpp + bpp <= w * h * bpp,
{
    assert(0 <= y * w) by (nonlinear_arith)
        requires 0 <= y, 0 <= w;
    assert(x + y * w + 1 <= w * h) by (nonlinear_arith)
        requires 0 <= x < w, 0 <= y < h;
    assert((x + y * w) * bpp + bpp <= w * h * bpp) by (nonlinear_arith)
        requires x + y * w + 1 <= w * h, 0 <= bpp;
    assert(x + y * w <= (x + y * w) * bpp || bpp == 0) by (nonlinear_arith)
        requires 0 <= x + y * w, 0 <= bpp;
}

/// Byte `i` of a `h`-row image with rows of `rl` bytes lies in row `i / rl`.
pub(crate) proof fn lemma_row_split(i: int, rl: int, h: int)
    requires
        0 <= i < h * rl,
        rl > 0,
    ensures
        0 <= i / rl < h,
        0 <= i % rl < rl,
        i == (i / rl) * rl + i % rl,
{
    vstd::arithmetic::div_mod::lemma_fundamental_div_mod(i, rl);
    assert(i == (i / rl) * rl + i % rl) by (nonlinear_arith)
        requires i == rl * (i / rl) + i % rl;
    assert(0 <= i / rl < h) by (nonlinear_arith)
        requires 0 <= i < h * rl, rl > 0, i == (i / rl) * rl + i % rl, 0 <= i % rl < rl;
}

/// Byte `k` of row `row` in a `h`-row image, written back as one index.
proof fn lemma_row_join(row: int, k: int, rl: int, h: int)
    requires
        0 <= row < h,
        0 <= k < rl,
    ensures
        0 <= row * rl + k < h * rl,
        (row * rl + k) / rl == row,
        (row * rl + k) % rl == k,
{
    assert(0 <= row * rl + k < h * rl) by (nonlinear_arith)
        requires 0 <= row < h, 0 <= k < rl;
    vstd::arithmetic::div_mod::lemma_fundamental_div_mod_converse(row * rl + k, rl, row, k);
}

/// The source of a vertically flipped byte lies in the image.
proof fn lemma_vflip_src(v: ImageView, i: int)
    requires
        v.wf(),
        0 <= i < v.data.len(),
    ensures
        0 <= v.vflip_src(i) < v.data.len(),
        v.vflip_src(v.vflip_src(i)) == i,
{
    let rl = v.row_len();
    let h = v.height as int;
    assert(v.data.len() == h * rl) by (nonlinear_arith)
        requires v.data.len() == v.width * v.height * v.bytespp, rl == v.width * v.bytespp, h == v.height;
    assert(rl > 0) by (nonlinear_arith)
        requires 0 <= i < h * rl, h >= 0;
    lemma_row_split(i, rl, h);
    let row = i / rl;
    let k = i % rl;
    lemma_row_join(h - 1 - row, k, rl, h);
    lemma_row_join(row, k, rl, h);
}

/// Where byte `k` of a row of `w` pixels of `bpp` bytes lies.
proof fn lemma_pixel_split(k: int, w: int, bpp: int)
    requires
        0 <= k < w * bpp,
        bpp > 0,
    ensures
        0 <= k / bpp < w,
        0 <= k % bpp < bpp,
        0 <= (w - 1 - k / bpp) * bpp + k % bpp < w * bpp,
        ((w - 1 - k / bpp) * bpp + k % bpp) / bpp == w - 1 - k / bpp,
        ((w - 1 - k / bpp) * bpp + k % bpp) % bpp == k % bpp,
        k == (k / bpp) * bpp + k % bpp,
{
    lemma_row_split(k, bpp, w);
    lemma_row_join(w - 1 - k / bpp, k % bpp, bpp, w);
}

/// The source of a horizontally flipped byte lies in the image.
proof fn lemma_hflip_src(v: ImageView, i: int)
    requires
        v.wf(),
        0 <= i < v.data.len(),
    ensures
        0 <= v.hflip_src(i) < v.data.len(),
        v.hflip_src(v.hflip_src(i)) == i,
{
    let rl = v.row_len();
    let h = v.height as int;
    let w = v.width as int;
    let bpp = v.bytespp as int;
    assert(v.data.len() == h * rl) by (nonlinear_arith)
        requires v.data.len() == v.width * v.height * v.bytespp, rl == v.width * v.bytespp, h == v.height;
    assert(rl > 0 && bpp > 0) by (nonlinear_arith)
        requires 0 <= i < h * rl, h >= 0, rl == w * bpp, w >= 0, bpp >= 0;
    lemma_row_split(i, rl, h);
    let row = i / rl;
    let k = i % rl;
    lemma_pixel_split(k, w, bpp);
    let k2 = (w - 1 - k / bpp) * bpp + k % bpp;
    lemma_row_join(row, k2, rl, h);
    lemma_pixel_split(k2, w, bpp);
    assert(v.hflip_src(i) == row * rl + k2);
}

/// Flipping an image vertically twice gives it back.
pub proof fn lemma_flip_vertically_involution(v: ImageView)
    requires
        v.wf(),
    ensures
        v.flipped_v().flipped_v() == v,
{
    let f = v.flipped_v();
    assert forall|i: int| 0 <= i < v.data.len() implies #[trigger] f.flipped_v().data[i] == v.data[i] by {
        lemma_vflip_src(v, i);
    }
    assert(f.flipped_v().data =~= v.data);
}

/// Flipping an image horizontally twice gives it back.
pub proof fn lemma_flip_horizontally_involution(v: ImageView)
    requires
        v.wf(),
    ensures
        v.flipped_h().flipped_h() == v,
{
    let f = v.flipped_h();
    assert forall|i: int| 0 <= i < v.data.len() implies #[trigger] f.flipped_h().data[i] == v.data[i] by {
        lemma_hflip_src(v, i);
    }
    assert(f.flipped_h().data =~= v.data);
}

/// The bytes that close every written file: two zero area pointers, then
/// the signature "TRUEVISION-XFILE." and a zero byte.
pub open spec fn footer_bytes() -> Seq<u8> {
    seq![0u8, 0u8, 0u8, 0u8, 0u8, 0u8, 0u8, 0u8,
        84u8, 82u8, 85u8, 69u8, 86u8, 73u8, 83u8, 73u8, 79u8, 78u8, 45u8,
        88u8, 70u8, 73u8, 76u8, 69u8, 46u8, 0u8]
}

fn footer() -> (r: Vec<u8>)
    ensures
        r@ == footer_bytes(),
{
    let r: Vec<u8> = vec![0, 0, 0, 0, 0, 0, 0, 0,
        84, 82, 85, 69, 86, 73, 83, 73, 79, 78, 45,
        88, 70, 73, 76, 69, 46, 0];
    assert(r@ =~= footer_bytes());
    r
}

/// The header written for an image: its own size and depth, the image type
/// that `rle` and a one-byte depth select, and top-left origin.
pub open spec fn header_for(v: ImageView, rle: bool) -> TgaHeader {
    TgaHeader {
        idlength: 0,
        colormaptype: 0,
        datatypecode: if v.bytespp == 1 {
            if rle { 11 } else { 3 }
        } else {
            if rle { 10 } else { 2 }
        },
        colormaporigin: 0,
        colormaplength: 0,
        colormapdepth: 0,
        x_origin: 0,
        y_origin: 0,
        width: v.width as u16,
        height: v.height as u16,
        bitsperpixel: (v.bytespp * 8) as u8,
        imagedescriptor: 0x20,
    }
}

/// `b` is a file for image `v`: the header, the pixel data, raw or as the
/// run-length packets of `rle_encoding` (a stream that decodes to exactly
/// the pixels), then the footer.
pub open spec fn is_encoding(v: ImageView, rle: bool, b: Seq<u8>) -> bool {
    let body = b.subrange(HEADER_SIZE as int, b.len() - FOOTER_SIZE);
    &&& b.len() >= HEADER_SIZE + FOOTER_SIZE
    &&& b.subrange(0, HEADER_SIZE as int) == header_for(v, rle).spec_bytes()
    &&& b.subrange(b.len() - FOOTER_SIZE, b.len() as int) == footer_bytes()
    &&& if rle {
        &&& body == rle_encoding(v.data, v.bytespp, (v.width * v.height) as int, 0)
        &&& rle_stream(body, v.bytespp) == Some((v.data, v.width * v.height))
    } else {
        body == v.data
    }
}

/// The image that the bytes of a file hold, or why they hold none.
pub open spec fn decode_spec(b: Seq<u8>) -> Result<ImageView, TgaError> {
    if b.len() < HEADER_SIZE {
        Err(TgaError::Format)
    } else {
        let h = TgaHeader::spec_parse(b);
        let bpp = (h.bitsperpixel / 8) as nat;
        let npix = h.width as nat * h.height as nat;
        let body = b.skip(HEADER_SIZE as int);
        if h.width == 0 || h.height == 0 || !(bpp == 1 || bpp == 3 || bpp == 4) {
            Err(TgaError::Format)
        } else {
            let pixels: Result<Seq<u8>, TgaError> = if h.datatypecode == 2 || h.datatypecode == 3 {
                if body.len() >= npix * bpp {
                    Ok(body.subrange(0, (npix * bpp) as int))
                } else {
                    Err(TgaError::CorruptStream)
                }
            } else if h.datatypecode == 10 || h.datatypecode == 11 {
                match rle_decode(body, bpp, npix) {
                    Some(p) => Ok(p),
                    None => Err(TgaError::CorruptStream),
                }
            } else {
                Err(TgaError::Format)
            };
            match pixels {
                Ok(p) => {
                    let v = ImageView { width: h.width as nat, height: h.height as nat, bytespp: bpp, data: p };
                    let v1 = if h.imagedescriptor & 0x20 == 0 { v.flipped_v() } else { v };
                    Ok(if h.imagedescriptor & 0x10 != 0 { v1.flipped_h() } else { v1 })
                },
                Err(e) => Err(e),
            }
        }
    }
}

/// Decoding a file written for an image gives back that image.
pub proof fn lemma_encode_decode(v: ImageView, rle: bool, b: Seq<u8>)
    requires
        v.wf(),
        v.width > 0,
        v.height > 0,
        v.bytespp == 1 || v.bytespp == 3 || v.bytespp == 4,
        is_encoding(v, rle, b),
    ensures
        decode_spec(b) == Ok::<ImageView, TgaError>(v),
{
    let hdr = header_for(v, rle);
    lemma_header_round_trip(hdr);
    let b0 = b.subrange(0, HEADER_SIZE as int);
    assert forall|i: int| 0 <= i < 18 implies #[trigger] b[i] == b0[i] by {}
    assert(TgaHeader::spec_parse(b) == TgaHeader::spec_parse(b0));
    let h = TgaHeader::spec_parse(b);
    assert(h == hdr);
    assert((v.bytespp * 8) as u8 / 8 == v.bytespp);
    let npix = v.width * v.height;
    let body = b.skip(HEADER_SIZE as int);
    let mid = b.subrange(HEADER_SIZE as int, b.len() - FOOTER_SIZE);
    let tail = b.subrange(b.len() - FOOTER_SIZE, b.len() as int);
    assert(body =~= mid + tail);
    assert(v.data.len() == npix * v.bytespp);
    if rle {
        crate::rle::lemma_stream_then_decode(mid, tail, v.bytespp, 0);
        assert(v.data + Seq::<u8>::empty() =~= v.data);
    } else {
        assert(body.subrange(0, (npix * v.bytespp) as int) =~= v.data);
    }
    assert(0x20u8 & 0x20u8 != 0) by (bit_vector);
    assert(0x20u8 & 0x10u8 == 0) by (bit_vector);
}

impl TgaImage {
    /// The image with no pixels.
    pub fn empty() -> (img: TgaImage)
        ensures
            img@.wf(),
            img@.width == 0,
            img@.height == 0,
            img@.bytespp == 0,
    {
        TgaImage { buffer: Vec::new(), width: 0, height: 0, bytespp: 0 }
    }

    /// A zero-filled image.
    pub fn new(width: u16, height: u16, bytespp: u8) -> (img: TgaImage)
        requires
            bytespp == 1 || bytespp == 3 || bytespp == 4,
            width * height * bytespp <= usize::MAX,
        ensures
            img@.wf(),
            img@.width == width,
            img@.height == height,
            img@.bytespp == bytespp,
            img@.data == Seq::new(img@.data.len(), |i: int| 0u8),
    {
        assert(width * height <= width * height * bytespp) by (nonlinear_arith)
            requires bytespp >= 1, width >= 0, height >= 0;
        let size: usize = width as usize * height as usize * bytespp as usize;
        let buffer: Vec<u8> = vec![0u8; size];
        let img = TgaImage { buffer, width, height, bytespp };
        assert(img@.data =~= Seq::new(img@.data.len(), |i: int| 0u8));
        img
    }

    /// Width in pixels.
    pub fn get_width(&self) -> (r: u16)
        ensures
            r == self@.width,
    {
        self.width
    }

    /// Height in pixels.
    pub fn get_height(&self) -> (r: u16)
        ensures
            r == self@.height,
    {
        self.height
    }

    /// Bytes per pixel.
    pub fn bytespp(&self) -> (r: u8)
        ensures
            r == self@.bytespp,
    {
        self.bytespp
    }

    /// The pixel at (x, y), which must lie in the image; channels past the
    /// image's depth read as 0.
    pub fn get(&self, x: u16, y: u16) -> (c: TgaColor)
        requires
            self@.wf(),
            self@.in_bounds(x as int, y as int),
        ensures
            c.bytespp == self@.bytespp,
            forall|i: int| 0 <= i < 4 ==> #[trigger] c.bgra@[i] == self@.channel(x as int, y as int, i),
    {
        let ghost v = self@;
        if self.bytespp == 0 {
            return TgaColor { bgra: [0, 0, 0, 0], bytespp: 0 };
        }
        let len = self.buffer.len();
        proof {
            lemma_pixel_in_range(x as int, y as int, v.width as int, v.height as int, v.bytespp as int);
        }
        let offset: usize = (x as usize + y as usize * self.width as usize) * self.bytespp as usize;
        let b = self.buffer[offset];
        let g = if self.bytespp > 1 { self.buffer[offset + 1] } else { 0 };
        let r = if self.bytespp > 2 { self.buffer[offset + 2] } else { 0 };
        let a = if self.bytespp > 3 { self.buffer[offset + 3] } else { 0 };
        TgaColor { bgra: [b, g, r, a], bytespp: self.bytespp }
    }

    /// Writes the first `bytespp` channels of `color` at (x, y).
    pub fn set(&mut self, x: u16, y: u16, color: TgaColor) -> (r: Result<(), TgaError>)
        requires
            old(self)@.wf(),
        ensures
            final(self)@ == old(self)@.put(x as int, y as int, color.bgra@),
            final(self)@.wf(),
            r is Ok <==> old(self)@.in_bounds(x as int, y as int),
            r is Err ==> r == Err::<(), TgaError>(TgaError::OutOfBounds),
    {
        let ghost v = self@;
        if x >= self.width || y >= self.height {
            return Err(TgaError::OutOfBounds);
        }
        if self.bytespp == 0 {
            assert(self@.data =~= v.put(x as int, y as int, color.bgra@).data);
            return Ok(());
        }
        let len = self.buffer.len();
        proof {
            lemma_pixel_in_range(x as int, y as int, v.width as int, v.height as int, v.bytespp as int);
        }
        let offset: usize = (x as usize + y as usize * self.width as usize) * self.bytespp as usize;
        let mut i: usize = 0;
        while i < self.bytespp as usize
            invariant
                v.wf(),
                v.in_bounds(x as int, y as int),
                offset == v.offset(x as int, y as int),
                offset + v.bytespp <= v.data.len(),
                len == v.data.len(),
                i <= v.bytespp,
                v.bytespp <= 4,
                self.width == v.width,
                self.height == v.height,
                self.bytespp == v.bytespp,
                self.buffer@.len() == v.data.len(),
                forall|j: int| 0 <= j < v.data.len() ==> #[trigger] self.buffer@[j] == (
                    if offset <= j < offset + i { color.bgra@[j - offset] } else { v.data[j] }),
            decreases v.bytespp - i,
        {
            self.buffer.set(offset + i, color.bgra[i]);
            i = i + 1;
        }
        assert(self@.data =~= v.put(x as int, y as int, color.bgra@).data);
        Ok(())
    }

    /// Reverses the order of the rows.
    pub fn flip_vertically(&mut self)
        requires
            old(self)@.wf(),
        ensures
            final(self)@ == old(self)@.flipped_v(),
    {
        let ghost v = self@;
        let len = self.buffer.len();
        assert(self.width as int * self.bytespp as int <= 65535 * 4) by (nonlinear_arith)
            requires self.width <= 65535, self.bytespp <= 4;
        let rl: usize = self.width as usize * self.bytespp as usize;
        let h = self.height as usize;
        let mut out: Vec<u8> = Vec::new();
        let mut i: usize = 0;
        while i < len
            invariant
                v == self@,
                v.wf(),
                len == v.data.len(),
                rl == v.row_len(),
                h == v.height,
                i <= len,
                out@.len() == i,
                forall|j: int| 0 <= j < i ==> #[trigger] out@[j] == v.data[v.vflip_src(j)],
            decreases len - i,
        {
            proof {
                lemma_vflip_src(v, i as int);
                assert(len == h * rl) by (nonlinear_arith)
                    requires len == v.width * v.height * v.bytespp, rl == v.width * v.bytespp, h == v.height;
                assert(rl > 0) by (nonlinear_arith)
                    requires i < h * rl, h >= 0;
                lemma_row_split(i as int, rl as int, h as int);
            }
            let src = (h - 1 - i / rl) * rl + i % rl;
            out.push(self.buffer[src]);
            i = i + 1;
        }
        self.buffer = out;
        assert(self@.data =~= v.flipped_v().data);
    }

    /// Reverses the order of the pixels in each row.
    pub fn flip_horizontally(&mut self)
        requires
            old(self)@.wf(),
        ensures
            final(self)@ == old(self)@.flipped_h(),
    {
        let ghost v = self@;
        let len = self.buffer.len();
        let bpp = self.bytespp as usize;
        let w = self.width as usize;
        assert(w * bpp <= 65535 * 4) by (nonlinear_arith)
            requires w <= 65535, bpp <= 4;
        let rl: usize = w * bpp;
        let h = self.height as usize;
        let mut out: Vec<u8> = Vec::new();
        let mut i: usize = 0;
        while i < len
            invariant
                v == self@,
                v.wf(),
                len == v.data.len(),
                rl == v.row_len(),
                h == v.height,
                w == v.width,
                bpp == v.bytespp,
                i <= len,
                out@.len() == i,
                forall|j: int| 0 <= j < i ==> #[trigger] out@[j] == v.data[v.hflip_src(j)],
            decreases len - i,
        {
            proof {
                lemma_hflip_src(v, i as int);
                assert(len == h * rl) by (nonlinear_arith)
                    requires len == v.width * v.height * v.bytespp, rl == v.width * v.bytespp, h == v.height;
                assert(rl > 0 && bpp > 0) by (nonlinear_arith)
                    requires i < h * rl, h >= 0, rl == w * bpp;
                lemma_row_split(i as int, rl as int, h as int);
                lemma_pixel_split((i % rl) as int, w as int, bpp as int);
                lemma_row_join((i / rl) as int, (w - 1 - (i % rl) / bpp) * bpp + (i % rl) % bpp, rl as int, h as int);
            }
            let k = i % rl;
            let src = (i / rl) * rl + (w - 1 - k / bpp) * bpp + k % bpp;
            out.push(self.buffer[src]);
            i = i + 1;
        }
        self.buffer = out;
        assert(self@.data =~= v.flipped_h().data);
    }

    /// Reads an image from the bytes of a file: the header, then raw or
    /// run-length pixel data, turned to top-left origin and left-to-right
    /// order where the header says otherwise.
    pub fn decode(data: &[u8]) -> (r: Result<TgaImage, TgaError>)
        ensures
            r is Ok <==> decode_spec(data@) is Ok,
            r is Ok ==> r->Ok_0@ == decode_spec(data@)->Ok_0 && r->Ok_0@.wf(),
            r is Err ==> r->Err_0 == decode_spec(data@)->Err_0,
    {
        let header = match TgaHeader::from_bytes(data) {
            Some(h) => h,
            None => {
                return Err(TgaError::Format);
            },
        };
        let width = header.width;
        let height = header.height;
        let bytespp = header.bitsperpixel / 8;
        if width == 0 || height == 0 || !(bytespp == 1 || bytespp == 3 || bytespp == 4) {
            return Err(TgaError::Format);
        }
        let body = vstd::slice::slice_subrange(data, HEADER_SIZE, data.len());
        assert(body@ =~= data@.skip(HEADER_SIZE as int));
        assert(width as int * height as int <= 65535 * 65535 && width as int * height as int * bytespp as int <= 65535 * 65535 * 4) by (nonlinear_arith)
            requires width <= 65535, height <= 65535, bytespp <= 4;
        let size: u64 = width as u64 * height as u64 * bytespp as u64;
        let buffer: Vec<u8> = if header.datatypecode == 2 || header.datatypecode == 3 {
            if (body.len() as u64) < size {
                return Err(TgaError::CorruptStream);
            }
            let mut out: Vec<u8> = Vec::new();
            push_bytes(&mut out, body, 0, size as usize);
            out
        } else if header.datatypecode == 10 || header.datatypecode == 11 {
            match load_rle_data(body, width, height, bytespp) {
                Ok(b) => {
                    proof {
                        crate::rle::lemma_decode_len(body@, bytespp as nat, width as nat * height as nat);
                    }
                    b
                },
                Err(e) => {
                    return Err(e);
                },
            }
        } else {
            return Err(TgaError::Format);
        };
        assert(buffer@.len() == width as int * height as int * bytespp as int);
        let mut image = TgaImage { buffer, width, height, bytespp };
        if header.imagedescriptor & 0x20 == 0 {
            image.flip_vertically();
        }
        if header.imagedescriptor & 0x10 != 0 {
            image.flip_horizontally();
        }
        Ok(image)
    }

    /// The bytes of a file holding this image: the header, the pixels raw or
    /// run-length coded, and the footer.
    pub fn encode(&self, rle: bool) -> (r: Vec<u8>)
        requires
            self@.wf(),
            self@.bytespp == 1 || self@.bytespp == 3 || self@.bytespp == 4,
        ensures
            is_encoding(self@, rle, r@),
    {
        let ghost v = self@;
        let datatypecode: u8 = if self.bytespp == 1 {
            if rle { 11 } else { 3 }
        } else {
            if rle { 10 } else { 2 }
        };
        let header = TgaHeader {
            idlength: 0,
            colormaptype: 0,
            datatypecode,
            colormaporigin: 0,
            colormaplength: 0,
            colormapdepth: 0,
            x_origin: 0,
            y_origin: 0,
            width: self.width,
            height: self.height,
            bitsperpixel: self.bytespp * 8,
            imagedescriptor: 0x20,
        };
        let mut out = header.to_bytes();
        let ghost hb = out@;
        let body: Vec<u8> = if rle {
            self.unload_rle_data()
        } else {
            let mut b: Vec<u8> = Vec::new();
            push_bytes(&mut b, self.buffer.as_slice(), 0, self.buffer.len());
            assert(b@ =~= self.buffer@);
            b
        };
        let mut k: usize = 0;
        let ghost out0 = out@;
        while k < body.len()
            invariant
                k <= body@.len(),
                out@ == out0 + body@.subrange(0, k as int),
            decreases body@.len() - k,
        {
            out.push(body[k]);
            k = k + 1;
            assert(out@ =~= out0 + body@.subrange(0, k as int));
        }
        let ghost out1 = out@;
        let f = footer();
        let mut j: usize = 0;
        while j < f.len()
            invariant
                j <= f@.len(),
                out@ == out1 + f@.subrange(0, j as int),
            decreases f@.len() - j,
        {
            out.push(f[j]);
            j = j + 1;
            assert(out@ =~= out1 + f@.subrange(0, j as int));
        }
        assert(body@.subrange(0, body@.len() as int) =~= body@);
        assert(f@.subrange(0, FOOTER_SIZE as int) =~= f@);
        assert(out@.subrange(0, HEADER_SIZE as int) =~= hb);
        assert(out@.subrange(HEADER_SIZE as int, out@.len() - FOOTER_SIZE) =~= body@);
        assert(out@.subrange(out@.len() - FOOTER_SIZE, out@.len() as int) =~= footer_bytes());
        out
    }

    /// The pixel data as a run-length stream.
    pub fn unload_rle_data(&self) -> (r: Vec<u8>)
        requires
            self@.wf(),
            1 <= self@.bytespp,
        ensures
            r@ == rle_encoding(self@.data, self@.bytespp, (self@.width * self@.height) as int, 0),
            rle_stream(r@, self@.bytespp) == Some((self@.data, self@.width * self@.height)),
    {
        let ghost v = self@;
        assert(v.data.len() % v.bytespp == 0 && v.data.len() / v.bytespp == v.width * v.height) by {
            assert(v.data.len() == (v.width * v.height) * v.bytespp) by (nonlinear_arith)
                requires v.data.len() == v.width * v.height * v.bytespp;
            vstd::arithmetic::div_mod::lemma_fundamental_div_mod_converse(
                v.data.len() as int, v.bytespp as int, (v.width * v.height) as int, 0);
        }
        encode_rle(self.buffer.as_slice(), self.bytespp)
    }

    /// Sets every byte of the image to zero.
    pub fn clear(&mut self)
        requires
            old(self)@.wf(),
        ensures
            final(self)@ == (ImageView { data: Seq::new(old(self)@.data.len(), |i: int| 0u8), ..old(self)@ }),
    {
        let ghost v = self@;
        let mut i: usize = 0;
        while i < self.buffer.len()
            invariant
                self.width == v.width,
                self.height == v.height,
                self.bytespp == v.bytespp,
                self.buffer@.len() == v.data.len(),
                forall|j: int| 0 <= j < i ==> #[trigger] self.buffer@[j] == 0u8,
            decreases self.buffer@.len() - i,
        {
            self.buffer.set(i, 0);
            i = i + 1;
        }
        assert(self@.data =~= Seq::new(v.data.len(), |i: int| 0u8));
    }
}

} // verus!
