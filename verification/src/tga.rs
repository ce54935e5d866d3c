//! Pixel formats and the framebuffer.

use crate::rle::{
    append_range, bytes_equal, is_repeat_packet, lemma_rle_round_trip, packet_cap, packet_header,
    packet_len, packet_payload, pixel_count, raw_more, repeat_more, repeats, rle_decode,
    rle_encode, rle_from, MAX_CHUNK_LENGTH,
};
use vstd::arithmetic::div_mod::{lemma_div_by_multiple, lemma_mod_multiples_basic};
use vstd::prelude::*;

verus! {

/// A fixed-width pixel format.
pub trait ColorSpace: Sized {
    /// The serialized form of a pixel, in file order.
    spec fn bytes(&self) -> Seq<u8>;

    /// The format's zero value.
    spec fn spec_new() -> Self;

    /// Bytes per pixel.
    const BPP: u8;

    /// A pixel is between one and four bytes wide.
    proof fn bpp_bounds()
        ensures
            1 <= Self::BPP <= 4,
    ;

    /// Every pixel serializes to exactly `BPP` bytes.
    proof fn bytes_len(&self)
        ensures
            self.bytes().len() == Self::BPP,
    ;

    /// The format's zero value.
    fn new() -> (c: Self)
        ensures
            c == Self::spec_new(),
    ;

    /// Appends the pixel's serialized form to `out`.
    fn write_bytes(&self, out: &mut Vec<u8>)
        ensures
            final(out)@ == old(out)@ + self.bytes(),
    ;
}

/// One byte of intensity.
#[derive(Copy, Clone, Debug, PartialEq, Eq, Structural)]
pub struct Grayscale {
    pub i: u8,
}

/// Three bytes, stored blue, green, red.
#[derive(Copy, Clone, Debug, PartialEq, Eq, Structural)]
pub struct RGB {
    pub b: u8,
    pub g: u8,
    pub r: u8,
}

/// Four bytes, stored blue, green, red, alpha.
#[derive(Copy, Clone, Debug, PartialEq, Eq, Structural)]
pub struct RGBA {
    pub b: u8,
    pub g: u8,
    pub r: u8,
    pub a: u8,
}

impl ColorSpace for Grayscale {
    open spec fn bytes(&self) -> Seq<u8> {
        seq![self.i]
    }

    open spec fn spec_new() -> Self {
        Grayscale { i: 0 }
    }

    const BPP: u8 = 1;

    proof fn bpp_bounds() {
    }

    proof fn bytes_len(&self) {
    }

    fn new() -> (c: Self) {
        Grayscale { i: 0 }
    }

    fn write_bytes(&self, out: &mut Vec<u8>) {
        out.push(self.i);
    }
}

impl ColorSpace for RGB {
    open spec fn bytes(&self) -> Seq<u8> {
        seq![self.b, self.g, self.r]
    }

    open spec fn spec_new() -> Self {
        RGB { b: 0, g: 0, r: 0 }
    }

    const BPP: u8 = 3;

    proof fn bpp_bounds() {
    }

    proof fn bytes_len(&self) {
    }

    fn new() -> (c: Self) {
        RGB { r: 0, g: 0, b: 0 }
    }

    fn write_bytes(&self, out: &mut Vec<u8>) {
        out.push(self.b);
        out.push(self.g);
        out.push(self.r);
    }
}

impl ColorSpace for RGBA {
    open spec fn bytes(&self) -> Seq<u8> {
        seq![self.b, self.g, self.r, self.a]
    }

    open spec fn spec_new() -> Self {
        RGBA { b: 0, g: 0, r: 0, a: 0 }
    }

    const BPP: u8 = 4;

    proof fn bpp_bounds() {
    }

    proof fn bytes_len(&self) {
    }

    fn new() -> (c: Self) {
        RGBA { r: 0, g: 0, b: 0, a: 0 }
    }

    fn write_bytes(&self, out: &mut Vec<u8>) {
        out.push(self.b);
        out.push(self.g);
        out.push(self.r);
        out.push(self.a);
    }
}

/// The signature that ends every file.
pub const FOOTER: [u8; 18] = [
    84, 82, 85, 69, 86, 73, 83, 73, 79, 78, 45, 88, 70, 73, 76, 69, 46, 0,
];

/// The reference to a developer area, which the files never have.
pub const DEVELOPER_AREA_REF: [u8; 4] = [0, 0, 0, 0];

/// The reference to an extension area, which the files never have.
pub const EXTENSION_AREA_REF: [u8; 4] = [0, 0, 0, 0];

/// The low byte of a 16-bit header field.
pub open spec fn low_byte(v: nat) -> u8 {
    (v % 256) as u8
}

/// The high byte of a 16-bit header field. A value that needs more than 16
/// bits is stored by its low 16 bits.
pub open spec fn high_byte(v: nat) -> u8 {
    (v / 256 % 256) as u8
}

/// Storing the low 16 bits of a value stores the two bytes that the header
/// holds for it.
proof fn lemma_truncated_field(v: nat)
    ensures
        low_byte(v % 0x10000) == low_byte(v),
        high_byte(v % 0x10000) == high_byte(v),
{
}

/// The data-type code: 3 for grayscale and 2 for true color, or 11 and 10
/// when the payload is run-length encoded. One-byte pixels are grayscale.
pub open spec fn data_type_code(bpp: nat, rle: bool) -> u8 {
    if bpp == 1 {
        if rle {
            11
        } else {
            3
        }
    } else {
        if rle {
            10
        } else {
            2
        }
    }
}

/// The image-descriptor byte: 0x20 marks the first stored row as the top
/// row; a vertically flipped image clears it.
pub open spec fn image_descriptor(vflip: bool) -> u8 {
    if vflip {
        0x00
    } else {
        0x20
    }
}

/// The 18 bytes of the file header: no image id, no color map, the
/// data-type code, an empty color-map specification, origin (0, 0), width,
/// height, bits per pixel and the image descriptor.
pub open spec fn header_bytes(width: nat, height: nat, bpp: nat, vflip: bool, rle: bool) -> Seq<
    u8,
> {
    seq![
        0u8,
        0u8,
        data_type_code(bpp, rle),
        0u8,
        0u8,
        0u8,
        0u8,
        0u8,
        0u8,
        0u8,
        0u8,
        0u8,
        low_byte(width),
        high_byte(width),
        low_byte(height),
        high_byte(height),
        (bpp * 8) as u8,
        image_descriptor(vflip),
    ]
}

/// The whole file for an image of the given size whose pixel data is
/// `data`: header, payload (raw or run-length encoded), the two area
/// references and the footer signature.
pub open spec fn file_bytes(
    width: nat,
    height: nat,
    bpp: nat,
    data: Seq<u8>,
    vflip: bool,
    rle: bool,
) -> Seq<u8> {
    header_bytes(width, height, bpp, vflip, rle) + (if rle {
        rle_encode(data, bpp)
    } else {
        data
    }) + DEVELOPER_AREA_REF@ + EXTENSION_AREA_REF@ + FOOTER@
}

/// The fields of the file header, in file order.
struct Header {
    idlength: u8,
    colormaptype: u8,
    datatypecode: u8,
    colormaporigin: u16,
    colormaplength: u16,
    colormapdepth: u8,
    x_origin: u16,
    y_origin: u16,
    width: u16,
    height: u16,
    bitsperpixel: u8,
    imagedescriptor: u8,
}

/// Appends the two bytes of `v` to `out`, low byte first.
fn write_u16_le(out: &mut Vec<u8>, v: u16)
    ensures
        final(out)@ == old(out)@.push(low_byte(v as nat)).push(high_byte(v as nat)),
{
    out.push((v % 256) as u8);
    out.push((v / 256) as u8);
}

impl Header {
    /// The header as it stands in the file.
    spec fn bytes(&self) -> Seq<u8> {
        seq![
            self.idlength,
            self.colormaptype,
            self.datatypecode,
            low_byte(self.colormaporigin as nat),
            high_byte(self.colormaporigin as nat),
            low_byte(self.colormaplength as nat),
            high_byte(self.colormaplength as nat),
            self.colormapdepth,
            low_byte(self.x_origin as nat),
            high_byte(self.x_origin as nat),
            low_byte(self.y_origin as nat),
            high_byte(self.y_origin as nat),
            low_byte(self.width as nat),
            high_byte(self.width as nat),
            low_byte(self.height as nat),
            high_byte(self.height as nat),
            self.bitsperpixel,
            self.imagedescriptor,
        ]
    }

    /// Appends the header to `out`, field by field.
    fn write_bytes(&self, out: &mut Vec<u8>)
        ensures
            final(out)@ == old(out)@ + self.bytes(),
    {
        out.push(self.idlength);
        out.push(self.colormaptype);
        out.push(self.datatypecode);
        write_u16_le(out, self.colormaporigin);
        write_u16_le(out, self.colormaplength);
        out.push(self.colormapdepth);
        write_u16_le(out, self.x_origin);
        write_u16_le(out, self.y_origin);
        write_u16_le(out, self.width);
        write_u16_le(out, self.height);
        out.push(self.bitsperpixel);
        out.push(self.imagedescriptor);
        assert(out@ =~= old(out)@ + self.bytes());
    }
}

/// The serialized forms of `pixels`, one after the other.
pub open spec fn pixel_bytes<T: ColorSpace>(pixels: Seq<T>) -> Seq<u8>
    decreases pixels.len(),
{
    if pixels.len() == 0 {
        Seq::empty()
    } else {
        pixel_bytes(pixels.drop_last()) + pixels.last().bytes()
    }
}

/// `pixel_bytes` holds `BPP` bytes for each pixel.
pub proof fn lemma_pixel_bytes_len<T: ColorSpace>(pixels: Seq<T>)
    ensures
        pixel_bytes(pixels).len() == pixels.len() * T::BPP,
    decreases pixels.len(),
{
    if pixels.len() > 0 {
        lemma_pixel_bytes_len(pixels.drop_last());
        pixels.last().bytes_len();
        assert((pixels.len() - 1) * T::BPP + T::BPP == pixels.len() * T::BPP)
            by (nonlinear_arith);
    }
}

/// Decoding the run-length encoding of an image's pixel data gives back the
/// pixel data, byte for byte.
pub proof fn lemma_pixels_round_trip<T: ColorSpace>(pixels: Seq<T>)
    ensures
        rle_decode(rle_encode(pixel_bytes(pixels), T::BPP as nat), T::BPP as nat, pixels.len())
            == pixel_bytes(pixels),
{
    T::bpp_bounds();
    lemma_pixel_bytes_len(pixels);
    lemma_div_by_multiple(pixels.len() as int, T::BPP as int);
    lemma_mod_multiples_basic(pixels.len() as int, T::BPP as int);
    lemma_rle_round_trip(pixel_bytes(pixels), T::BPP as nat);
}

/// In a `width` by `height` grid stored row by row, each cell has an index of
/// its own below `width * height`.
pub proof fn lemma_pixel_index(width: int, height: int, x1: int, y1: int, x2: int, y2: int)
    requires
        0 <= x1 < width,
        0 <= y1 < height,
        0 <= x2 < width,
        0 <= y2 < height,
    ensures
        0 <= x1 + y1 * width < width * height,
        x1 + y1 * width == x2 + y2 * width <==> x1 == x2 && y1 == y2,
{
    assert(0 <= y1 * width && y1 * width + width <= width * height) by (nonlinear_arith)
        requires
            0 <= y1 < height,
            0 < width,
    ;
    if y1 < y2 {
        assert(y1 * width + width <= y2 * width) by (nonlinear_arith)
            requires
                y1 < y2,
                0 < width,
        ;
    } else if y2 < y1 {
        assert(y2 * width + width <= y1 * width) by (nonlinear_arith)
            requires
                y2 < y1,
                0 < width,
        ;
    }
}

/// A framebuffer: `width * height` pixels of one format, row by row.
pub struct Image<T: ColorSpace> {
    width: usize,
    height: usize,
    data: Vec<T>,
}

impl<T: ColorSpace> View for Image<T> {
    type V = Seq<T>;

    /// The pixels in row-major order.
    closed spec fn view(&self) -> Seq<T> {
        self.data@
    }
}

impl<T: ColorSpace> Image<T> {
    #[verifier::type_invariant]
    spec fn inv(&self) -> bool {
        self.data.len() == self.width * self.height
    }

    /// The number of pixels in a row.
    pub closed spec fn spec_width(&self) -> nat {
        self.width as nat
    }

    /// The number of rows.
    pub closed spec fn spec_height(&self) -> nat {
        self.height as nat
    }

    /// Whether `(x, y)` names a pixel of the image.
    pub open spec fn contains(&self, x: int, y: int) -> bool {
        0 <= x < self.spec_width() && 0 <= y < self.spec_height()
    }

    /// The pixel at `(x, y)`.
    pub open spec fn pixel(&self, x: int, y: int) -> T {
        self@[x + y * self.spec_width()]
    }
}

impl<T: ColorSpace + Copy> Image<T> {
    /// A `width` by `height` image with every pixel at the format's zero
    /// value.
    pub fn new(width: usize, height: usize) -> (image: Self)
        requires
            width * height <= usize::MAX,
        ensures
            image.spec_width() == width,
            image.spec_height() == height,
            image@ == Seq::new((width * height) as nat, |i: int| T::spec_new()),
    {
        let n = width * height;
        let mut data: Vec<T> = Vec::new();
        let mut i: usize = 0;
        while i < n
            invariant
                i <= n,
                data@ == Seq::new(i as nat, |k: int| T::spec_new()),
            decreases n - i,
        {
            data.push(T::new());
            i += 1;
        }
        Image { width, height, data }
    }

    /// Overwrites the pixel at `(x, y)`, or rejects coordinates outside the
    /// image and leaves it as it was.
    pub fn set(&mut self, x: usize, y: usize, color: T) -> (r: Result<(), String>)
        ensures
            final(self).spec_width() == old(self).spec_width(),
            final(self).spec_height() == old(self).spec_height(),
            final(self)@.len() == old(self)@.len(),
            old(self).contains(x as int, y as int) ==> r is Ok && final(self)@ == old(self)@.update(
                x + y * old(self).spec_width(),
                color,
            ),
            !old(self).contains(x as int, y as int) ==> final(self)@ == old(self)@ && r is Err
                && r->Err_0@ == "Coordinates out of bounds for image"@,
            forall|i: int, j: int|
                old(self).contains(i, j) ==> #[trigger] final(self).pixel(i, j) == if i == x && j
                    == y {
                    color
                } else {
                    old(self).pixel(i, j)
                },
    {
        proof {
            use_type_invariant(&*self);
        }
        if x >= self.width || y >= self.height {
            return Err("Coordinates out of bounds for image".to_string());
        }
        assert(y * self.width + self.width <= self.width * self.height) by (nonlinear_arith)
            requires
                y < self.height,
        ;
        let idx = x + y * self.width;
        self.data[idx] = color;
        proof {
            assert forall|i: int, j: int| old(self).contains(i, j) implies #[trigger] self.pixel(
                i,
                j,
            ) == if i == x && j == y {
                color
            } else {
                old(self).pixel(i, j)
            } by {
                lemma_pixel_index(self.width as int, self.height as int, i, j, x as int, y as int);
            }
        }
        Ok(())
    }

    /// The pixel data as bytes, pixel after pixel.
    pub fn data_vec(&self) -> (bytes: Vec<u8>)
        ensures
            bytes@ == pixel_bytes(self@),
    {
        let mut bytes: Vec<u8> = Vec::new();
        let n = self.data.len();
        let mut i: usize = 0;
        while i < n
            invariant
                i <= n,
                n == self.data.len(),
                bytes@ == pixel_bytes(self.data@.take(i as int)),
            decreases n - i,
        {
            self.data[i].write_bytes(&mut bytes);
            assert(self.data@.take(i + 1).drop_last() =~= self.data@.take(i as int));
            i += 1;
        }
        assert(self.data@.take(n as int) =~= self.data@);
        bytes
    }

    /// Appends the run-length encoding of the pixel data to `out`.
    pub fn write_rle_data(&self, out: &mut Vec<u8>)
        ensures
            final(out)@ == old(out)@ + rle_encode(pixel_bytes(self@), T::BPP as nat),
    {
        let data = self.data_vec();
        let bpp = T::BPP as usize;
        let n_pixels = self.data.len();
        let ghost d = data@;
        let ghost b = bpp as nat;
        proof {
            T::bpp_bounds();
            lemma_pixel_bytes_len(self.data@);
            lemma_div_by_multiple(n_pixels as int, b as int);
        }
        let mut current_pixel: usize = 0;
        while current_pixel < n_pixels
            invariant
                current_pixel <= n_pixels,
                1 <= bpp <= 4,
                b == bpp,
                d == data@,
                d.len() == n_pixels * b,
                data.len() == n_pixels * bpp,
                pixel_count(d, b) == n_pixels,
                old(out)@ + rle_from(d, b, 0) == out@ + rle_from(d, b, current_pixel as int),
            decreases n_pixels - current_pixel,
        {
            let ghost start = current_pixel as int;
            let ghost cap = packet_cap(d, b, start);
            assert(current_pixel * bpp + bpp <= n_pixels * bpp) by (nonlinear_arith)
                requires
                    current_pixel < n_pixels,
            ;
            let chunk_start = current_pixel * bpp;
            let mut current_byte = chunk_start;
            let mut run_length: usize = 1;
            let mut raw = true;
            while current_pixel + run_length < n_pixels && run_length < MAX_CHUNK_LENGTH
                invariant_except_break
                    1 <= run_length <= cap,
                    current_byte == (current_pixel + run_length - 1) * bpp,
                    run_length == 1 ==> raw,
                    run_length >= 2 ==> raw == !repeats(d, b, start),
                    raw && run_length >= 2 ==> raw_more(d, b, start, (cap - 1) as nat) == run_length
                        - 2 + raw_more(d, b, start + run_length - 2, (cap - run_length + 1) as nat),
                    !raw ==> repeat_more(d, b, start, (cap - 1) as nat) == run_length - 1
                        + repeat_more(d, b, start + run_length - 1, (cap - run_length) as nat),
                    run_length == cap ==> run_length == packet_len(d, b, start) && raw
                        == !is_repeat_packet(d, b, start),
                invariant
                    current_pixel < n_pixels,
                    start == current_pixel,
                    cap == packet_cap(d, b, start),
                    1 <= bpp <= 4,
                    b == bpp,
                    d == data@,
                    d.len() == n_pixels * b,
                    data.len() == n_pixels * bpp,
                    pixel_count(d, b) == n_pixels,
                ensures
                    1 <= run_length <= cap,
                    run_length == packet_len(d, b, start),
                    raw == !is_repeat_packet(d, b, start),
                decreases MAX_CHUNK_LENGTH - run_length,
            {
                let ghost k = start + run_length - 1;
                assert(k * b + 2 * b <= n_pixels * b && (k + 1) * b == k * b + b)
                    by (nonlinear_arith)
                    requires
                        0 <= k,
                        k + 2 <= n_pixels,
                ;
                let succ_eq = bytes_equal(&data, current_byte, current_byte + bpp, bpp);
                assert(succ_eq == repeats(d, b, k));
                current_byte += bpp;
                if run_length == 1 {
                    raw = !succ_eq;
                }
                if raw && succ_eq {
                    run_length -= 1;
                    break;
                }
                if !raw && !succ_eq {
                    break;
                }
                run_length += 1;
                proof {
                    if run_length == cap {
                        reveal_with_fuel(raw_more, 2);
                    }
                }
            }
            current_pixel += run_length;
            assert(start * b + run_length * b == (start + run_length) * b
                && (start + run_length) * b <= n_pixels * b) by (nonlinear_arith)
                requires
                    0 <= start,
                    start + run_length <= n_pixels,
            ;
            let ghost before = out@;
            if raw {
                out.push((run_length - 1) as u8);
                append_range(out, &data, chunk_start, chunk_start + run_length * bpp);
            } else {
                out.push((run_length + 127) as u8);
                append_range(out, &data, chunk_start, chunk_start + bpp);
            }
            assert(out@ =~= before + (seq![packet_header(d, b, start)] + packet_payload(
                d,
                b,
                start,
            )));
            assert(before + rle_from(d, b, start) =~= out@ + rle_from(d, b, current_pixel as int));
        }
        assert(out@ + rle_from(d, b, n_pixels as int) =~= out@);
    }

    /// The header of the file that holds this image.
    fn header(&self, vflip: bool, rle: bool) -> (header: Header)
        ensures
            header.bytes() == header_bytes(
                self.spec_width(),
                self.spec_height(),
                T::BPP as nat,
                vflip,
                rle,
            ),
    {
        let bpp = T::BPP;
        proof {
            T::bpp_bounds();
            assert(bpp << 3 == bpp * 8) by (bit_vector)
                requires
                    bpp <= 4,
            ;
            lemma_truncated_field(self.width as nat);
            lemma_truncated_field(self.height as nat);
        }
        let header = Header {
            idlength: 0,
            colormaptype: 0,
            datatypecode: if T::BPP == Grayscale::BPP {
                match rle {
                    true => 11,
                    false => 3,
                }
            } else {
                match rle {
                    true => 10,
                    false => 2,
                }
            },
            colormaporigin: 0,
            colormaplength: 0,
            colormapdepth: 0,
            x_origin: 0,
            y_origin: 0,
            width: (self.width % 0x10000) as u16,
            height: (self.height % 0x10000) as u16,
            bitsperpixel: T::BPP << 3,
            imagedescriptor: if vflip {
                0x00
            } else {
                0x20
            },
        };
        assert(header.bytes() =~= header_bytes(
            self.spec_width(),
            self.spec_height(),
            T::BPP as nat,
            vflip,
            rle,
        ));
        header
    }

    /// The image as a file: header, pixel data (run-length encoded if `rle`),
    /// the two area references and the footer. `vflip` marks the first
    /// stored row as the bottom row.
    pub fn encode(&self, vflip: bool, rle: bool) -> (file: Vec<u8>)
        ensures
            file@ == file_bytes(
                self.spec_width(),
                self.spec_height(),
                T::BPP as nat,
                pixel_bytes(self@),
                vflip,
                rle,
            ),
    {
        let mut out: Vec<u8> = Vec::new();
        let header = self.header(vflip, rle);
        header.write_bytes(&mut out);
        if !rle {
            let data = self.data_vec();
            append_range(&mut out, &data, 0, data.len());
            assert(data@.subrange(0, data.len() as int) =~= data@);
        } else {
            self.write_rle_data(&mut out);
        }
        out.extend_from_slice(DEVELOPER_AREA_REF.as_slice());
        out.extend_from_slice(EXTENSION_AREA_REF.as_slice());
        out.extend_from_slice(FOOTER.as_slice());
        assert(out@ =~= file_bytes(
            self.spec_width(),
            self.spec_height(),
            T::BPP as nat,
            pixel_bytes(self@),
            vflip,
            rle,
        ));
        out
    }

    /// The number of pixels in a row.
    pub fn width(&self) -> (w: usize)
        ensures
            w == self.spec_width(),
            self@.len() == self.spec_width() * self.spec_height(),
    {
        proof {
            use_type_invariant(self);
        }
        self.width
    }

    /// The number of rows.
    pub fn height(&self) -> (h: usize)
        ensures
            h == self.spec_height(),
            self@.len() == self.spec_width() * self.spec_height(),
    {
        proof {
            use_type_invariant(self);
        }
        self.height
    }
}

} // verus!
