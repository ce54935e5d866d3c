//! The run-length packet format of the image payload.
//!
//! Pixel data is a byte string of `bpp`-byte pixels. It is cut into packets
//! of 1 to 128 pixels. A raw packet stores its pixels verbatim after a header
//! byte `len - 1`; a repeat packet stores one pixel after a header byte
//! `len + 127`, standing for `len` copies of it.

use vstd::arithmetic::div_mod::lemma_fundamental_div_mod;
use vstd::prelude::*;

verus! {

/// The largest number of pixels one packet can hold.
pub const MAX_CHUNK_LENGTH: usize = 128;

/// The number of whole pixels in `data`.
pub open spec fn pixel_count(data: Seq<u8>, bpp: nat) -> nat {
    data.len() / bpp
}

/// The bytes of pixel `k`.
pub open spec fn pixel_at(data: Seq<u8>, bpp: nat, k: int) -> Seq<u8> {
    data.subrange(k * bpp, k * bpp + bpp)
}

/// Whether pixel `k` equals its successor.
pub open spec fn repeats(data: Seq<u8>, bpp: nat, k: int) -> bool {
    pixel_at(data, bpp, k) == pixel_at(data, bpp, k + 1)
}

/// How many pixels a repeat packet takes after pixel `k`, with room for
/// `room` more: it takes the next pixel for as long as that pixel equals the
/// one before it.
pub open spec fn repeat_more(data: Seq<u8>, bpp: nat, k: int, room: nat) -> nat
    decreases room,
{
    if room >= 1 && repeats(data, bpp, k) {
        1 + repeat_more(data, bpp, k + 1, (room - 1) as nat)
    } else {
        0
    }
}

/// How many pixels a raw packet takes after pixel `k`, with room for `room`
/// more: it takes the next pixel unless that pixel equals its own successor
/// and so opens a run. The pixel that fills the packet's last slot is taken
/// without a look at its successor.
pub open spec fn raw_more(data: Seq<u8>, bpp: nat, k: int, room: nat) -> nat
    decreases room,
{
    if room >= 1 && !(room >= 2 && repeats(data, bpp, k + 1)) {
        1 + raw_more(data, bpp, k + 1, (room - 1) as nat)
    } else {
        0
    }
}

/// Neither kind of packet takes more pixels than it has room for.
pub proof fn lemma_more_fits_room(data: Seq<u8>, bpp: nat, k: int, room: nat)
    ensures
        repeat_more(data, bpp, k, room) <= room,
        raw_more(data, bpp, k, room) <= room,
    decreases room,
{
    if room >= 1 {
        lemma_more_fits_room(data, bpp, k + 1, (room - 1) as nat);
    }
}

/// The most pixels the packet that starts at pixel `k` may hold: what is
/// left of the data, and no more than 128.
pub open spec fn packet_cap(data: Seq<u8>, bpp: nat, k: int) -> nat {
    let left = pixel_count(data, bpp) - k;
    if left <= 0 {
        0
    } else if left < MAX_CHUNK_LENGTH {
        left as nat
    } else {
        MAX_CHUNK_LENGTH as nat
    }
}

/// Whether the packet that starts at pixel `k` is a repeat packet: pixel `k`
/// has a successor within reach and equals it.
pub open spec fn is_repeat_packet(data: Seq<u8>, bpp: nat, k: int) -> bool {
    packet_cap(data, bpp, k) >= 2 && repeats(data, bpp, k)
}

/// The number of pixels in the packet that starts at pixel `k`.
pub open spec fn packet_len(data: Seq<u8>, bpp: nat, k: int) -> nat {
    let room = (packet_cap(data, bpp, k) - 1) as nat;
    if is_repeat_packet(data, bpp, k) {
        1 + repeat_more(data, bpp, k, room)
    } else {
        1 + raw_more(data, bpp, k, room)
    }
}

/// The header byte of the packet that starts at pixel `k`.
pub open spec fn packet_header(data: Seq<u8>, bpp: nat, k: int) -> u8 {
    if is_repeat_packet(data, bpp, k) {
        (packet_len(data, bpp, k) + 127) as u8
    } else {
        (packet_len(data, bpp, k) - 1) as u8
    }
}

/// The bytes that follow the header of the packet that starts at pixel `k`.
pub open spec fn packet_payload(data: Seq<u8>, bpp: nat, k: int) -> Seq<u8> {
    if is_repeat_packet(data, bpp, k) {
        pixel_at(data, bpp, k)
    } else {
        data.subrange(k * bpp, (k + packet_len(data, bpp, k)) * bpp)
    }
}

/// The packets for the pixels from pixel `k` on.
pub open spec fn rle_from(data: Seq<u8>, bpp: nat, k: int) -> Seq<u8>
    decreases pixel_count(data, bpp) - k,
{
    if k < 0 || k >= pixel_count(data, bpp) {
        Seq::empty()
    } else {
        proof {
            lemma_more_fits_room(data, bpp, k, (packet_cap(data, bpp, k) - 1) as nat);
        }
        seq![packet_header(data, bpp, k)] + packet_payload(data, bpp, k) + rle_from(
            data,
            bpp,
            k + packet_len(data, bpp, k),
        )
    }
}

/// The run-length encoding of `data`, a string of `bpp`-byte pixels.
pub open spec fn rle_encode(data: Seq<u8>, bpp: nat) -> Seq<u8> {
    rle_from(data, bpp, 0)
}

/// `count` copies of `pixel`, one after the other.
pub open spec fn repeated(pixel: Seq<u8>, count: nat) -> Seq<u8>
    decreases count,
{
    if count == 0 {
        Seq::empty()
    } else {
        pixel + repeated(pixel, (count - 1) as nat)
    }
}

/// The pixel data that a decoder reads from `stream` when it expects `n`
/// pixels of `bpp` bytes: packet by packet, a header byte below 128
/// announcing that many pixels plus one verbatim, a header byte from 128 up
/// announcing its low seven bits plus one copies of the pixel that follows.
/// A stream that ends early, or a packet that overruns `n`, ends the output.
pub open spec fn rle_decode(stream: Seq<u8>, bpp: nat, n: nat) -> Seq<u8>
    decreases n,
{
    if n == 0 || stream.len() == 0 {
        Seq::empty()
    } else {
        let count = (stream[0] % 128 + 1) as nat;
        if count > n {
            Seq::empty()
        } else if stream[0] >= 128 {
            repeated(stream.subrange(1, 1 + bpp as int), count) + rle_decode(
                stream.skip(1 + bpp as int),
                bpp,
                (n - count) as nat,
            )
        } else {
            stream.subrange(1, 1 + count * bpp as int) + rle_decode(
                stream.skip(1 + count * bpp as int),
                bpp,
                (n - count) as nat,
            )
        }
    }
}

/// Byte offsets of pixels: they grow with the pixel's number, by `bpp` from
/// one pixel to the next.
proof fn lemma_offsets(bpp: nat, a: int, b: int)
    requires
        0 <= a <= b,
    ensures
        0 <= a * bpp <= b * bpp,
        (a + 1) * bpp == a * bpp + bpp,
        (b - a) * bpp == b * bpp - a * bpp,
{
    assert(0 <= a * bpp <= b * bpp) by (nonlinear_arith)
        requires
            0 <= a <= b,
            0 <= bpp,
    ;
    assert((a + 1) * bpp == a * bpp + bpp) by (nonlinear_arith);
    assert((b - a) * bpp == b * bpp - a * bpp) by (nonlinear_arith);
}

/// Every packet holds at least one pixel and no more than it may: at most
/// 128, and at most what is left of the data.
pub proof fn lemma_packet_len_bounds(data: Seq<u8>, bpp: nat, k: int)
    requires
        0 <= k < pixel_count(data, bpp),
    ensures
        1 <= packet_len(data, bpp, k) <= packet_cap(data, bpp, k),
        packet_cap(data, bpp, k) <= MAX_CHUNK_LENGTH,
        k + packet_len(data, bpp, k) <= pixel_count(data, bpp),
{
    lemma_more_fits_room(data, bpp, k, (packet_cap(data, bpp, k) - 1) as nat);
}

/// The pixels that a repeat packet takes after pixel `k` all equal pixel
/// `k`, and the packet stops only where it is full or the next pixel
/// differs.
pub proof fn lemma_repeat_more(data: Seq<u8>, bpp: nat, k: int, room: nat)
    ensures
        forall|j: int|
            0 <= j <= repeat_more(data, bpp, k, room) ==> #[trigger] pixel_at(data, bpp, k + j)
                == pixel_at(data, bpp, k),
        repeat_more(data, bpp, k, room) == room || !repeats(
            data,
            bpp,
            k + repeat_more(data, bpp, k, room),
        ),
    decreases room,
{
    if room >= 1 && repeats(data, bpp, k) {
        lemma_repeat_more(data, bpp, k + 1, (room - 1) as nat);
        let rest = repeat_more(data, bpp, k + 1, (room - 1) as nat);
        assert forall|j: int| 0 <= j <= 1 + rest implies #[trigger] pixel_at(data, bpp, k + j)
            == pixel_at(data, bpp, k) by {
            if j >= 1 {
                assert(pixel_at(data, bpp, (k + 1) + (j - 1)) == pixel_at(data, bpp, k + 1));
            }
        }
    }
}

/// Of the pixels that a raw packet takes after pixel `k`, none but the last
/// equals its successor, and the packet stops only where it is full or the
/// next pixel opens a run.
pub proof fn lemma_raw_more(data: Seq<u8>, bpp: nat, k: int, room: nat)
    ensures
        forall|j: int|
            1 <= j < raw_more(data, bpp, k, room) ==> !#[trigger] repeats(data, bpp, k + j),
        raw_more(data, bpp, k, room) == room || repeats(
            data,
            bpp,
            k + raw_more(data, bpp, k, room) + 1,
        ),
    decreases room,
{
    if room >= 1 && !(room >= 2 && repeats(data, bpp, k + 1)) {
        lemma_raw_more(data, bpp, k + 1, (room - 1) as nat);
        let rest = raw_more(data, bpp, k + 1, (room - 1) as nat);
        assert forall|j: int| 1 <= j < 1 + rest implies !#[trigger] repeats(data, bpp, k + j) by {
            if j >= 2 {
                assert(!repeats(data, bpp, (k + 1) + (j - 1)));
            }
        }
    }
}

/// In a repeat packet every pixel equals the first. In a raw packet no pixel
/// but the last equals its successor.
pub proof fn lemma_packet_pixels(data: Seq<u8>, bpp: nat, k: int)
    requires
        0 <= k < pixel_count(data, bpp),
    ensures
        is_repeat_packet(data, bpp, k) ==> forall|j: int|
            0 <= j < packet_len(data, bpp, k) ==> #[trigger] pixel_at(data, bpp, k + j)
                == pixel_at(data, bpp, k),
        !is_repeat_packet(data, bpp, k) ==> forall|j: int|
            0 <= j < packet_len(data, bpp, k) - 1 ==> !#[trigger] repeats(data, bpp, k + j),
{
    let room = (packet_cap(data, bpp, k) - 1) as nat;
    lemma_repeat_more(data, bpp, k, room);
    lemma_raw_more(data, bpp, k, room);
    if !is_repeat_packet(data, bpp, k) {
        assert forall|j: int| 0 <= j < packet_len(data, bpp, k) - 1 implies !#[trigger] repeats(
            data,
            bpp,
            k + j,
        ) by {
            if j == 0 {
                assert(raw_more(data, bpp, k, room) >= 1);
                assert(room >= 1);
            }
        }
    }
}

/// A run of `count` pixels that all equal the first is `count` copies of
/// the first.
proof fn lemma_repeated_run(data: Seq<u8>, bpp: nat, k: int, count: nat)
    requires
        0 <= k,
        (k + count) * bpp <= data.len(),
        forall|j: int|
            0 <= j < count ==> #[trigger] pixel_at(data, bpp, k + j) == pixel_at(data, bpp, k),
    ensures
        repeated(pixel_at(data, bpp, k), count) == data.subrange(k * bpp, (k + count) * bpp),
    decreases count,
{
    lemma_offsets(bpp, k, k + count);
    if count == 0 {
        assert(data.subrange(k * bpp, (k + count) * bpp) =~= Seq::<u8>::empty());
    } else {
        lemma_offsets(bpp, k + 1, k + count);
        assert forall|j: int| 0 <= j < count - 1 implies #[trigger] pixel_at(
            data,
            bpp,
            (k + 1) + j,
        ) == pixel_at(data, bpp, k + 1) by {
            assert(pixel_at(data, bpp, k + (j + 1)) == pixel_at(data, bpp, k));
            assert(pixel_at(data, bpp, k + 1) == pixel_at(data, bpp, k));
        }
        lemma_repeated_run(data, bpp, k + 1, (count - 1) as nat);
        if count >= 2 {
            assert(pixel_at(data, bpp, k + 1) == pixel_at(data, bpp, k));
        }
        assert(repeated(pixel_at(data, bpp, k + 1), (count - 1) as nat) == repeated(
            pixel_at(data, bpp, k),
            (count - 1) as nat,
        ));
        assert(data.subrange(k * bpp, (k + count) * bpp) =~= pixel_at(data, bpp, k)
            + data.subrange((k + 1) * bpp, (k + 1 + (count - 1)) * bpp));
    }
}

/// Decoding the packets from pixel `k` on gives back the pixels from pixel
/// `k` on.
proof fn lemma_decode_from(data: Seq<u8>, bpp: nat, k: int)
    requires
        bpp > 0,
        data.len() == pixel_count(data, bpp) * bpp,
        0 <= k <= pixel_count(data, bpp),
    ensures
        rle_decode(rle_from(data, bpp, k), bpp, (pixel_count(data, bpp) - k) as nat) == data.skip(
            k * bpp,
        ),
    decreases pixel_count(data, bpp) - k,
{
    let n = pixel_count(data, bpp) as int;
    lemma_offsets(bpp, k, n);
    if k == n {
        assert(data.skip(k * bpp) =~= Seq::<u8>::empty());
    } else {
        let len = packet_len(data, bpp, k) as int;
        let header = packet_header(data, bpp, k);
        let payload = packet_payload(data, bpp, k);
        let rest = rle_from(data, bpp, k + len);
        let stream = rle_from(data, bpp, k);
        lemma_packet_len_bounds(data, bpp, k);
        lemma_packet_pixels(data, bpp, k);
        lemma_offsets(bpp, k, k + len);
        lemma_offsets(bpp, k + len, n);
        lemma_offsets(bpp, k + 1, n);
        lemma_offsets(bpp, 0, len);
        lemma_decode_from(data, bpp, k + len);
        assert(stream == seq![header] + payload + rest);
        assert(stream[0] == header);
        assert((header % 128 + 1) as nat == len);
        if is_repeat_packet(data, bpp, k) {
            assert(payload.len() == bpp);
            assert(stream.subrange(1, 1 + bpp as int) =~= payload);
            assert(stream.skip(1 + bpp as int) =~= rest);
            lemma_repeated_run(data, bpp, k, len as nat);
            assert(data.skip(k * bpp) =~= data.subrange(k * bpp, (k + len) * bpp) + data.skip(
                (k + len) * bpp,
            ));
        } else {
            assert(payload.len() == len * bpp);
            assert(stream.subrange(1, 1 + len * bpp as int) =~= payload);
            assert(stream.skip(1 + len * bpp as int) =~= rest);
            assert(data.skip(k * bpp) =~= payload + data.skip((k + len) * bpp));
        }
    }
}

/// Decoding the run-length encoding of pixel data gives back the pixel
/// data, byte for byte.
pub proof fn lemma_rle_round_trip(data: Seq<u8>, bpp: nat)
    requires
        bpp > 0,
        data.len() % bpp == 0,
    ensures
        rle_decode(rle_encode(data, bpp), bpp, pixel_count(data, bpp)) == data,
{
    lemma_fundamental_div_mod(data.len() as int, bpp as int);
    assert(pixel_count(data, bpp) * bpp == bpp * (data.len() / bpp)) by (nonlinear_arith)
        requires
            pixel_count(data, bpp) == data.len() / bpp,
    ;
    lemma_decode_from(data, bpp, 0);
    assert(data.skip(0) =~= data);
}

/// Whether the `len` bytes of `data` from `a` on equal those from `b` on.
pub fn bytes_equal(data: &Vec<u8>, a: usize, b: usize, len: usize) -> (eq: bool)
    requires
        a + len <= data.len(),
        b + len <= data.len(),
    ensures
        eq == (data@.subrange(a as int, a + len) == data@.subrange(b as int, b + len)),
{
    let ghost left = data@.subrange(a as int, a + len);
    let ghost right = data@.subrange(b as int, b + len);
    let mut i: usize = 0;
    while i < len
        invariant
            i <= len,
            a + len <= data.len(),
            b + len <= data.len(),
            left == data@.subrange(a as int, a + len),
            right == data@.subrange(b as int, b + len),
            forall|j: int| 0 <= j < i ==> left[j] == right[j],
        decreases len - i,
    {
        if data[a + i] != data[b + i] {
            assert(left[i as int] != right[i as int]);
            return false;
        }
        i += 1;
    }
    assert(left =~= right);
    true
}

/// Appends `data[from..to]` to `out`.
pub fn append_range(out: &mut Vec<u8>, data: &Vec<u8>, from: usize, to: usize)
    requires
        from <= to <= data.len(),
    ensures
        final(out)@ == old(out)@ + data@.subrange(from as int, to as int),
{
    out.extend_from_slice(vstd::slice::slice_subrange(data.as_slice(), from, to));
    assert(out@ =~= old(out)@ + data@.subrange(from as int, to as int));
}

} // verus!
