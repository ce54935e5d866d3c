use rustyrender::tga::{Grayscale, Image, RGB, RGBA};

const SIGNATURE: &[u8; 18] = b"TRUEVISION-XFILE.\0";

/// Reads `n_pixels` pixels of `bpp` bytes from run-length packets.
fn decode(stream: &[u8], bpp: usize, n_pixels: usize) -> Vec<u8> {
    let mut out = Vec::new();
    let mut at = 0;
    while out.len() < n_pixels * bpp {
        let header = stream[at] as usize;
        at += 1;
        if header >= 128 {
            let count = header - 127;
            for _ in 0..count {
                out.extend_from_slice(&stream[at..at + bpp]);
            }
            at += bpp;
        } else {
            let count = header + 1;
            out.extend_from_slice(&stream[at..at + count * bpp]);
            at += count * bpp;
        }
    }
    assert_eq!(at, stream.len());
    out
}

/// The pixel counts of the packets, repeat packets as negative numbers.
fn packets(stream: &[u8], bpp: usize) -> Vec<isize> {
    let mut found = Vec::new();
    let mut at = 0;
    while at < stream.len() {
        let header = stream[at] as isize;
        if header >= 128 {
            found.push(-(header - 127));
            at += 1 + bpp;
        } else {
            found.push(header + 1);
            at += 1 + (header as usize + 1) * bpp;
        }
    }
    assert_eq!(at, stream.len());
    found
}

fn gray(values: &[u8]) -> Image<Grayscale> {
    let mut image: Image<Grayscale> = Image::new(values.len(), 1);
    for (x, v) in values.iter().enumerate() {
        image.set(x, 0, Grayscale { i: *v }).unwrap();
    }
    image
}

fn rle(image: &Image<Grayscale>) -> Vec<u8> {
    let mut out = Vec::new();
    image.write_rle_data(&mut out);
    out
}

#[test]
fn rle_of_nothing_is_empty() {
    assert_eq!(rle(&gray(&[])), Vec::<u8>::new());
}

#[test]
fn rle_appends_to_what_is_there() {
    let mut out = vec![1, 2, 3];
    gray(&[7, 7]).write_rle_data(&mut out);
    assert_eq!(out, vec![1, 2, 3, 0x81, 7]);
}

#[test]
fn rle_of_one_pixel_is_a_raw_packet() {
    assert_eq!(rle(&gray(&[9])), vec![0x00, 9]);
}

#[test]
fn rle_of_equal_pixels_is_a_repeat_packet() {
    assert_eq!(rle(&gray(&[4, 4])), vec![0x81, 4]);
    assert_eq!(rle(&gray(&[4; 5])), vec![0x84, 4]);
    assert_eq!(rle(&gray(&[4; 128])), vec![0xff, 4]);
}

#[test]
fn rle_of_distinct_pixels_is_a_raw_packet() {
    assert_eq!(rle(&gray(&[1, 2])), vec![0x01, 1, 2]);
    assert_eq!(rle(&gray(&[1, 2, 3, 4])), vec![0x03, 1, 2, 3, 4]);
}

#[test]
fn rle_switches_packet_kind_where_the_pattern_changes() {
    assert_eq!(rle(&gray(&[1, 2, 3, 3, 3, 4])), vec![0x01, 1, 2, 0x82, 3, 0x00, 4]);
    assert_eq!(rle(&gray(&[5, 5, 6, 7, 7])), vec![0x81, 5, 0x00, 6, 0x81, 7]);
    assert_eq!(rle(&gray(&[5, 5, 6, 7, 8])), vec![0x81, 5, 0x02, 6, 7, 8]);
    assert_eq!(rle(&gray(&[1, 2, 2])), vec![0x00, 1, 0x81, 2]);
}

#[test]
fn rle_splits_129_equal_pixels_into_128_and_1() {
    let stream = rle(&gray(&[6; 129]));
    assert_eq!(stream, vec![0xff, 6, 0x00, 6]);
    assert_eq!(decode(&stream, 1, 129), vec![6; 129]);
}

#[test]
fn rle_caps_raw_packets_at_128_pixels() {
    let values: Vec<u8> = (0..200u32).map(|i| (i % 251) as u8).collect();
    let stream = rle(&gray(&values));
    assert_eq!(packets(&stream, 1), vec![128, 72]);
    assert_eq!(stream.len(), 2 + 200);
    assert_eq!(decode(&stream, 1, 200), values);
}

#[test]
fn rle_takes_the_last_slot_of_a_raw_packet_without_looking_ahead() {
    // Pixels 127 and 128 are equal, but pixel 127 fills the first packet.
    let mut values: Vec<u8> = (0..128u32).map(|i| i as u8).collect();
    values.push(127);
    values.push(127);
    let stream = rle(&gray(&values));
    assert_eq!(packets(&stream, 1), vec![128, -2]);
    assert_eq!(decode(&stream, 1, 130), values);
}

#[test]
fn rle_round_trip_of_runs_across_the_cap() {
    let mut values = Vec::new();
    values.extend(std::iter::repeat(1u8).take(300));
    values.extend((0..150u32).map(|i| (i % 7 + 2) as u8));
    values.extend(std::iter::repeat(9u8).take(129));
    values.push(3);
    let stream = rle(&gray(&values));
    assert_eq!(decode(&stream, 1, values.len()), values);
    for count in packets(&stream, 1) {
        assert!(count != 0 && count.abs() <= 128);
    }
    assert_eq!(&packets(&stream, 1)[..3], &[-128, -128, -44]);
}

#[test]
fn rle_round_trip_of_wide_pixels() {
    let mut image: Image<RGBA> = Image::new(70, 3);
    for y in 0..3 {
        for x in 0..70 {
            let c = RGBA { b: x as u8, g: y as u8, r: (x / 35) as u8, a: 255 };
            image.set(x, y, c).unwrap();
        }
    }
    for x in 10..50 {
        image.set(x, 1, RGBA { b: 1, g: 2, r: 3, a: 4 }).unwrap();
    }
    let mut stream = Vec::new();
    image.write_rle_data(&mut stream);
    assert_eq!(decode(&stream, 4, 210), image.data_vec());
    assert_eq!(packets(&stream, 4), vec![80, -40, 90]);
}

#[test]
fn rle_compares_whole_pixels() {
    // Neighbours that share their first bytes are still distinct pixels.
    let mut image: Image<RGB> = Image::new(3, 1);
    image.set(0, 0, RGB { b: 1, g: 2, r: 3 }).unwrap();
    image.set(1, 0, RGB { b: 1, g: 2, r: 4 }).unwrap();
    image.set(2, 0, RGB { b: 1, g: 2, r: 4 }).unwrap();
    let mut stream = Vec::new();
    image.write_rle_data(&mut stream);
    assert_eq!(stream, vec![0x00, 1, 2, 3, 0x81, 1, 2, 4]);
}

#[test]
fn header_fields() {
    let image: Image<RGB> = Image::new(100, 100);
    let file = image.encode(false, true);
    assert_eq!(&file[12..14], &[100, 0]);
    assert_eq!(&file[14..16], &[100, 0]);
    assert_eq!(file[16], 24);
    assert_eq!(file[2], 10);
}

#[test]
fn header_in_full() {
    let image: Image<RGBA> = Image::new(0x1234, 0);
    let file = image.encode(false, false);
    assert_eq!(
        &file[..18],
        &[0, 0, 2, 0, 0, 0, 0, 0, 0, 0, 0, 0, 0x34, 0x12, 0, 0, 32, 0x20]
    );
    assert_eq!(file.len(), 18 + 8 + 18);
}

#[test]
fn data_type_codes() {
    let color: Image<RGB> = Image::new(1, 1);
    let wide: Image<RGBA> = Image::new(1, 1);
    let grey: Image<Grayscale> = Image::new(1, 1);
    assert_eq!(color.encode(false, false)[2], 2);
    assert_eq!(color.encode(false, true)[2], 10);
    assert_eq!(wide.encode(false, false)[2], 2);
    assert_eq!(wide.encode(false, true)[2], 10);
    assert_eq!(grey.encode(false, false)[2], 3);
    assert_eq!(grey.encode(false, true)[2], 11);
    assert_eq!(grey.encode(false, true)[16], 8);
}

#[test]
fn image_descriptor_marks_the_top_row() {
    let image: Image<RGB> = Image::new(2, 2);
    assert_eq!(image.encode(false, false)[17], 0x20);
    assert_eq!(image.encode(true, false)[17], 0x00);
    assert_eq!(image.encode(false, true)[17], 0x20);
    assert_eq!(image.encode(true, true)[17], 0x00);
}

#[test]
fn dimensions_keep_their_low_16_bits() {
    let image: Image<Grayscale> = Image::new(0x1_0203, 1);
    let file = image.encode(false, true);
    assert_eq!(&file[12..16], &[0x03, 0x02, 1, 0]);
}

#[test]
fn raw_file_holds_the_pixels_verbatim() {
    let mut image: Image<RGB> = Image::new(2, 2);
    image.set(1, 0, RGB { b: 1, g: 2, r: 3 }).unwrap();
    image.set(0, 1, RGB { b: 4, g: 5, r: 6 }).unwrap();
    let file = image.encode(true, false);
    assert_eq!(file.len(), 18 + 12 + 8 + 18);
    assert_eq!(&file[18..30], &[0, 0, 0, 1, 2, 3, 4, 5, 6, 0, 0, 0]);
    assert_eq!(&file[18..30], image.data_vec().as_slice());
    assert_eq!(&file[30..38], &[0u8; 8]);
    assert_eq!(&file[38..], SIGNATURE);
}

#[test]
fn footer_constants() {
    assert_eq!(&rustyrender::tga::FOOTER, SIGNATURE);
    assert_eq!(rustyrender::tga::DEVELOPER_AREA_REF, [0u8; 4]);
    assert_eq!(rustyrender::tga::EXTENSION_AREA_REF, [0u8; 4]);
    assert_eq!(rustyrender::rle::MAX_CHUNK_LENGTH, 128);
}

#[test]
fn one_red_pixel_written_with_rle() {
    let mut image: Image<RGB> = Image::new(100, 100);
    image.set(52, 41, RGB { r: 255, g: 0, b: 0 }).unwrap();
    let file = image.encode(false, true);
    assert_eq!(file.len(), 18 + 320 + 8 + 18);
    assert_eq!(&file[file.len() - 18..], SIGNATURE);
    assert_eq!(&file[file.len() - 26..file.len() - 18], &[0u8; 8]);
    let payload = &file[18..file.len() - 26];
    let pixels = decode(payload, 3, 100 * 100);
    assert_eq!(pixels, image.data_vec());
    let at = (52 + 41 * 100) * 3;
    for (i, b) in pixels.iter().enumerate() {
        assert_eq!(*b, if i == at + 2 { 255 } else { 0 });
    }
    let mut expected = vec![-128isize; 32];
    expected.push(-56);
    expected.push(1);
    expected.extend(vec![-128isize; 45]);
    expected.push(-87);
    assert_eq!(packets(payload, 3), expected);
}

#[test]
fn rle_round_trip_of_all_distinct_and_all_equal_images() {
    let mut distinct: Image<RGB> = Image::new(20, 20);
    for y in 0..20 {
        for x in 0..20 {
            distinct.set(x, y, RGB { b: x as u8, g: y as u8, r: 1 }).unwrap();
        }
    }
    let file = distinct.encode(false, true);
    let payload = &file[18..file.len() - 26];
    assert_eq!(decode(payload, 3, 400), distinct.data_vec());
    assert_eq!(packets(payload, 3), vec![128, 128, 128, 16]);

    let mut equal: Image<RGB> = Image::new(20, 20);
    for y in 0..20 {
        for x in 0..20 {
            equal.set(x, y, RGB { b: 9, g: 8, r: 7 }).unwrap();
        }
    }
    let file = equal.encode(false, true);
    let payload = &file[18..file.len() - 26];
    assert_eq!(decode(payload, 3, 400), equal.data_vec());
    assert_eq!(packets(payload, 3), vec![-128, -128, -128, -16]);
}

#[test]
fn byte_helpers() {
    let data = vec![1u8, 2, 3, 1, 2, 4];
    assert!(rustyrender::rle::bytes_equal(&data, 0, 3, 2));
    assert!(!rustyrender::rle::bytes_equal(&data, 0, 3, 3));
    assert!(rustyrender::rle::bytes_equal(&data, 2, 5, 0));
    let mut out = vec![9u8];
    rustyrender::rle::append_range(&mut out, &data, 1, 4);
    assert_eq!(out, vec![9, 2, 3, 1]);
}
