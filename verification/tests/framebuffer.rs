use rustyrender::tga::{ColorSpace, Grayscale, Image, RGB, RGBA};

#[test]
fn new_image_is_zeroed() {
    let image: Image<RGB> = Image::new(4, 3);
    assert_eq!(image.width(), 4);
    assert_eq!(image.height(), 3);
    assert_eq!(image.data_vec(), vec![0u8; 36]);
}

#[test]
fn new_image_may_be_empty() {
    let image: Image<RGBA> = Image::new(0, 7);
    assert_eq!(image.width(), 0);
    assert_eq!(image.height(), 7);
    assert!(image.data_vec().is_empty());
}

#[test]
fn zero_values_and_widths() {
    assert_eq!(<Grayscale as ColorSpace>::new(), Grayscale { i: 0 });
    assert_eq!(<RGB as ColorSpace>::new(), RGB { b: 0, g: 0, r: 0 });
    assert_eq!(<RGBA as ColorSpace>::new(), RGBA { b: 0, g: 0, r: 0, a: 0 });
    assert_eq!(Grayscale::BPP, 1);
    assert_eq!(RGB::BPP, 3);
    assert_eq!(RGBA::BPP, 4);
}

#[test]
fn pixels_serialize_blue_first() {
    let mut out = vec![9u8];
    RGB { b: 1, g: 2, r: 3 }.write_bytes(&mut out);
    RGBA { b: 4, g: 5, r: 6, a: 7 }.write_bytes(&mut out);
    Grayscale { i: 8 }.write_bytes(&mut out);
    assert_eq!(out, vec![9, 1, 2, 3, 4, 5, 6, 7, 8]);
}

#[test]
fn set_overwrites_one_pixel() {
    let mut image: Image<RGB> = Image::new(4, 3);
    assert_eq!(image.set(1, 2, RGB { b: 10, g: 20, r: 30 }), Ok(()));
    let bytes = image.data_vec();
    let at = (1 + 2 * 4) * 3;
    for (i, b) in bytes.iter().enumerate() {
        let expected = if i == at {
            10
        } else if i == at + 1 {
            20
        } else if i == at + 2 {
            30
        } else {
            0
        };
        assert_eq!(*b, expected);
    }
}

#[test]
fn set_rejects_x_at_width() {
    let mut image: Image<Grayscale> = Image::new(4, 3);
    let r = image.set(4, 0, Grayscale { i: 1 });
    assert_eq!(r, Err(String::from("Coordinates out of bounds for image")));
    assert_eq!(image.data_vec(), vec![0u8; 12]);
}

#[test]
fn set_rejects_y_at_height() {
    let mut image: Image<Grayscale> = Image::new(4, 3);
    let r = image.set(0, 3, Grayscale { i: 1 });
    assert_eq!(r, Err(String::from("Coordinates out of bounds for image")));
    assert_eq!(image.data_vec(), vec![0u8; 12]);
}

#[test]
fn set_accepts_the_last_pixel() {
    let mut image: Image<Grayscale> = Image::new(4, 3);
    assert!(image.set(3, 2, Grayscale { i: 9 }).is_ok());
    let mut expected = vec![0u8; 12];
    expected[11] = 9;
    assert_eq!(image.data_vec(), expected);
}

#[test]
fn set_rejects_far_coordinates() {
    let mut image: Image<Grayscale> = Image::new(2, 2);
    assert!(image.set(usize::MAX, 0, Grayscale { i: 1 }).is_err());
    assert!(image.set(0, usize::MAX, Grayscale { i: 1 }).is_err());
    assert_eq!(image.data_vec(), vec![0u8; 4]);
}
