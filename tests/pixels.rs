use raytracer::color;
use raytracer::image::{encode_png, ImageError};
use raytracer::pixel::{channels, rgb_bytes};

#[test]
fn color_packs_channels_high_to_low() {
    assert_eq!(color(0x12, 0x34, 0x56), 0x0012_3456);
    assert_eq!(color(255, 255, 255), 0x00FF_FFFF);
    assert_eq!(color(0, 0, 0), 0);
    assert_eq!(color(1, 0, 0), 0x0001_0000);
}

#[test]
fn channels_undo_color() {
    assert_eq!(channels(color(200, 100, 50)), (200, 100, 50));
    assert_eq!(channels(0xFF12_3456), (0x12, 0x34, 0x56));
}

#[test]
fn rgb_bytes_three_per_pixel_in_order() {
    let pixels = vec![color(1, 2, 3), color(4, 5, 6)];
    assert_eq!(rgb_bytes(&pixels), vec![1, 2, 3, 4, 5, 6]);
    assert_eq!(rgb_bytes(&Vec::new()), Vec::<u8>::new());
}

#[test]
fn encode_png_refuses_wrong_pixel_count() {
    let pixels = vec![0u32; 5];
    assert_eq!(encode_png(2, 3, &pixels), Err(ImageError::SizeMismatch));
}

#[test]
fn encode_png_refuses_empty_image() {
    assert_eq!(encode_png(0, 0, &Vec::new()), Err(ImageError::Encoding));
}

#[test]
fn encode_png_round_trips_through_decoder() {
    let pixels = vec![
        color(255, 0, 0),
        color(0, 255, 0),
        color(0, 0, 255),
        color(10, 20, 30),
        color(40, 50, 60),
        color(70, 80, 90),
    ];
    let bytes = encode_png(3, 2, &pixels).unwrap();
    assert_eq!(&bytes[0..8], &[137u8, 80, 78, 71, 13, 10, 26, 10]);
    let decoder = png::Decoder::new(bytes.as_slice());
    let mut reader = decoder.read_info().unwrap();
    let mut buffer = vec![0u8; reader.output_buffer_size()];
    let info = reader.next_frame(&mut buffer).unwrap();
    assert_eq!((info.width, info.height), (3, 2));
    assert_eq!(info.color_type, png::ColorType::Rgb);
    assert_eq!(info.bit_depth, png::BitDepth::Eight);
    assert_eq!(&buffer[..info.buffer_size()], rgb_bytes(&pixels).as_slice());
}

#[test]
fn encode_png_refuses_zero_height() {
    assert_eq!(encode_png(4, 0, &Vec::new()), Err(ImageError::Encoding));
}

#[test]
fn encode_png_single_pixel_succeeds() {
    assert!(encode_png(1, 1, &vec![color(9, 8, 7)]).is_ok());
}
