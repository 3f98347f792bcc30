use raytracer::frame::{Frame, PlaceError};
use raytracer::tiles::{box_count, render_tile, tile_at};

#[test]
fn frame_fills_in_any_order() {
    let (width, height, side) = (7usize, 5usize, 3usize);
    let mut frame = Frame::new(width, height, side);
    let columns = box_count(width, side);
    let total = columns * box_count(height, side);
    assert_eq!(frame.remaining(), total);
    let mut done = Vec::new();
    for i in (0..total).rev() {
        let t = tile_at(width, height, side, i);
        let block = render_tile(&t, &|x: usize, y: usize| (y * width + x) as u32 + 1);
        done.push(frame.place(t.box_x, t.box_y, &block));
    }
    assert_eq!(done.last(), Some(&Ok(true)));
    assert!(done[..done.len() - 1].iter().all(|r| *r == Ok(false)));
    assert_eq!(frame.remaining(), 0);
    let expected: Vec<u32> = (1..=(width * height) as u32).collect();
    assert_eq!(frame.pixels(), &expected);
}

#[test]
fn frame_refuses_bad_boxes() {
    let mut frame = Frame::new(7, 5, 3);
    assert_eq!(frame.place(3, 0, &vec![0; 9]), Err(PlaceError::OutOfFrame));
    assert_eq!(frame.place(0, 2, &vec![0; 9]), Err(PlaceError::OutOfFrame));
    assert_eq!(frame.place(2, 0, &vec![0; 9]), Err(PlaceError::BlockSize));
    assert_eq!(frame.place(2, 1, &vec![9; 2]), Ok(false));
    assert_eq!(frame.place(2, 1, &vec![9; 2]), Err(PlaceError::Repeated));
    assert_eq!(frame.remaining(), 5);
    assert_eq!(frame.pixels()[4 * 7 + 6], 9);
    assert_eq!(frame.pixels()[0], 0);
}
