use raytracer::tiles::{blit, box_count, next_offset, render_tile, tile_at, tile_order, tiles, Tile};

#[test]
fn box_count_rounds_up() {
    assert_eq!(box_count(1920, 96), 20);
    assert_eq!(box_count(1080, 96), 12);
    assert_eq!(box_count(96, 96), 1);
    assert_eq!(box_count(97, 96), 2);
    assert_eq!(box_count(0, 96), 0);
}

#[test]
fn last_boxes_are_clipped_to_the_frame() {
    let t = tile_at(1920, 1080, 96, 12 * 20 - 1);
    assert_eq!(
        t,
        Tile { box_x: 19, box_y: 11, min_x: 1824, min_y: 1056, width: 96, height: 24 }
    );
    let u = tile_at(10, 7, 4, 2);
    assert_eq!(u, Tile { box_x: 2, box_y: 0, min_x: 8, min_y: 0, width: 2, height: 4 });
}

fn check_partition(width: usize, height: usize, side: usize) {
    let all = tiles(width, height, side);
    assert_eq!(all.len(), box_count(width, side) * box_count(height, side));
    let mut hits = vec![0u32; width * height];
    for t in all.iter() {
        assert!(t.min_x + t.width <= width && t.min_y + t.height <= height);
        for y in t.min_y..t.min_y + t.height {
            for x in t.min_x..t.min_x + t.width {
                hits[y * width + x] += 1;
            }
        }
    }
    assert!(hits.iter().all(|&h| h == 1));
}

#[test]
fn tiles_cover_frame_exactly_once() {
    check_partition(10, 7, 3);
    check_partition(12, 12, 4);
    check_partition(5, 9, 16);
    check_partition(1, 1, 1);
    check_partition(97, 31, 8);
}

#[test]
fn tiles_of_empty_frame() {
    assert!(tiles(0, 5, 3).is_empty());
}

#[test]
fn tile_order_is_a_permutation() {
    let mut rng = rand::XorShiftRng::new_unseeded();
    let order = tile_order(&mut rng, 240);
    assert_eq!(order.len(), 240);
    let mut sorted = order.clone();
    sorted.sort();
    assert_eq!(sorted, (0..240).collect::<Vec<usize>>());
    assert!(order.windows(2).any(|w| w[0] > w[1]));
}

#[test]
fn tile_order_empty() {
    let mut rng = rand::XorShiftRng::new_unseeded();
    assert!(tile_order(&mut rng, 0).is_empty());
}

#[test]
fn render_tile_shades_each_pixel_row_by_row() {
    let t = Tile { box_x: 1, box_y: 1, min_x: 3, min_y: 2, width: 2, height: 3 };
    let block = render_tile(&t, &|x: usize, y: usize| (y * 100 + x) as u32);
    assert_eq!(block, vec![203, 204, 303, 304, 403, 404]);
}

#[test]
fn blit_copies_tile_and_keeps_the_rest() {
    let mut screen = vec![7u32; 5 * 4];
    let t = Tile { box_x: 1, box_y: 1, min_x: 2, min_y: 1, width: 3, height: 2 };
    blit(&mut screen, 5, &t, &vec![1, 2, 3, 4, 5, 6]);
    assert_eq!(
        screen,
        vec![
            7, 7, 7, 7, 7, //
            7, 7, 1, 2, 3, //
            7, 7, 4, 5, 6, //
            7, 7, 7, 7, 7,
        ]
    );
}

#[test]
fn next_offset_steps_by_pairs_and_wraps() {
    assert_eq!(next_offset(0, 6), 2);
    assert_eq!(next_offset(2, 6), 4);
    assert_eq!(next_offset(4, 6), 0);
    assert_eq!(next_offset(2, 5), 0);
    assert_eq!(next_offset(0, 2), 0);
}

#[test]
fn box_areas_sum_to_frame_area() {
    for &(width, height, side) in &[(1920usize, 1080usize, 96usize), (10, 7, 3), (5, 9, 16), (97, 31, 8)] {
        let area: usize = tiles(width, height, side).iter().map(|t| t.width * t.height).sum();
        assert_eq!(area, width * height);
    }
}
