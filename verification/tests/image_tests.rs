use raytracing_in_rust::image::{
    flip_columns, flip_rows, pack_rgb, pixel_position, rgb_bytes, rgba_bytes, subpixel_position,
    window_buffer,
};

#[test]
fn flip_rows_turns_an_even_image_upside_down() {
    let image = vec![1, 2, 3, 4, 5, 6, 7, 8];
    assert_eq!(flip_rows(&image, 2, 4, 0), vec![7, 8, 5, 6, 3, 4, 1, 2]);
}

#[test]
fn flip_rows_leaves_the_middle_row_of_an_odd_image_filled() {
    let image = vec![1, 2, 3, 4, 5, 6];
    assert_eq!(flip_rows(&image, 2, 3, 0), vec![5, 6, 0, 0, 1, 2]);
}

#[test]
fn flip_rows_twice_gives_back_an_even_image() {
    let image: Vec<u32> = (0..24).collect();
    let once = flip_rows(&image, 4, 6, 99);
    assert_eq!(flip_rows(&once, 4, 6, 99), image);
}

#[test]
fn flip_rows_fills_positions_past_the_grid() {
    let image = vec![1, 2, 3, 4, 5];
    assert_eq!(flip_rows(&image, 2, 2, 0), vec![3, 4, 1, 2, 0]);
}

#[test]
fn flip_columns_mirrors_each_row() {
    let image = vec![1, 2, 3, 4, 5, 6, 7, 8];
    assert_eq!(flip_columns(&image, 4, 2, 0), vec![4, 3, 2, 1, 8, 7, 6, 5]);
    let odd = vec![1, 2, 3, 4, 5, 6];
    assert_eq!(flip_columns(&odd, 3, 2, 0), vec![3, 0, 1, 6, 0, 4]);
    let image: Vec<u32> = (0..24).collect();
    assert_eq!(flip_columns(&flip_columns(&image, 6, 4, 0), 6, 4, 0), image);
}

#[test]
fn pixel_position_splits_an_index_into_column_and_row() {
    assert_eq!(pixel_position(0, 500), (0, 0));
    assert_eq!(pixel_position(499, 500), (499, 0));
    assert_eq!(pixel_position(500, 500), (0, 1));
    assert_eq!(pixel_position(1234, 500), (234, 2));
}

#[test]
fn subpixel_position_gives_each_cell_its_samples() {
    // 2 by 2 cells of 3 samples each
    let cells: Vec<(usize, usize)> = (0..12).map(|i| subpixel_position(i, 2, 3)).collect();
    assert_eq!(
        cells,
        vec![(0, 0), (0, 0), (0, 0), (1, 0), (1, 0), (1, 0), (0, 1), (0, 1), (0, 1), (1, 1), (1, 1), (1, 1)]
    );
    assert_eq!(subpixel_position(7, 1, 5), (0, 1));
}

#[test]
fn pack_rgb_places_channels_in_a_word() {
    assert_eq!(pack_rgb(0x12, 0x34, 0x56), 0x0012_3456);
    assert_eq!(pack_rgb(255, 0, 0), 0x00ff_0000);
    assert_eq!(pack_rgb(0, 0, 0), 0);
}

#[test]
fn window_buffer_packs_pixels_last_first() {
    let pixels = vec![(1, 2, 3), (4, 5, 6)];
    assert_eq!(window_buffer(&pixels), vec![0x0004_0506, 0x0001_0203]);
    assert!(window_buffer(&Vec::new()).is_empty());
}

#[test]
fn rgba_and_rgb_bytes_interleave_channels() {
    let pixels = vec![(1u8, 2u8, 3u8), (250, 251, 252)];
    assert_eq!(rgba_bytes(&pixels), vec![1, 2, 3, 255, 250, 251, 252, 255]);
    assert_eq!(rgb_bytes(&pixels), vec![1, 2, 3, 250, 251, 252]);
}

#[test]
fn flip_columns_twice_gives_back_an_even_width_image() {
    let image: Vec<u32> = (0..18).collect();
    let once = flip_columns(&image, 6, 3, 99);
    assert_ne!(once, image);
    assert_eq!(flip_columns(&once, 6, 3, 99), image);
}
