use raytracer::frame_buffer::{count_tiles_along, FrameBuffer, FRAME_TILE_SIDE};
use raytracer::tile_manager::{Tile, TileManager, BORDER_MARK_COLOR};

#[test]
fn tile_count_rounds_up() {
    assert_eq!(count_tiles_along(0, 50), 0);
    assert_eq!(count_tiles_along(1, 50), 1);
    assert_eq!(count_tiles_along(50, 50), 1);
    assert_eq!(count_tiles_along(51, 50), 2);
    assert_eq!(count_tiles_along(400, 50), 8);
    assert_eq!(count_tiles_along(401, 50), 9);
}

#[test]
fn tile_count_with_zero_side_saturates() {
    assert_eq!(count_tiles_along(0, 0), 0);
    assert_eq!(count_tiles_along(7, 0), u32::MAX);
}

#[test]
fn tile_count_saturates_at_u32_max() {
    let huge = (u32::MAX as usize) * 3;
    assert_eq!(count_tiles_along(huge, 1), u32::MAX);
}

#[test]
fn frame_buffer_new_is_black_and_tiled() {
    let fb = FrameBuffer::new(120, 70);
    assert_eq!(FRAME_TILE_SIDE, 50);
    assert_eq!(fb.tiles_count_total, 6);
    let pixels = fb.get_pixels();
    assert_eq!(pixels.len(), 120 * 70);
    assert!(pixels.iter().all(|p| *p == 0));
}

#[test]
fn frame_buffer_empty_frame_has_no_tiles() {
    let fb = FrameBuffer::new(0, 70);
    assert_eq!(fb.tiles_count_total, 0);
    assert_eq!(fb.get_pixels().len(), 0);
    assert!(fb.get_tiles().is_empty());
}

#[test]
fn frame_buffer_write_then_read() {
    let mut fb = FrameBuffer::new(4, 3);
    fb.write_pixel(2, 1, 0x00AB_CDEF);
    let pixels = fb.get_pixels();
    assert_eq!(pixels[1 * 4 + 2], 0x00AB_CDEF);
    for (k, p) in pixels.iter().enumerate() {
        if k != 6 {
            assert_eq!(*p, 0);
        }
    }
    fb.write_pixel(2, 1, 7);
    assert_eq!(fb.get_pixels()[6], 7);
}

#[test]
fn frame_buffer_get_tiles_square_frame() {
    let fb = FrameBuffer::new(120, 120);
    let tiles = fb.get_tiles();
    assert_eq!(tiles.len(), 9);
    let last = &tiles[8];
    assert_eq!((last.index, last.x, last.y, last.width, last.height), (8, 100, 100, 20, 20));
    let middle = &tiles[4];
    assert_eq!((middle.x, middle.y, middle.width, middle.height), (50, 50, 50, 50));
}

#[test]
fn frame_buffer_get_tiles_wide_frame() {
    let fb = FrameBuffer::new(100, 50);
    let tiles = fb.get_tiles();
    let got: Vec<(u32, u32, u32, u32, u32)> =
        tiles.iter().map(|t| (t.index, t.x, t.y, t.width, t.height)).collect();
    assert_eq!(got, vec![(0, 0, 0, 50, 50), (1, 50, 0, 50, 50)]);
}

#[test]
fn frame_buffer_get_tiles_narrow_frame() {
    let fb = FrameBuffer::new(40, 120);
    let tiles = fb.get_tiles();
    let got: Vec<(u32, u32, u32, u32, u32)> =
        tiles.iter().map(|t| (t.index, t.x, t.y, t.width, t.height)).collect();
    assert_eq!(got, vec![(0, 0, 0, 40, 50), (1, 0, 50, 40, 50), (2, 0, 100, 40, 20)]);
}

#[test]
fn frame_buffer_tiles_partition_frame() {
    for (w, h) in [(100usize, 50usize), (40, 120), (120, 70), (1, 1), (51, 149)] {
        let fb = FrameBuffer::new(w, h);
        assert_eq!(fb.tiles_count_total(), fb.tiles_count_total);
        let mut hits = vec![0u32; w * h];
        for tile in fb.get_tiles() {
            for y in tile.y..tile.y + tile.height {
                for x in tile.x..tile.x + tile.width {
                    assert!((x as usize) < w && (y as usize) < h);
                    hits[y as usize * w + x as usize] += 1;
                }
            }
        }
        assert!(hits.iter().all(|c| *c == 1));
    }
}

fn manager(width: usize, height: usize) -> (FrameBuffer, TileManager) {
    let fb = FrameBuffer::new(width, height);
    let tm = TileManager::new(50, 50, &fb);
    (fb, tm)
}

#[test]
fn tile_manager_tiles_in_row_order() {
    let (_fb, tm) = manager(120, 70);
    assert_eq!(tm.tiles_count_total, 6);
    let tiles = tm.get_tiles_iter();
    let got: Vec<(u32, u32, u32, u32, u32)> =
        tiles.iter().map(|t| (t.index, t.x, t.y, t.width, t.height)).collect();
    assert_eq!(
        got,
        vec![
            (0, 0, 0, 50, 50),
            (1, 50, 0, 50, 50),
            (2, 100, 0, 20, 50),
            (3, 0, 50, 50, 20),
            (4, 50, 50, 50, 20),
            (5, 100, 50, 20, 20),
        ]
    );
}

#[test]
fn tile_manager_tiles_partition_frame() {
    for (w, h) in [(120usize, 70usize), (50, 50), (1, 1), (99, 151), (200, 3)] {
        let (_fb, tm) = manager(w, h);
        let mut hits = vec![0u32; w * h];
        for tile in tm.get_tiles_iter() {
            for (x, y) in tile.pixels_iter() {
                assert!((x as usize) < w && (y as usize) < h);
                hits[y as usize * w + x as usize] += 1;
            }
        }
        assert!(hits.iter().all(|c| *c == 1));
    }
}

#[test]
fn tile_pixels_row_by_row() {
    let tile = Tile::new(7, 10, 20, 3, 2);
    assert_eq!(tile.index, 7);
    assert_eq!(
        tile.pixels_iter(),
        vec![(10, 20), (11, 20), (12, 20), (10, 21), (11, 21), (12, 21)]
    );
    assert!(Tile::new(0, 5, 5, 0, 4).pixels_iter().is_empty());
    assert!(Tile::new(0, 5, 5, 4, 0).pixels_iter().is_empty());
}

#[test]
fn tile_borders_order() {
    let tile = Tile::new(0, 0, 0, 3, 3);
    assert_eq!(
        tile.borders_iter(),
        vec![(0, 0), (1, 0), (2, 0), (2, 1), (0, 2), (1, 2), (2, 2), (0, 1)]
    );
}

#[test]
fn tile_borders_thin_tiles() {
    // One row: top and bottom edges coincide.
    assert_eq!(Tile::new(0, 4, 9, 2, 1).borders_iter(), vec![(4, 9), (5, 9), (4, 9), (5, 9)]);
    // Two rows: no side pixels.
    assert_eq!(Tile::new(0, 0, 0, 2, 2).borders_iter(), vec![(0, 0), (1, 0), (0, 1), (1, 1)]);
    // One column of four rows.
    assert_eq!(
        Tile::new(0, 3, 0, 1, 4).borders_iter(),
        vec![(3, 0), (3, 1), (3, 2), (3, 3), (3, 1), (3, 2)]
    );
}

#[test]
fn border_mark_color_is_gamma_corrected_orange() {
    let to_byte = |c: f64| -> u32 {
        let g = if c > 0.0 { c.sqrt() } else { 0.0 };
        (256.0 * g.clamp(0.0, 0.999)) as u32
    };
    let expected = (to_byte(1.0) << 16) | (to_byte(0.65) << 8) | to_byte(0.0);
    assert_eq!(BORDER_MARK_COLOR, expected);
    assert_eq!(BORDER_MARK_COLOR, 0x00FF_CE00);
}

#[test]
fn render_borders_marks_outlines_of_tiles_in_flight() {
    let (_fb, mut tm) = manager(120, 70);
    let tiles = tm.get_tiles_iter();
    let mut buffer = vec![1u32; 120 * 70];
    tm.render_current_tiles_borders(&mut buffer);
    assert!(buffer.iter().all(|p| *p == 1));

    tm.start_tile(&tiles[5]);
    tm.start_tile(&tiles[0]);
    tm.render_current_tiles_borders(&mut buffer);
    for y in 0..70u32 {
        for x in 0..120u32 {
            let on_tile0 = x < 50 && y < 50 && (x == 0 || x == 49 || y == 0 || y == 49);
            let on_tile5 = x >= 100 && y >= 50 && (x == 100 || x == 119 || y == 50 || y == 69);
            let expected = if on_tile0 || on_tile5 { BORDER_MARK_COLOR } else { 1 };
            assert_eq!(buffer[(y * 120 + x) as usize], expected, "pixel {x},{y}");
        }
    }
}

#[test]
fn finish_tile_stops_marking() {
    let (_fb, mut tm) = manager(120, 70);
    let tiles = tm.get_tiles_iter();
    tm.start_tile(&tiles[1]);
    tm.start_tile(&tiles[1]);
    tm.finish_tile(&tiles[1]);
    let mut buffer = vec![0u32; 120 * 70];
    tm.render_current_tiles_borders(&mut buffer);
    assert!(buffer.iter().all(|p| *p == 0));
    // finishing a tile that is not in flight changes nothing
    tm.finish_tile(&tiles[2]);
    tm.render_current_tiles_borders(&mut buffer);
    assert!(buffer.iter().all(|p| *p == 0));
}

#[test]
fn frame_tiles_match_manager() {
    for (w, h) in [(230usize, 210usize), (100, 50), (40, 120), (7, 300)] {
        let fb = FrameBuffer::new(w, h);
        let tm = TileManager::new(FRAME_TILE_SIDE, FRAME_TILE_SIDE, &fb);
        assert_eq!(tm.tiles_count_total(), tm.tiles_count_total);
        let a = fb.get_tiles();
        let b = tm.get_tiles_iter();
        assert_eq!(a.len(), b.len());
        for (s, t) in a.iter().zip(b.iter()) {
            assert_eq!((s.index, s.x, s.y, s.width, s.height), (t.index, t.x, t.y, t.width, t.height));
        }
    }
}
