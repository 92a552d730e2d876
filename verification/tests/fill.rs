use geometry_drawer::{DrawError, GeometryDrawer};

fn expect_box(width: usize, len: usize, xs: std::ops::Range<usize>, ys: std::ops::Range<usize>, value: u32, rest: u32) -> Vec<u32> {
    let mut expected = vec![rest; len];
    for x in xs {
        for y in ys.clone() {
            expected[y * width + x] = value;
        }
    }
    expected
}

#[test]
fn box_in_bounds_sets_exactly_its_pixels() {
    let drawer = GeometryDrawer::new(10);
    let mut buf = vec![1u32; 100];
    assert_eq!(drawer.draw_box(&mut buf, 2, 3, 5, 7, 0x00_ff_00), Ok(()));
    assert_eq!(buf, expect_box(10, 100, 2..5, 3..7, 0x00_ff_00, 1));
    assert_eq!(buf.iter().filter(|&&p| p == 0x00_ff_00).count(), 12);
}

#[test]
fn box_covering_the_buffer_sets_every_pixel() {
    let drawer = GeometryDrawer::new(4);
    let mut buf = vec![0u32; 12];
    assert_eq!(drawer.draw_box(&mut buf, 0, 0, 4, 3, 9), Ok(()));
    assert_eq!(buf, vec![9u32; 12]);
}

#[test]
fn box_of_one_pixel() {
    let drawer = GeometryDrawer::new(10);
    let mut buf = vec![0u32; 100];
    assert_eq!(drawer.draw_box(&mut buf, 4, 6, 5, 7, 2), Ok(()));
    assert_eq!(buf, expect_box(10, 100, 4..5, 6..7, 2, 0));
}

#[test]
fn empty_box_leaves_buffer_unchanged() {
    let drawer = GeometryDrawer::new(10);
    let mut buf = vec![3u32; 100];
    assert_eq!(drawer.draw_box(&mut buf, 5, 2, 5, 8, 1), Ok(()));
    assert_eq!(drawer.draw_box(&mut buf, 6, 2, 5, 8, 1), Ok(()));
    assert_eq!(drawer.draw_box(&mut buf, 2, 8, 5, 8, 1), Ok(()));
    assert_eq!(drawer.draw_box(&mut buf, 2, 9, 5, 8, 1), Ok(()));
    assert_eq!(buf, vec![3u32; 100]);
}

#[test]
fn empty_box_far_outside_is_no_error() {
    let drawer = GeometryDrawer::new(10);
    let mut buf = vec![3u32; 100];
    assert_eq!(drawer.draw_box(&mut buf, 5000, 5000, 5000, 6000, 1), Ok(()));
    assert_eq!(drawer.draw_box(&mut buf, 5000, 6000, 7000, 6000, 1), Ok(()));
    assert_eq!(buf, vec![3u32; 100]);
}

#[test]
fn box_stops_at_first_pixel_outside() {
    // Columns are filled from the left, each from the top: (8, 8), (8, 9),
    // then (8, 10), whose index 108 is past the end.
    let drawer = GeometryDrawer::new(10);
    let mut buf = vec![0u32; 100];
    assert_eq!(drawer.draw_box(&mut buf, 8, 8, 12, 12, 4), Err(DrawError::OutOfBounds(8, 10)));
    let mut expected = vec![0u32; 100];
    expected[88] = 4;
    expected[98] = 4;
    assert_eq!(buf, expected);
}

#[test]
fn box_outside_from_the_start_draws_nothing() {
    let drawer = GeometryDrawer::new(10);
    let mut buf = vec![0u32; 100];
    assert_eq!(drawer.draw_box(&mut buf, 3, 10, 5, 12, 4), Err(DrawError::OutOfBounds(3, 10)));
    assert_eq!(buf, vec![0u32; 100]);
}

#[test]
fn clear_sets_range_to_zero() {
    let drawer = GeometryDrawer::new(10);
    let mut buf = vec![0xff_ff_ffu32; 100];
    assert_eq!(drawer.screen_clear(&mut buf, 1, 2, 4, 6), Ok(()));
    for x in 1..4 {
        for y in 2..6 {
            assert_eq!(buf[y * 10 + x], 0);
        }
    }
    assert_eq!(buf, expect_box(10, 100, 1..4, 2..6, 0, 0xff_ff_ff));
}

#[test]
fn clear_equals_box_of_black() {
    let drawer = GeometryDrawer::new(7);
    let mut cleared = vec![0x12_34_56u32; 35];
    let mut boxed = cleared.clone();
    assert_eq!(drawer.screen_clear(&mut cleared, 2, 1, 9, 5), drawer.draw_box(&mut boxed, 2, 1, 9, 5, 0x00_00_00));
    assert_eq!(cleared, boxed);
    let mut cleared = vec![0x12_34_56u32; 35];
    let mut boxed = cleared.clone();
    assert_eq!(drawer.screen_clear(&mut cleared, 5, 4, 9, 9), drawer.draw_box(&mut boxed, 5, 4, 9, 9, 0));
    assert_eq!(drawer.screen_clear(&mut cleared, 5, 4, 9, 9), Err(DrawError::OutOfBounds(5, 5)));
    assert_eq!(cleared, boxed);
}

#[test]
fn clear_of_empty_range_changes_nothing() {
    let drawer = GeometryDrawer::new(10);
    let mut buf = vec![5u32; 100];
    assert_eq!(drawer.screen_clear(&mut buf, 4, 4, 4, 9), Ok(()));
    assert_eq!(buf, vec![5u32; 100]);
}
