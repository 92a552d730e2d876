use geometry_drawer::{DrawError, GeometryDrawer};

fn ring(width: usize, len: usize, center: (i64, i64), offsets: &[(i64, i64)], value: u32) -> Vec<u32> {
    let mut expected = vec![0u32; len];
    for &(dx, dy) in offsets {
        for &(a, b) in [(dx, dy), (dy, dx)].iter() {
            for &(sa, sb) in [(1, 1), (1, -1), (-1, 1), (-1, -1)].iter() {
                let x = (center.0 + sa * a) as usize;
                let y = (center.1 + sb * b) as usize;
                expected[y * width + x] = value;
            }
        }
    }
    expected
}

#[test]
fn circle_of_radius_three() {
    let drawer = GeometryDrawer::new(20);
    let mut buf = vec![0u32; 400];
    assert_eq!(drawer.draw_circle(&mut buf, 5, 5, 3, 0xff), Ok(()));
    assert_eq!(buf, ring(20, 400, (5, 5), &[(0, 3), (1, 3), (2, 2)], 0xff));
    assert_eq!(buf.iter().filter(|&&p| p == 0xff).count(), 16);
}

#[test]
fn circle_of_radius_three_sets_the_full_ring() {
    let drawer = GeometryDrawer::new(20);
    let mut buf = vec![0u32; 400];
    assert_eq!(drawer.draw_circle(&mut buf, 5, 5, 3, 9), Ok(()));
    let set = [44, 45, 46, 63, 67, 82, 88, 102, 108, 122, 128, 143, 147, 164, 165, 166];
    for i in 0..400 {
        let expected = if set.contains(&i) { 9 } else { 0 };
        assert_eq!(buf[i], expected);
    }
}

#[test]
fn circle_has_no_gap_on_the_axes() {
    let drawer = GeometryDrawer::new(20);
    let mut buf = vec![0u32; 400];
    assert_eq!(drawer.draw_circle(&mut buf, 5, 5, 3, 9), Ok(()));
    assert_eq!(buf[2 * 20 + 5], 9);
    assert_eq!(buf[8 * 20 + 5], 9);
    assert_eq!(buf[5 * 20 + 2], 9);
    assert_eq!(buf[5 * 20 + 8], 9);
    for radius in 1..9usize {
        let mut buf = vec![0u32; 400];
        assert_eq!(drawer.draw_circle(&mut buf, 10, 10, radius, 4), Ok(()));
        assert_eq!(buf[(10 - radius) * 20 + 10], 4);
        assert_eq!(buf[(10 + radius) * 20 + 10], 4);
        assert_eq!(buf[10 * 20 + 10 - radius], 4);
        assert_eq!(buf[10 * 20 + 10 + radius], 4);
        assert_eq!(buf[10 * 20 + 10], 0);
    }
}

#[test]
fn circle_is_symmetric_in_all_eight_octants() {
    let drawer = GeometryDrawer::new(20);
    let mut buf = vec![0u32; 400];
    assert_eq!(drawer.draw_circle(&mut buf, 5, 5, 3, 1), Ok(()));
    let at = |dx: i64, dy: i64| buf[((5 + dy) * 20 + (5 + dx)) as usize];
    for dx in -5..=5 {
        for dy in -5..=5 {
            let here = at(dx, dy);
            assert_eq!(at(-dx, dy), here);
            assert_eq!(at(dx, -dy), here);
            assert_eq!(at(-dx, -dy), here);
            assert_eq!(at(dy, dx), here);
            assert_eq!(at(-dy, dx), here);
            assert_eq!(at(dy, -dx), here);
            assert_eq!(at(-dy, -dx), here);
        }
    }
    // The arcs of two octants meet on each diagonal and on each axis.
    assert_eq!(at(2, 2), 1);
    assert_eq!(at(-2, 2), 1);
    assert_eq!(at(2, -2), 1);
    assert_eq!(at(-2, -2), 1);
    assert_eq!(at(0, 3), 1);
    assert_eq!(at(0, -3), 1);
    assert_eq!(at(3, 0), 1);
    assert_eq!(at(-3, 0), 1);
}

#[test]
fn circle_of_radius_six() {
    let drawer = GeometryDrawer::new(20);
    let mut buf = vec![0u32; 400];
    assert_eq!(drawer.draw_circle(&mut buf, 10, 10, 6, 2), Ok(()));
    assert_eq!(
        buf,
        ring(20, 400, (10, 10), &[(0, 6), (1, 6), (2, 5), (3, 5), (4, 4), (5, 3)], 2)
    );
}

#[test]
fn circle_of_radius_one() {
    let drawer = GeometryDrawer::new(20);
    let mut buf = vec![0u32; 400];
    assert_eq!(drawer.draw_circle(&mut buf, 5, 5, 1, 2), Ok(()));
    assert_eq!(buf, ring(20, 400, (5, 5), &[(0, 1)], 2));
    assert_eq!(buf.iter().filter(|&&p| p == 2).count(), 4);
}

#[test]
fn circle_of_radius_zero() {
    // The center is its own axis point; the one step of the walk lands on
    // its four diagonal neighbors.
    let drawer = GeometryDrawer::new(20);
    let mut buf = vec![0u32; 400];
    assert_eq!(drawer.draw_circle(&mut buf, 5, 5, 0, 9), Ok(()));
    assert_eq!(buf[105], 9);
    assert_eq!(buf, ring(20, 400, (5, 5), &[(0, 0), (1, -1)], 9));
    assert_eq!(buf.iter().filter(|&&p| p == 9).count(), 5);
}

#[test]
fn circle_touching_the_edges_of_the_buffer_fits() {
    let drawer = GeometryDrawer::new(7);
    let mut buf = vec![0u32; 49];
    assert_eq!(drawer.draw_circle(&mut buf, 3, 3, 3, 5), Ok(()));
    assert_eq!(buf, ring(7, 49, (3, 3), &[(0, 3), (1, 3), (2, 2)], 5));
}

#[test]
fn circle_reaching_above_the_buffer_is_rejected() {
    // The axis points come first: (1, 4), then (1, -2).
    let drawer = GeometryDrawer::new(20);
    let mut buf = vec![0u32; 400];
    assert_eq!(drawer.draw_circle(&mut buf, 1, 1, 3, 9), Err(DrawError::OutOfBounds(1, -2)));
    let mut expected = vec![0u32; 400];
    expected[4 * 20 + 1] = 9;
    assert_eq!(buf, expected);
}

#[test]
fn circle_reaching_left_of_the_buffer_is_rejected() {
    // About (0, 5) the axis points (0, 8), (0, 2) and (3, 5) are drawn
    // before (-3, 5) is reached.
    let drawer = GeometryDrawer::new(20);
    let mut buf = vec![0u32; 400];
    assert_eq!(drawer.draw_circle(&mut buf, 0, 5, 3, 9), Err(DrawError::OutOfBounds(-3, 5)));
    let mut expected = vec![0u32; 400];
    expected[8 * 20] = 9;
    expected[2 * 20] = 9;
    expected[5 * 20 + 3] = 9;
    assert_eq!(buf, expected);
}

#[test]
fn circle_reaching_below_the_buffer_is_rejected() {
    let drawer = GeometryDrawer::new(20);
    let mut buf = vec![0u32; 400];
    assert_eq!(drawer.draw_circle(&mut buf, 5, 18, 3, 9), Err(DrawError::OutOfBounds(5, 21)));
    assert_eq!(buf, vec![0u32; 400]);
}

#[test]
fn circle_failing_after_its_axis_points_keeps_them() {
    // In a buffer of 20 x 9 about (10, 4) the axis points of radius 4 fit;
    // the first step's image (11, 8) does too, and every later one, so the
    // circle fits as a whole. One row less and the lowest axis point fails.
    let drawer = GeometryDrawer::new(20);
    let mut buf = vec![0u32; 180];
    assert_eq!(drawer.draw_circle(&mut buf, 10, 4, 4, 3), Ok(()));
    let mut short = vec![0u32; 160];
    assert_eq!(drawer.draw_circle(&mut short, 10, 4, 4, 3), Err(DrawError::OutOfBounds(10, 8)));
    assert_eq!(short, vec![0u32; 160]);
}

#[test]
fn circle_with_the_largest_radius_is_rejected_at_once() {
    let drawer = GeometryDrawer::new(20);
    let mut buf = vec![0u32; 400];
    assert_eq!(
        drawer.draw_circle(&mut buf, usize::MAX, usize::MAX, usize::MAX, 9),
        Err(DrawError::OutOfBounds(usize::MAX as i128, 2 * (usize::MAX as i128)))
    );
    assert_eq!(buf, vec![0u32; 400]);
}
