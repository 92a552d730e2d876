use bresenham::Bresenham;
use geometry_drawer::{DrawError, GeometryDrawer};

fn canvas_with(points: &[(usize, usize)], value: u32) -> Vec<u32> {
    let mut expected = vec![0u32; 100];
    for &(x, y) in points {
        expected[y * 10 + x] = value;
    }
    expected
}

fn drawn(sx: usize, sy: usize, ex: usize, ey: usize) -> Vec<u32> {
    let drawer = GeometryDrawer::new(10);
    let mut buf = vec![0u32; 100];
    assert_eq!(drawer.draw_line(&mut buf, sx, sy, ex, ey, 9), Ok(()));
    buf
}

#[test]
fn degenerate_line_writes_one_pixel() {
    let buf = drawn(3, 7, 3, 7);
    assert_eq!(buf, canvas_with(&[(3, 7)], 9));
    assert_eq!(buf.iter().filter(|&&p| p != 0).count(), 1);
}

#[test]
fn degenerate_line_outside_is_rejected() {
    let drawer = GeometryDrawer::new(10);
    let mut buf = vec![0u32; 100];
    assert_eq!(drawer.draw_line(&mut buf, 3, 10, 3, 10, 9), Err(DrawError::OutOfBounds(3, 10)));
    assert_eq!(buf, vec![0u32; 100]);
}

#[test]
fn diagonal_line_sets_five_pixels() {
    assert_eq!(drawn(0, 0, 4, 4), canvas_with(&[(0, 0), (1, 1), (2, 2), (3, 3), (4, 4)], 9));
}

#[test]
fn diagonal_line_is_symmetric_in_its_ends() {
    assert_eq!(drawn(4, 4, 0, 0), drawn(0, 0, 4, 4));
    assert_eq!(drawn(6, 1, 2, 5), drawn(2, 5, 6, 1));
    assert_eq!(drawn(2, 5, 6, 1), canvas_with(&[(2, 5), (3, 4), (4, 3), (5, 2), (6, 1)], 9));
}

#[test]
fn axis_aligned_line_is_symmetric_in_its_ends() {
    assert_eq!(drawn(2, 3, 7, 3), canvas_with(&[(2, 3), (3, 3), (4, 3), (5, 3), (6, 3), (7, 3)], 9));
    assert_eq!(drawn(7, 3, 2, 3), drawn(2, 3, 7, 3));
    assert_eq!(drawn(4, 1, 4, 5), canvas_with(&[(4, 1), (4, 2), (4, 3), (4, 4), (4, 5)], 9));
    assert_eq!(drawn(4, 5, 4, 1), drawn(4, 1, 4, 5));
}

#[test]
fn straight_lines_run_in_all_eight_directions() {
    let ends = [(8, 5), (8, 8), (5, 8), (2, 8), (2, 5), (2, 2), (5, 2), (8, 2)];
    for &(ex, ey) in ends.iter() {
        let mut points = Vec::new();
        for k in 0..4i32 {
            let x = 5 + k * (ex as i32 - 5).signum();
            let y = 5 + k * (ey as i32 - 5).signum();
            points.push((x as usize, y as usize));
        }
        assert_eq!(drawn(5, 5, ex, ey), canvas_with(&points, 9));
    }
}

#[test]
fn shallow_line_follows_the_walk_and_adds_its_end() {
    assert_eq!(
        drawn(0, 1, 6, 4),
        canvas_with(&[(0, 1), (1, 1), (2, 2), (3, 2), (4, 3), (5, 3), (6, 4)], 9)
    );
}

#[test]
fn steep_line_backwards_follows_the_walk_and_adds_its_end() {
    assert_eq!(
        drawn(4, 6, 1, 0),
        canvas_with(&[(4, 6), (4, 5), (3, 4), (3, 3), (2, 2), (2, 1), (1, 0)], 9)
    );
}

#[test]
fn line_sets_the_positions_of_the_walk_and_the_end() {
    let cases = [(0usize, 0usize, 9usize, 3usize), (9, 9, 0, 6), (1, 8, 3, 0), (7, 0, 2, 9), (5, 5, 6, 9)];
    for &(sx, sy, ex, ey) in cases.iter() {
        let mut expected = vec![0u32; 100];
        for (x, y) in Bresenham::new((sx as isize, sy as isize), (ex as isize, ey as isize)) {
            expected[y as usize * 10 + x as usize] = 9;
        }
        expected[ey * 10 + ex] = 9;
        assert_eq!(drawn(sx, sy, ex, ey), expected);
    }
}

#[test]
fn line_stops_at_first_pixel_outside() {
    let drawer = GeometryDrawer::new(10);
    let mut buf = vec![0u32; 100];
    assert_eq!(drawer.draw_line(&mut buf, 0, 8, 0, 12, 9), Err(DrawError::OutOfBounds(0, 10)));
    assert_eq!(buf, canvas_with(&[(0, 8), (0, 9)], 9));
}

#[test]
fn line_whose_end_alone_is_outside_draws_the_rest() {
    let drawer = GeometryDrawer::new(10);
    let mut buf = vec![0u32; 100];
    assert_eq!(drawer.draw_line(&mut buf, 5, 7, 5, 10, 9), Err(DrawError::OutOfBounds(5, 10)));
    assert_eq!(buf, canvas_with(&[(5, 7), (5, 8), (5, 9)], 9));
}

#[test]
fn line_starting_outside_draws_nothing() {
    let drawer = GeometryDrawer::new(10);
    let mut buf = vec![0u32; 100];
    assert_eq!(drawer.draw_line(&mut buf, 2, 11, 2, 3, 9), Err(DrawError::OutOfBounds(2, 11)));
    assert_eq!(buf, vec![0u32; 100]);
}

#[test]
fn line_between_the_largest_coordinates() {
    let drawer = GeometryDrawer::new(10);
    let mut buf = vec![0u32; 100];
    let far = isize::MAX as usize;
    assert_eq!(
        drawer.draw_line(&mut buf, far, far, 0, 0, 9),
        Err(DrawError::OutOfBounds(far as i128, far as i128))
    );
    assert_eq!(drawer.draw_line(&mut buf, 0, 0, far, 0, 9), Err(DrawError::OutOfBounds(100, 0)));
    assert_eq!(buf, vec![9u32; 100]);
}

#[test]
fn bent_line_inside_the_buffer_succeeds() {
    assert_eq!(drawn(0, 0, 3, 1), canvas_with(&[(0, 0), (1, 0), (2, 0), (3, 1)], 9));
    assert_eq!(drawn(3, 1, 0, 0), canvas_with(&[(3, 1), (2, 1), (1, 1), (0, 0)], 9));
    let ends = [(0usize, 0usize), (9, 9), (0, 9), (9, 0), (4, 7), (7, 2)];
    let drawer = GeometryDrawer::new(10);
    for &(sx, sy) in ends.iter() {
        for &(ex, ey) in ends.iter() {
            let mut buf = vec![0u32; 100];
            assert_eq!(drawer.draw_line(&mut buf, sx, sy, ex, ey, 9), Ok(()));
            assert_eq!(buf[sy * 10 + sx], 9);
            assert_eq!(buf[ey * 10 + ex], 9);
            let steps = sx.abs_diff(ex).max(sy.abs_diff(ey));
            assert_eq!(buf.iter().filter(|&&p| p == 9).count(), steps + 1);
            for y in 0..10 {
                for x in 0..10 {
                    if buf[y * 10 + x] == 9 {
                        assert!(sx.min(ex) <= x && x <= sx.max(ex));
                        assert!(sy.min(ey) <= y && y <= sy.max(ey));
                    }
                }
            }
        }
    }
}

#[test]
fn degenerate_line_needs_no_small_coordinates() {
    // With rows of no width every row is the same one: the pixel is found
    // by its column alone, however large the row.
    let drawer = GeometryDrawer::new(0);
    let mut buf = vec![0u32; 4];
    assert_eq!(drawer.draw_line(&mut buf, 2, usize::MAX, 2, usize::MAX, 9), Ok(()));
    assert_eq!(buf, vec![0, 0, 9, 0]);
    let drawer = GeometryDrawer::new(10);
    let mut buf = vec![0u32; 100];
    assert_eq!(
        drawer.draw_line(&mut buf, usize::MAX, 5, usize::MAX, 5, 9),
        Err(DrawError::OutOfBounds(usize::MAX as i128, 5))
    );
    assert_eq!(buf, vec![0u32; 100]);
}
