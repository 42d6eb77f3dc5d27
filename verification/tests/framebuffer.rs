use term_raster::math::{Triangle, Vector2};
use term_raster::rasterizer::{CharacterType, Framebuffer};

fn cell(fb: &Framebuffer, x: usize, y: usize) -> char {
    fb.get(Vector2::new(x, y)).unwrap_or(' ')
}

#[test]
fn new_buffer_blank() {
    let fb = Framebuffer::new(4, 3);
    assert_eq!(fb.width, 4);
    assert_eq!(fb.height, 3);
    assert_eq!(fb.data.len(), 12);
    assert!(fb.data.iter().all(|&c| c == ' '));
}

#[test]
fn set_get_round_trip() {
    let mut fb = Framebuffer::new(4, 3);
    fb.set(Vector2::new(1, 2), 'x');
    assert_eq!(fb.get(Vector2::new(1, 2)), Some('x'));
    assert_eq!(fb.get(Vector2::new(2, 1)), Some(' '));
}

#[test]
fn get_past_right_edge_is_none() {
    let fb = Framebuffer::new(4, 3);
    assert_eq!(fb.get(Vector2::new(4, 0)), None);
    assert_eq!(fb.get(Vector2::new(0, 3)), None);
}

#[test]
fn set_past_right_edge_no_mutation() {
    let mut fb = Framebuffer::new(4, 3);
    let snapshot = fb.data.clone();
    fb.set(Vector2::new(4, 0), 'x');
    assert_eq!(fb.data, snapshot);
}

#[test]
fn character_type_symbols() {
    assert_eq!(CharacterType::Flat.as_char(), '#');
    assert_eq!(CharacterType::LightlyShaded.as_char(), '@');
}

#[test]
fn horizontal_line_row() {
    let mut fb = Framebuffer::new(10, 3);
    fb.draw_line(Vector2::new(0, 0), Vector2::new(5, 0), '#');
    for y in 0..3 {
        for x in 0..10 {
            let expected = if y == 0 && x <= 5 { '#' } else { ' ' };
            assert_eq!(cell(&fb, x, y), expected, "cell ({}, {})", x, y);
        }
    }
}

#[test]
fn vertical_line_column() {
    let mut fb = Framebuffer::new(4, 8);
    fb.draw_line(Vector2::new(2, 5), Vector2::new(2, 1), '#');
    for y in 0..8 {
        for x in 0..4 {
            let expected = if x == 2 && (1..=5).contains(&y) { '#' } else { ' ' };
            assert_eq!(cell(&fb, x, y), expected, "cell ({}, {})", x, y);
        }
    }
}

#[test]
fn diagonal_line_cells() {
    let mut fb = Framebuffer::new(6, 6);
    fb.draw_line(Vector2::new(4, 0), Vector2::new(0, 4), '#');
    let expected = [(4, 0), (3, 1), (2, 2), (1, 3), (0, 4)];
    for y in 0..6 {
        for x in 0..6 {
            let hit = expected.contains(&(x, y));
            assert_eq!(cell(&fb, x, y), if hit { '#' } else { ' ' }, "cell ({}, {})", x, y);
        }
    }
}

#[test]
fn wireframe_triangle_edges() {
    let mut fb = Framebuffer::new(10, 10);
    let t = Triangle::new(Vector2::new(0, 0), Vector2::new(4, 0), Vector2::new(0, 4));
    fb.draw_wireframe_triangle(t);
    for y in 0..10 {
        for x in 0..10 {
            let on_row = y == 0 && x <= 4;
            let on_col = x == 0 && y <= 4;
            let on_diag = x + y == 4 && x <= 4;
            let expected = if on_row || on_col || on_diag { '#' } else { ' ' };
            assert_eq!(cell(&fb, x, y), expected, "cell ({}, {})", x, y);
        }
    }
}

#[test]
fn right_triangle_fill_exact() {
    let mut fb = Framebuffer::new(10, 10);
    let t = Triangle::new(Vector2::new(0, 0), Vector2::new(4, 0), Vector2::new(0, 4));
    fb.draw_filled_triangle(t);
    for y in 0..10 {
        for x in 0..10 {
            let filled = y <= 4 && x + y <= 4;
            assert_eq!(cell(&fb, x, y), if filled { '#' } else { ' ' }, "cell ({}, {})", x, y);
        }
    }
}

#[test]
fn right_triangle_fill_permuted_vertices() {
    let mut fb = Framebuffer::new(10, 10);
    let t = Triangle::new(Vector2::new(0, 4), Vector2::new(4, 0), Vector2::new(0, 0));
    fb.draw_filled_triangle(t);
    for y in 0..10 {
        for x in 0..10 {
            let filled = y <= 4 && x + y <= 4;
            assert_eq!(cell(&fb, x, y), if filled { '#' } else { ' ' }, "cell ({}, {})", x, y);
        }
    }
}

#[test]
fn degenerate_triangle_single_cell() {
    let mut fb = Framebuffer::new(10, 10);
    let v = Vector2::new(5, 5);
    fb.draw_filled_triangle(Triangle::new(v, v, v));
    for y in 0..10 {
        for x in 0..10 {
            let filled = x == 5 && y == 5;
            assert_eq!(cell(&fb, x, y), if filled { '#' } else { ' ' }, "cell ({}, {})", x, y);
        }
    }
}

#[test]
fn two_triangle_rectangle_coverage() {
    let mut fb = Framebuffer::new(60, 25);
    let a = Triangle::new(Vector2::new(30, 6), Vector2::new(30, 18), Vector2::new(50, 18));
    let b = Triangle::new(Vector2::new(30, 18), Vector2::new(50, 6), Vector2::new(50, 18));
    fb.draw_triangle_list_filled(vec![a, b]);
    // Every painted cell lies in the rectangle spanned by the vertices.
    for y in 0..25 {
        for x in 0..60 {
            if cell(&fb, x, y) == '#' {
                assert!((30..=50).contains(&x) && (6..=18).contains(&y), "cell ({}, {})", x, y);
            }
        }
    }
    // The lower half of the rectangle is covered without gaps.
    for y in 12..=18 {
        for x in 30..=50 {
            assert_eq!(cell(&fb, x, y), '#', "cell ({}, {})", x, y);
        }
    }
    // Near the top only the cells next to the two upper vertices are hit:
    // the scanline spans of the two triangles do not meet there.
    assert_eq!(cell(&fb, 30, 7), '#');
    assert_eq!(cell(&fb, 31, 7), '#');
    assert_eq!(cell(&fb, 35, 7), ' ');
    assert_eq!(cell(&fb, 48, 7), '#');
    assert_eq!(cell(&fb, 50, 7), '#');
}

#[test]
fn painter_order_overwrites() {
    let mut fb = Framebuffer::new(12, 12);
    let small = Triangle::new(Vector2::new(1, 1), Vector2::new(3, 1), Vector2::new(1, 3));
    let big = Triangle::new(Vector2::new(0, 0), Vector2::new(8, 0), Vector2::new(0, 8));
    fb.draw_triangle_list_filled(vec![small, big]);
    // The later, larger triangle covers the earlier one entirely.
    for y in 0..12 {
        for x in 0..12 {
            let filled = y <= 8 && x + y <= 8;
            assert_eq!(cell(&fb, x, y), if filled { '#' } else { ' ' }, "cell ({}, {})", x, y);
        }
    }
}

#[test]
fn render_text_layout() {
    let mut fb = Framebuffer::new(3, 2);
    fb.set(Vector2::new(1, 0), '#');
    let text: String = fb.render_text().into_iter().collect();
    assert_eq!(text, " # \n   \n");
}

#[test]
fn from_terminal_well_formed() {
    let fb = Framebuffer::from_terminal();
    assert!(fb.width <= u16::MAX as usize);
    assert!(fb.height <= u16::MAX as usize);
    assert_eq!(fb.data.len(), fb.width * fb.height);
    assert!(fb.data.iter().all(|&c| c == ' '));
}

#[test]
fn terminal_size_bounded() {
    let size = Framebuffer::get_terminal_size();
    assert!(size.x <= u16::MAX as usize);
    assert!(size.y <= u16::MAX as usize);
}
