use word_search::types::{Color, ColoredMatrix, Direction, Matrix, Point};

#[test]
fn point_new_and_equality() {
    let p = Point::new(2, 5);
    assert_eq!(p.x, 2);
    assert_eq!(p.y, 5);
    assert_eq!(p, Point::new(2, 5));
    assert_ne!(p, Point::new(5, 2));
}

#[test]
fn matrix_starts_empty_and_remembers_cells() {
    let mut m: Matrix<char> = Matrix::new(2, 3);
    assert_eq!(m.rows, 2);
    assert_eq!(m.cols, 3);
    assert!(m.get(1, 2).is_none());
    m.set(1, 2, 'Z');
    assert_eq!(*m.get(1, 2), Some('Z'));
    assert!(m.get(0, 0).is_none());
}

#[test]
fn matrix_get_mut_updates_in_place() {
    let mut m: Matrix<u32> = Matrix::new(1, 1);
    *m.get_mut(0, 0) = Some(7);
    assert_eq!(*m.get(0, 0), Some(7));
}

#[test]
fn has_indices_matches_bounds() {
    let m: Matrix<char> = Matrix::new(2, 3);
    assert!(m.has_indices(0, 0));
    assert!(m.has_indices(1, 2));
    assert!(!m.has_indices(2, 0));
    assert!(!m.has_indices(0, 3));
}

#[test]
fn direction_predicates_follow_the_compass() {
    assert!(Direction::Leftwards.is_leftwards());
    assert!(Direction::LeftDownwards.is_leftwards());
    assert!(Direction::LeftUpwards.is_leftwards());
    assert!(!Direction::Rightwards.is_leftwards());

    assert!(Direction::Rightwards.is_rightwards());
    assert!(Direction::RightDownwards.is_rightwards());
    assert!(Direction::RightUpwards.is_rightwards());
    assert!(!Direction::Upwards.is_rightwards());

    assert!(Direction::Downwards.is_downwards());
    assert!(Direction::LeftDownwards.is_downwards());
    assert!(Direction::RightDownwards.is_downwards());
    assert!(!Direction::Leftwards.is_downwards());

    assert!(Direction::Upwards.is_upwards());
    assert!(Direction::LeftUpwards.is_upwards());
    assert!(Direction::RightUpwards.is_upwards());
    assert!(!Direction::Downwards.is_upwards());

    assert!(Direction::Downwards.is_horizontally_static());
    assert!(Direction::Upwards.is_horizontally_static());
    assert!(!Direction::LeftUpwards.is_horizontally_static());

    assert!(Direction::Leftwards.is_vertically_static());
    assert!(Direction::Rightwards.is_vertically_static());
    assert!(!Direction::RightDownwards.is_vertically_static());
}

#[test]
fn direction_priority_order_is_fixed() {
    let expected = [
        Direction::Leftwards,
        Direction::Rightwards,
        Direction::Downwards,
        Direction::Upwards,
        Direction::LeftDownwards,
        Direction::RightDownwards,
        Direction::LeftUpwards,
        Direction::RightUpwards,
    ];
    for (i, d) in expected.iter().enumerate() {
        assert_eq!(Direction::order(i), *d);
    }
}

#[test]
fn plain_color_wraps_to_the_text_itself() {
    let c = Color::plain();
    assert!(c.is_plain());
    assert_eq!(c.wrap(&"word".to_string()), "word");
}

#[test]
fn colored_wrap_builds_the_ansi_escape() {
    let c = Color::palette(0);
    assert!(!c.is_plain());
    assert_eq!(c.wrap(&"hi".to_string()), "\x1b[1;38;5;10mhi\x1b[0m");
    let orange = Color::palette(8);
    assert_eq!(orange.wrap(&"x".to_string()), "\x1b[1;38;5;202mx\x1b[0m");
}

#[test]
fn random_color_is_one_of_the_palette() {
    let palette: Vec<Color> = (0..9).map(Color::palette).collect();
    for _ in 0..50 {
        let c = Color::random();
        assert!(!c.is_plain());
        assert!(palette.contains(&c));
    }
}

#[test]
fn colorize_paints_the_walk_and_nothing_else() {
    let m: Matrix<char> = Matrix::new(3, 3);
    let mut cm = ColoredMatrix::new(&m);
    let color = Color::palette(2);
    cm.colorize(Point::new(0, 0), Direction::RightDownwards, 3, color);
    for i in 0..3usize {
        for j in 0..3usize {
            if i == j {
                assert_eq!(cm.color_at(i, j), color);
            } else {
                assert!(cm.color_at(i, j).is_plain());
            }
        }
    }
}

#[test]
fn colorize_leftwards_walks_back_along_the_row() {
    let m: Matrix<char> = Matrix::new(2, 3);
    let mut cm = ColoredMatrix::new(&m);
    let color = Color::palette(1);
    cm.colorize(Point::new(0, 2), Direction::Leftwards, 2, color);
    assert_eq!(cm.color_at(0, 2), color);
    assert_eq!(cm.color_at(0, 1), color);
    assert!(cm.color_at(0, 0).is_plain());
    assert!(cm.color_at(1, 2).is_plain());
}
