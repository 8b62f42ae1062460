use billow::Direction;

#[test]
fn test_reverse() {
    assert_eq!(Direction::Up.reverse(), Direction::Down);
    assert_eq!(Direction::Right.reverse(), Direction::Left);
    assert_eq!(Direction::Down.reverse(), Direction::Up);
    assert_eq!(Direction::Left.reverse(), Direction::Right);
}

#[test]
fn direction_test_display() {
    assert_eq!(Direction::Up.to_string(), "up");
    assert_eq!(Direction::Right.to_string(), "right");
    assert_eq!(Direction::Down.to_string(), "down");
    assert_eq!(Direction::Left.to_string(), "left");
}

#[test]
fn test_as_usize() {
    assert_eq!(Direction::Up as usize, 0);
    assert_eq!(Direction::Right as usize, 1);
    assert_eq!(Direction::Down as usize, 2);
    assert_eq!(Direction::Left as usize, 3);
}

#[test]
fn all_in_canonical_order() {
    let dirs = Direction::all();
    assert_eq!(dirs.len(), 4);
    assert_eq!(dirs[0], Direction::Up);
    assert_eq!(dirs[1], Direction::Right);
    assert_eq!(dirs[2], Direction::Down);
    assert_eq!(dirs[3], Direction::Left);
}

#[test]
fn index_matches_ordinal() {
    for dir in Direction::all() {
        assert_eq!(dir.index(), dir as usize);
    }
}
