use text_packing::{Block, Orientation, Point2d};

fn block_at(bottom_left: (i64, i64), top_right: (i64, i64)) -> Block {
    Block {
        text: String::from("M"),
        area: 100 * 100,
        top_right: Point2d { x: top_right.0, y: top_right.1 },
        bottom_left: Point2d { x: bottom_left.0, y: bottom_left.1 },
        orientation: Orientation::Horizontal,
    }
}

#[test]
fn block_inside() {
    let values = [
        // Center
        (Point2d { x: 150, y: 150 }, true),
        // North
        (Point2d { x: 150, y: 50 }, false),
        // East
        (Point2d { x: 250, y: 150 }, false),
        // South
        (Point2d { x: 150, y: 350 }, false),
        // West
        (Point2d { x: 50, y: 150 }, false),
    ];
    let block = block_at((100, 200), (200, 100));
    for (p, expected) in &values {
        assert_eq!(block.is_inside(p), *expected);
    }
}

#[test]
fn inside_excludes_the_border() {
    let block = block_at((100, 200), (200, 100));
    assert!(!block.is_inside(&Point2d { x: 100, y: 150 }));
    assert!(!block.is_inside(&Point2d { x: 150, y: 100 }));
    assert!(block.is_inside(&Point2d { x: 101, y: 199 }));
}

#[test]
fn horizontal_block_has_exact_size() {
    // 5 glyphs over 8300 px²: 8300 * 83 / 50 / 5 = 2755, whose root is 52.
    let b = Block::new(String::from("apple"), 8300, &Point2d { x: 100, y: 100 }, Orientation::Horizontal);
    assert_eq!(b.bottom_left, Point2d { x: 100, y: 100 });
    assert_eq!(b.top_right, Point2d { x: 100 + 8300 / 52, y: 100 - 52 });
    assert_eq!(b.top_right, Point2d { x: 259, y: 48 });
    assert_eq!(b.text, "apple");
    assert_eq!(b.area, 8300);
    assert_eq!(b.orientation, Orientation::Horizontal);
}

#[test]
fn turned_blocks_swap_their_extents() {
    let origin = Point2d { x: 100, y: 100 };
    let down = Block::new(String::from("apple"), 8300, &origin, Orientation::Vertical90);
    assert_eq!(down.bottom_left, Point2d { x: 100, y: 259 });
    assert_eq!(down.top_right, Point2d { x: 152, y: 100 });
    let up = Block::new(String::from("apple"), 8300, &origin, Orientation::Vertical270);
    assert_eq!(up.bottom_left, Point2d { x: 48, y: 100 });
    assert_eq!(up.top_right, Point2d { x: 100, y: -59 });
}

#[test]
fn extent_follows_the_height_formula() {
    // One glyph over 10000 px²: 10000 * 83 / 50 = 16600, whose root is 128.
    let b = Block::new(String::from("M"), 10000, &Point2d { x: 0, y: 500 }, Orientation::Horizontal);
    let height = b.bottom_left.y - b.top_right.y;
    let width = b.top_right.x - b.bottom_left.x;
    assert_eq!(height, 128);
    assert_eq!(width, 10000 / 128);
    assert_eq!(width, 78);
}

#[test]
fn tiny_area_still_gets_one_pixel() {
    // 20 glyphs over 1 px² would round to a zero height: it stays one pixel.
    let b = Block::new(String::from("abcdefghijklmnopqrst"), 1, &Point2d { x: 10, y: 10 }, Orientation::Horizontal);
    assert_eq!(b.bottom_left.y - b.top_right.y, 1);
    assert_eq!(b.top_right.x - b.bottom_left.x, 1);
}

#[test]
fn largest_area_and_coordinates() {
    let max = u32::MAX as i64;
    let b = Block::new(String::from("a"), u32::MAX, &Point2d { x: max, y: max }, Orientation::Vertical90);
    assert!(b.top_right.x > b.bottom_left.x);
    assert!(b.bottom_left.y > b.top_right.y);
}

#[test]
fn sizing_is_deterministic() {
    let origin = Point2d { x: 321, y: 123 };
    for o in [Orientation::Horizontal, Orientation::Vertical90, Orientation::Vertical270] {
        let a = Block::new(String::from("bubble"), 4242, &origin, o);
        let b = Block::new(String::from("bubble"), 4242, &origin, o);
        assert_eq!(a, b);
    }
}

#[test]
fn overlap_cases() {
    let a = block_at((100, 200), (200, 100));
    // Apart on each side.
    assert!(!a.is_overlapping(&block_at((300, 200), (400, 100))));
    assert!(!a.is_overlapping(&block_at((0, 200), (50, 100))));
    assert!(!a.is_overlapping(&block_at((100, 80), (200, 0))));
    assert!(!a.is_overlapping(&block_at((100, 400), (200, 300))));
    // Crossing, and containing.
    assert!(a.is_overlapping(&block_at((150, 250), (250, 150))));
    assert!(a.is_overlapping(&block_at((120, 180), (180, 120))));
    // Touching edges count as overlapping.
    assert!(a.is_overlapping(&block_at((200, 200), (300, 100))));
    assert!(a.is_overlapping(&block_at((100, 300), (200, 200))));
}

#[test]
fn overlap_is_symmetric() {
    let boxes = [
        block_at((100, 200), (200, 100)),
        block_at((150, 250), (250, 150)),
        block_at((300, 200), (400, 100)),
        block_at((200, 200), (300, 100)),
    ];
    for a in &boxes {
        for b in &boxes {
            assert_eq!(a.is_overlapping(b), b.is_overlapping(a));
        }
    }
}
