use rand::rngs::StdRng;
use rand::SeedableRng;
use text_packing::{Block, Grid, Orientation, Point2d};

fn grid(width: u32, height: u32, seed: u64) -> Grid {
    Grid::new(width, height, StdRng::seed_from_u64(seed))
}

fn assert_apart(blocks: &[Block]) {
    for (i, a) in blocks.iter().enumerate() {
        for (j, b) in blocks.iter().enumerate() {
            if i != j {
                assert!(!a.is_overlapping(b), "blocks {} and {} overlap", i, j);
            }
        }
    }
}

fn inside(region: (u32, u32, u32, u32), p: &Point2d) -> bool {
    let (xmin, xmax, ymin, ymax) = region;
    p.x > xmin as i64 && p.x < xmax as i64 && p.y > ymin as i64 && p.y < ymax as i64
}

#[test]
fn new_grid_is_empty_and_whole() {
    let g = grid(800, 600, 1);
    assert!(g.blocks().is_empty());
    assert_eq!(g.bounding_rectangle(), (0, 800, 0, 600));
}

#[test]
fn clear_after_set_restores_the_canvas() {
    let mut g = grid(800, 800, 2);
    g.bounding_rectangle_set(200, 600, 300, 500);
    assert_eq!(g.bounding_rectangle(), (200, 600, 300, 500));
    g.bounding_rectangle_clear();
    assert_eq!(g.bounding_rectangle(), (0, 800, 0, 800));
}

#[test]
fn oversized_block_is_refused() {
    let mut g = grid(300, 300, 3);
    g.bounding_rectangle_set(100, 200, 100, 200);
    // Twice the region's area: the box is 182 pixels tall at best.
    assert!(!g.place_block("M", 100 * 100 * 2));
    assert!(g.blocks().is_empty());
}

#[test]
fn parsed_pairs_fit_on_a_fresh_canvas() {
    let (rest, pairs) = Grid::parse_pairs("apple,2 bubble,10").unwrap();
    assert_eq!(rest, "");
    assert_eq!(pairs.len(), 2);
    assert_eq!((pairs[0].0, pairs[0].1), ("apple", 2));
    assert_eq!((pairs[1].0, pairs[1].1), ("bubble", 10));
    let mut g = grid(800, 600, 4);
    for pair in &pairs {
        assert!(g.place_block(pair.0, pair.1));
    }
    let blocks = g.blocks();
    assert_eq!(blocks.len(), 2);
    assert_eq!(blocks[0].text, "apple");
    assert_eq!(blocks[1].text, "bubble");
    assert!(!blocks[0].is_overlapping(&blocks[1]));
    assert!(!blocks[1].is_overlapping(&blocks[0]));
}

#[test]
fn many_blocks_never_overlap() {
    let mut g = grid(800, 600, 5);
    let words = ["apple", "bubble", "cat", "dog", "elephant", "fig", "grape", "hat"];
    let mut placed = 0;
    for round in 0..10u32 {
        for (k, w) in words.iter().enumerate() {
            let area = 24 * 24 * (1 + ((round as usize + k) % 9) as u32);
            if g.place_block(w, area) {
                placed += 1;
            }
        }
    }
    assert_eq!(g.blocks().len(), placed);
    assert!(placed > 10);
    assert_apart(g.blocks());
}

#[test]
fn blocks_land_inside_the_region_of_their_time() {
    let mut g = grid(800, 800, 6);
    g.bounding_rectangle_set(200, 600, 200, 600);
    let narrow = g.bounding_rectangle();
    for w in ["alpha", "beta", "gamma", "delta"] {
        assert!(g.place_block(w, 24 * 24 * 4));
    }
    for b in g.blocks() {
        assert!(inside(narrow, &b.bottom_left));
        assert!(inside(narrow, &b.top_right));
    }
    g.bounding_rectangle_clear();
    let whole = g.bounding_rectangle();
    for w in ["epsilon", "zeta", "eta"] {
        assert!(g.place_block(w, 24 * 24 * 2));
    }
    for b in &g.blocks()[4..] {
        assert!(inside(whole, &b.bottom_left));
        assert!(inside(whole, &b.top_right));
    }
    assert_apart(g.blocks());
}

#[test]
fn place_at_accepts_and_refuses() {
    let mut g = grid(800, 600, 7);
    let origin = Point2d { x: 100, y: 100 };
    assert!(g.place_block_at("apple", 8300, &origin, Orientation::Horizontal));
    assert_eq!(g.blocks()[0], Block::new(String::from("apple"), 8300, &origin, Orientation::Horizontal));
    // The same box again overlaps the first.
    assert!(!g.place_block_at("apple", 8300, &origin, Orientation::Horizontal));
    // Turned upwards from (100, 100) the box reaches above the canvas.
    assert!(!g.place_block_at("apple", 8300, &origin, Orientation::Vertical270));
    // Further right it is clear.
    assert!(g.place_block_at("apple", 8300, &Point2d { x: 400, y: 300 }, Orientation::Vertical90));
    assert_eq!(g.blocks().len(), 2);
}

#[test]
fn place_at_corner_is_outside() {
    let mut g = grid(800, 600, 8);
    // An anchor on the border puts a corner on it: not strictly inside.
    assert!(!g.place_block_at("apple", 8300, &Point2d { x: 0, y: 300 }, Orientation::Horizontal));
    assert!(g.blocks().is_empty());
}

#[test]
fn zero_attempts_place_nothing() {
    let mut g = grid(800, 600, 9);
    assert!(!g.place_block_with_attempts("apple", 100, 0));
    assert!(g.place_block_with_attempts("apple", 100, 2000));
}

#[test]
fn random_orientations_cover_all_three() {
    let mut rng = StdRng::seed_from_u64(10);
    let mut seen = [false; 3];
    for _ in 0..200 {
        match Orientation::at_random(&mut rng) {
            Orientation::Horizontal => seen[0] = true,
            Orientation::Vertical90 => seen[1] = true,
            Orientation::Vertical270 => seen[2] = true,
        }
    }
    assert_eq!(seen, [true, true, true]);
}

#[test]
fn random_anchors_spread_over_the_region() {
    let mut g = grid(800, 800, 11);
    for _ in 0..40 {
        g.place_block("a", 4);
    }
    let blocks = g.into_blocks();
    let xs: Vec<i64> = blocks.0.iter().map(|b| b.bottom_left.x).collect();
    assert!(xs.len() > 30);
    assert!(xs.iter().any(|x| *x < 400) && xs.iter().any(|x| *x >= 400));
}

#[test]
fn into_blocks_keeps_the_order() {
    let mut g = grid(800, 600, 12);
    assert!(g.place_block("first", 1000));
    assert!(g.place_block("second", 1000));
    let blocks = g.into_blocks();
    assert_eq!(blocks.0.len(), 2);
    assert_eq!(blocks.0[0].text, "first");
    assert_eq!(blocks.0[1].text, "second");
}

#[test]
fn draws_map_to_orientations() {
    assert_eq!(Orientation::from_index(0), Orientation::Horizontal);
    assert_eq!(Orientation::from_index(1), Orientation::Vertical90);
    assert_eq!(Orientation::from_index(2), Orientation::Vertical270);
}

#[test]
fn empty_text_is_never_placed() {
    let mut g = grid(800, 600, 13);
    assert!(!g.place_block("", 1000));
    assert!(!g.place_block_with_attempts("", 1000, 2000));
    assert!(g.blocks().is_empty());
}
