use mosaic::{
    assemble, assemble_parts, build_index, choose_tile, compose_plan, decode, encode,
    nearest_color, plan_cells, plan_quadrant, Bitmap, ColorIndex, MosaicError, MyColor, TileRef,
    TileSample, WorkerResult, TILE_EDGE,
};

fn tile(name: &str) -> TileRef {
    TileRef::new(name.as_bytes().to_vec())
}

fn sample(name: &str, color: Option<MyColor>) -> TileSample {
    TileSample { color, tile: tile(name) }
}

fn uniform_bitmap(w: u32, h: u32, c: MyColor) -> Bitmap {
    Bitmap { width: w, height: h, pixels: vec![c; (w * h) as usize] }
}

fn two_color_index() -> ColorIndex {
    let samples = vec![
        sample("black.jpg", Some(MyColor::new(0, 0, 0))),
        sample("white.jpg", Some(MyColor::new(255, 255, 255))),
    ];
    build_index(&samples).unwrap()
}

#[test]
fn distance_zero_on_equal_colors() {
    let c = MyColor::new(12, 200, 7);
    assert_eq!(c.distance(&c), 0);
    let d = MyColor::new(12, 200, 8);
    assert_ne!(c.distance(&d), 0);
}

#[test]
fn distance_is_symmetric() {
    let a = MyColor::new(1, 2, 3);
    let b = MyColor::new(200, 100, 50);
    assert_eq!(a.distance(&b), b.distance(&a));
}

#[test]
fn distance_exact_value() {
    let black = MyColor::new(0, 0, 0);
    let white = MyColor::new(255, 255, 255);
    // squared Euclidean distance: 3 * 255 * 255
    assert_eq!(black.distance(&white), 195075);
    assert_eq!(MyColor::new(0, 0, 0).distance(&MyColor::new(3, 4, 0)), 25);
}

#[test]
fn average_of_uniform_image_is_exact() {
    let c = MyColor::new(17, 103, 250);
    let bm = uniform_bitmap(7, 5, c);
    assert_eq!(bm.average_color(), Some(c));
}

#[test]
fn average_truncates_toward_zero() {
    // blue channels 0 and 1 average to 1/2, which truncates to 0
    let bm = Bitmap {
        width: 2,
        height: 1,
        pixels: vec![MyColor::new(0, 0, 0), MyColor::new(0, 0, 1)],
    };
    assert_eq!(bm.average_color(), Some(MyColor::new(0, 0, 0)));
}

#[test]
fn average_of_empty_image_is_none() {
    let bm = Bitmap { width: 0, height: 0, pixels: vec![] };
    assert_eq!(bm.average_color(), None);
}

#[test]
fn build_index_groups_by_exact_color() {
    let red = MyColor::new(200, 0, 0);
    let blue = MyColor::new(0, 0, 200);
    let samples = vec![
        sample("a.jpg", Some(red)),
        sample("b.jpg", Some(blue)),
        sample("c.jpg", Some(red)),
        sample("d.jpg", None),
        sample("e.jpg", Some(red)),
    ];
    let ix = build_index(&samples).unwrap();
    // 4 valid tiles collide into 2 distinct colors
    assert_eq!(ix.entries.len(), 2);
    let total: usize = ix.entries.iter().map(|e| e.refs.len()).sum();
    assert_eq!(total, 4);
    // discovery order is kept, both across keys and within one key
    assert_eq!(ix.entries[0].color, red);
    assert_eq!(ix.entries[0].refs, vec![tile("a.jpg"), tile("c.jpg"), tile("e.jpg")]);
    assert_eq!(ix.entries[1].color, blue);
    assert_eq!(ix.entries[1].refs, vec![tile("b.jpg")]);
}

#[test]
fn build_index_of_no_valid_tiles_fails() {
    assert_eq!(build_index(&vec![]).unwrap_err(), MosaicError::EmptyIndexError);
    let all_bad = vec![sample("a.jpg", None), sample("b.jpg", None)];
    assert_eq!(build_index(&all_bad).unwrap_err(), MosaicError::EmptyIndexError);
}

#[test]
fn nearest_color_picks_closest_key() {
    let ix = two_color_index();
    assert_eq!(nearest_color(&MyColor::new(10, 10, 10), &ix), MyColor::new(0, 0, 0));
    assert_eq!(nearest_color(&MyColor::new(200, 200, 200), &ix), MyColor::new(255, 255, 255));
}

#[test]
fn nearest_color_tie_goes_to_first_inserted_key() {
    // (127,127,127) is equidistant from both keys; the scan keeps the first
    let ix = two_color_index();
    assert_eq!(nearest_color(&MyColor::new(127, 127, 127), &ix), MyColor::new(0, 0, 0));
}

#[test]
fn codec_round_trip_is_lossless() {
    let samples = vec![
        sample("a.jpg", Some(MyColor::new(1, 2, 3))),
        sample("b.jpg", Some(MyColor::new(9, 8, 7))),
        sample("c.jpg", Some(MyColor::new(1, 2, 3))),
    ];
    let ix = build_index(&samples).unwrap();
    let bytes = encode(&ix);
    let back = decode(&bytes).unwrap();
    assert_eq!(back, ix);
}

#[test]
fn codec_entry_count_is_little_endian() {
    let ix = two_color_index();
    let bytes = encode(&ix);
    assert_eq!(&bytes[0..8], &[2, 0, 0, 0, 0, 0, 0, 0]);
}

#[test]
fn decode_rejects_truncated_artifact() {
    let ix = two_color_index();
    let mut bytes = encode(&ix);
    bytes.pop();
    assert_eq!(decode(&bytes).unwrap_err(), MosaicError::PersistenceError);
}

#[test]
fn decode_rejects_trailing_garbage() {
    let ix = two_color_index();
    let mut bytes = encode(&ix);
    bytes.push(0);
    assert_eq!(decode(&bytes).unwrap_err(), MosaicError::PersistenceError);
}

#[test]
fn decode_rejects_empty_index_artifact() {
    // a well-formed count of zero entries is not a usable index
    let bytes = vec![0u8; 8];
    assert_eq!(decode(&bytes).unwrap_err(), MosaicError::PersistenceError);
}

#[test]
fn decode_rejects_garbage() {
    assert_eq!(decode(&vec![]).unwrap_err(), MosaicError::PersistenceError);
    assert_eq!(decode(&vec![5, 1, 2]).unwrap_err(), MosaicError::PersistenceError);
}

#[test]
fn choose_tile_returns_a_given_tile() {
    let only = vec![tile("one.jpg")];
    assert_eq!(choose_tile(&only), tile("one.jpg"));
    let three = vec![tile("a.jpg"), tile("b.jpg"), tile("c.jpg")];
    for _ in 0..20 {
        let t = choose_tile(&three);
        assert!(three.contains(&t));
    }
}

/// A 25x25 target: a 2x2 grid of whole cells with a mixed remainder strip.
fn small_target() -> Bitmap {
    let mut t = uniform_bitmap(25, 25, MyColor::new(0, 0, 0));
    // cell corners: (0,0) black, (10,0) white, (0,10) black, (10,10) white
    t.set_pixel(10, 0, MyColor::new(255, 255, 255));
    t.set_pixel(10, 10, MyColor::new(255, 255, 255));
    t
}

#[test]
fn plan_cells_matches_corner_samples() {
    let t = small_target();
    let ix = two_color_index();
    let rands = vec![0u64; 4];
    let plan = plan_cells(&t, &ix, &rands);
    assert_eq!(plan.len(), 4);
    assert_eq!(plan[0], tile("black.jpg"));
    assert_eq!(plan[1], tile("white.jpg"));
    assert_eq!(plan[2], tile("black.jpg"));
    assert_eq!(plan[3], tile("white.jpg"));
}

#[test]
fn quadrant_plans_agree_with_sequential_plan() {
    let t = small_target();
    let ix = two_color_index();
    let rands = vec![11u64, 22, 33, 44];
    let plan = plan_cells(&t, &ix, &rands);
    // with a 2x2 grid each quadrant holds exactly one cell, cell q
    for q in 0..4usize {
        let qplan = plan_quadrant(&t, &ix, &rands, q);
        assert_eq!(qplan.len(), 1);
        assert_eq!(qplan[0], plan[q]);
    }
}

#[test]
fn compose_plan_draws_from_the_index() {
    let t = small_target();
    let ix = two_color_index();
    let plan = compose_plan(&t, &ix);
    assert_eq!(plan.len(), 4);
    for tr in &plan {
        assert!(tr == &tile("black.jpg") || tr == &tile("white.jpg"));
    }
    // the cells whose corner pixel is an exact key have a forced choice
    assert_eq!(plan[0], tile("black.jpg"));
    assert_eq!(plan[1], tile("white.jpg"));
}

#[test]
fn assemble_drops_remainder_strips() {
    assert_eq!(TILE_EDGE, 10);
    // a 103x97 target has 10x9 whole cells: the output is exactly 100x90
    let wi = 103 / TILE_EDGE;
    let hi = 97 / TILE_EDGE;
    let tiles = vec![uniform_bitmap(10, 10, MyColor::new(5, 6, 7)); (wi * hi) as usize];
    let out = assemble(&tiles, wi, hi);
    assert_eq!(out.width, 100);
    assert_eq!(out.height, 90);
    assert_eq!(out.pixels.len(), 100 * 90);
}

#[test]
fn assemble_places_each_tile_at_its_cell() {
    let a = uniform_bitmap(10, 10, MyColor::new(1, 0, 0));
    let b = uniform_bitmap(10, 10, MyColor::new(2, 0, 0));
    let c = uniform_bitmap(10, 10, MyColor::new(3, 0, 0));
    let d = uniform_bitmap(10, 10, MyColor::new(4, 0, 0));
    let out = assemble(&vec![a, b, c, d], 2, 2);
    assert_eq!(out.get_pixel(0, 0), MyColor::new(1, 0, 0));
    assert_eq!(out.get_pixel(19, 9), MyColor::new(2, 0, 0));
    assert_eq!(out.get_pixel(9, 19), MyColor::new(3, 0, 0));
    assert_eq!(out.get_pixel(10, 10), MyColor::new(4, 0, 0));
}

fn quadrant_parts(order: &[usize]) -> Vec<WorkerResult> {
    let bufs = vec![
        uniform_bitmap(10, 10, MyColor::new(10, 0, 0)),
        uniform_bitmap(10, 10, MyColor::new(20, 0, 0)),
        uniform_bitmap(10, 10, MyColor::new(30, 0, 0)),
        uniform_bitmap(10, 10, MyColor::new(40, 0, 0)),
    ];
    order.iter().map(|&q| WorkerResult { id: q, buf: bufs[q].clone() }).collect()
}

#[test]
fn parallel_assembly_is_order_blind() {
    // workers finishing in reverse id order produce the identical composite
    let forward = assemble_parts(&quadrant_parts(&[0, 1, 2, 3]), 2, 2).unwrap();
    let reverse = assemble_parts(&quadrant_parts(&[3, 2, 1, 0]), 2, 2).unwrap();
    assert_eq!(forward, reverse);
    let shuffled = assemble_parts(&quadrant_parts(&[2, 0, 3, 1]), 2, 2).unwrap();
    assert_eq!(forward, shuffled);
    // each quadrant buffer lands at the offset its id implies
    assert_eq!(forward.get_pixel(0, 0), MyColor::new(10, 0, 0));
    assert_eq!(forward.get_pixel(19, 0), MyColor::new(20, 0, 0));
    assert_eq!(forward.get_pixel(0, 19), MyColor::new(30, 0, 0));
    assert_eq!(forward.get_pixel(19, 19), MyColor::new(40, 0, 0));
}

#[test]
fn assembly_fails_on_missing_worker() {
    let r = assemble_parts(&quadrant_parts(&[0, 1, 2]), 2, 2);
    assert_eq!(r.unwrap_err(), MosaicError::WorkerFailure);
}

#[test]
fn assembly_fails_on_wrong_buffer_size() {
    let mut parts = quadrant_parts(&[0, 1, 2, 3]);
    parts[1].buf = uniform_bitmap(5, 10, MyColor::new(20, 0, 0));
    assert_eq!(assemble_parts(&parts, 2, 2).unwrap_err(), MosaicError::WorkerFailure);
}

#[test]
fn error_descriptions_are_distinct() {
    let all = [
        MosaicError::DecodeError,
        MosaicError::EmptyIndexError,
        MosaicError::PersistenceError,
        MosaicError::IOError,
        MosaicError::WorkerFailure,
    ];
    for (i, a) in all.iter().enumerate() {
        for (j, b) in all.iter().enumerate() {
            if i != j {
                assert_ne!(a.describe(), b.describe());
            }
        }
    }
}
