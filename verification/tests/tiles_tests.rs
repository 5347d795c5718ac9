use match3::{TileSource, TILE_TYPES};

#[test]
fn scripted_source_hands_out_its_script_in_order() {
    let mut source = TileSource::scripted(vec![3, 1, 5, 5, 2]);
    assert_eq!(source.remaining(), 5);
    assert_eq!(source.draw(), 3);
    assert_eq!(source.draw(), 1);
    assert_eq!(source.draw(), 5);
    assert_eq!(source.remaining(), 2);
    assert_eq!(source.draw(), 5);
    assert_eq!(source.draw(), 2);
    assert_eq!(source.remaining(), 0);
}

#[test]
fn exhausted_script_gives_way_to_random_ordinary_tiles() {
    let mut source = TileSource::scripted(vec![4]);
    assert_eq!(source.draw(), 4);
    for _ in 0..200 {
        let tile = source.draw();
        assert!(tile >= 1 && tile as usize <= TILE_TYPES);
        assert_eq!(source.remaining(), 0);
    }
}

#[test]
fn script_entry_that_is_no_ordinary_tile_is_replaced() {
    let mut source = TileSource::scripted(vec![0, 100, 6, 2]);
    for left in [3usize, 2, 1] {
        let tile = source.draw();
        assert!(tile >= 1 && tile as usize <= TILE_TYPES);
        assert_eq!(source.remaining(), left);
    }
    assert_eq!(source.draw(), 2);
}

#[test]
fn random_source_stays_in_range() {
    let mut source = TileSource::random();
    assert_eq!(source.remaining(), 0);
    for _ in 0..1000 {
        let tile = source.draw();
        assert!(tile >= 1 && tile as usize <= TILE_TYPES);
    }
}

#[test]
fn random_source_does_not_repeat_one_tile_forever() {
    let mut source = TileSource::random();
    let first = source.draw();
    let mut other = false;
    for _ in 0..500 {
        if source.draw() != first {
            other = true;
        }
    }
    assert!(other);
}

#[test]
fn random_source_reaches_every_colour() {
    let mut source = TileSource::random();
    let mut seen = [false; 6];
    for _ in 0..2000 {
        seen[source.draw() as usize] = true;
    }
    assert!(!seen[0]);
    for colour in 1..=TILE_TYPES {
        assert!(seen[colour]);
    }
}
