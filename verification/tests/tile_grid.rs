use std::collections::BTreeSet;

use tracks::tile::{
    bounding_tiles, chunk_coord, chunks, grid_cells, neighbors, parse_coord, tiles_in_chunk,
    Chunk, Tile, Tiles,
};

#[test]
fn tile_basename_pads_to_three() {
    assert_eq!(Tile { coord: (5, 43) }.basename(), "005-043");
    assert_eq!(Tile { coord: (-5, 1234) }.basename(), "-05-1234");
}

#[test]
fn chunk_basename_names_hemispheres() {
    assert_eq!(Chunk { coord: (5, 43) }.basename(), "E005-N043");
    assert_eq!(Chunk { coord: (-12, -3) }.basename(), "W012-S003");
    assert_eq!(Chunk { coord: (0, 0) }.basename(), "E000-N000");
}

#[test]
fn chunk_coord_rounds_down() {
    assert_eq!(chunk_coord(&Tile { coord: (9, 10) }), (0, 1));
    assert_eq!(chunk_coord(&Tile { coord: (-1, -10) }), (-1, -1));
    assert_eq!(chunk_coord(&Tile { coord: (-11, 25) }), (-2, 2));
    assert_eq!(Tile { coord: (-11, 25) }.chunk().coord, (-2, 2));
}

#[test]
fn chunk_contains_its_tiles() {
    let chunk = Chunk::from_coord(&(1, -1));
    assert!(chunk.contains(&Tile { coord: (10, -1) }));
    assert!(chunk.contains(&Tile { coord: (19, -10) }));
    assert!(!chunk.contains(&Tile { coord: (20, -1) }));
    assert!(!chunk.contains(&Tile { coord: (10, 0) }));
    let tiles = chunk.tiles();
    assert_eq!(tiles.len(), 100);
    assert!(tiles.contains(&(10, -10)));
    assert!(tiles.contains(&(19, -1)));
    assert!(!tiles.contains(&(20, -1)));
    for t in &tiles {
        assert!(chunk.contains(&Tile { coord: *t }));
    }
}

#[test]
fn tile_text_round_trip() {
    for coord in [(0, 0), (-3, 17), (isize::MAX, isize::MIN), (12, -1)] {
        let t = Tile { coord };
        let text = t.to_string();
        assert_eq!(Tile::from_str(&text), Ok(t));
        let c = Chunk { coord };
        assert_eq!(Chunk::from_str(&c.to_string()), Ok(c));
    }
    assert_eq!(Tile { coord: (-3, 17) }.to_string(), "-3,17");
}

#[test]
fn tile_parse_trims_and_fails() {
    assert_eq!(parse_coord(" 4 ,\t-7\n"), Ok((4, -7)));
    assert_eq!(parse_coord("+4,7"), Ok((4, 7)));
    assert_eq!(parse_coord("4;7"), Err("missing comma".to_string()));
    assert!(parse_coord("4,7,8").is_err());
    assert!(parse_coord("x,7").is_err());
    assert!(parse_coord("4,").is_err());
    assert!(Tile::from_str("99999999999999999999,0").is_err());
}

#[test]
fn tile_parse_error_messages() {
    assert_eq!(Tile::from_str("12"), Err("missing comma".to_string()));
    assert_eq!(parse_coord("x, 7"), Err("invalid digit found in string".to_string()));
    assert_eq!(parse_coord(" ,7"), Err("cannot parse integer from empty string".to_string()));
    assert_eq!(
        Chunk::from_str("4, 99999999999999999999"),
        Err("number too large to fit in target type".to_string())
    );
    assert_eq!(parse_coord("x,y"), Err("invalid digit found in string".to_string()));
}

#[test]
fn chunks_of_tiles() {
    let tiles: Tiles = BTreeSet::from([(0, 0), (9, 9), (10, 0), (-1, 5)]);
    let c = chunks(&tiles);
    assert_eq!(c, BTreeSet::from([(0, 0), (1, 0), (-1, 0)]));
}

#[test]
fn tiles_in_chunk_keeps_the_chunk_ones() {
    let tiles: Tiles = BTreeSet::from([(0, 0), (9, 9), (10, 0), (-1, 5)]);
    let kept = tiles_in_chunk(&tiles, &Chunk { coord: (0, 0) });
    assert_eq!(kept, BTreeSet::from([(0, 0), (9, 9)]));
    let none = tiles_in_chunk(&tiles, &Chunk { coord: (5, 5) });
    assert!(none.is_empty());
}

#[test]
fn bounding_tiles_fills_the_rectangle() {
    let empty: Tiles = BTreeSet::new();
    assert!(bounding_tiles(&empty).is_empty());
    let tiles: Tiles = BTreeSet::from([(0, 1), (2, -1)]);
    let b = bounding_tiles(&tiles);
    assert_eq!(b.len(), 9);
    for x in 0..=2 {
        for y in -1..=1 {
            assert!(b.contains(&(x, y)));
        }
    }
    let one: Tiles = BTreeSet::from([(7, 7)]);
    assert_eq!(bounding_tiles(&one), one);
}

#[test]
fn neighbors_surround_the_tile() {
    let n = neighbors(&Tile { coord: (3, 4) });
    let coords: Vec<(isize, isize)> = n.iter().map(|t| t.coord).collect();
    assert_eq!(
        coords,
        vec![(2, 3), (3, 3), (4, 3), (2, 4), (4, 4), (2, 5), (3, 5), (4, 5)]
    );
}

#[test]
fn grid_cells_is_half_open() {
    let g = grid_cells(0, 0, 2, 3);
    assert_eq!(g.len(), 6);
    assert!(g.contains(&(1, 2)));
    assert!(!g.contains(&(2, 0)));
    assert!(grid_cells(3, 0, 2, 5).is_empty());
}
