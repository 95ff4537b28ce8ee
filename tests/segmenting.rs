use blobmask::classify::{classify, keeps, round};
use blobmask::detect::detect;
use blobmask::grid::Grid;
use blobmask::mask::{invert, segment};

fn light(width: usize, height: usize) -> Vec<u8> {
    vec![255u8; width * height]
}

fn grid(width: usize, height: usize, cells: Vec<u8>) -> Grid {
    Grid::new(width, height, cells).expect("dimensions match")
}

fn mask_of(g: &Grid) -> Grid {
    let blobs = detect(g);
    classify(g.width, g.height, &blobs)
}

fn disk(size: usize, radius: i64, value: u8) -> (Grid, Vec<(usize, usize)>) {
    let mut cells = light(size, size);
    let mut points = Vec::new();
    let c = (size / 2) as i64;
    for y in 0..size {
        for x in 0..size {
            let dx = x as i64 - c;
            let dy = y as i64 - c;
            if dx * dx + dy * dy <= radius * radius {
                cells[y * size + x] = value;
                points.push((x, y));
            }
        }
    }
    (grid(size, size, cells), points)
}

fn row(width: usize, len: usize) -> Grid {
    let mut cells = light(width, 3);
    for x in 0..len {
        cells[width + 1 + x] = 0;
    }
    grid(width, 3, cells)
}

#[test]
fn isolated_dark_point_stays_light() {
    let mut cells = light(5, 5);
    cells[2 * 5 + 2] = 0;
    let g = grid(5, 5, cells);
    assert!(detect(&g).is_empty());
    let out = segment(&g);
    assert!(out.cells.iter().all(|&v| v == 255));
}

#[test]
fn isolated_point_next_to_faint_noise_is_dropped() {
    let mut cells = light(4, 4);
    cells[5] = 10;
    cells[6] = 61;
    let g = grid(4, 4, cells);
    assert!(detect(&g).is_empty());
}

#[test]
fn disks_are_kept_whole() {
    for radius in [1i64, 2, 3, 5, 10, 20] {
        let size = (2 * radius + 5) as usize;
        let (g, points) = disk(size, radius, 40);
        let mask = mask_of(&g);
        for &(x, y) in &points {
            assert_eq!(mask.get(x, y), 255, "radius {} point ({}, {})", radius, x, y);
        }
        let marked = mask.cells.iter().filter(|&&v| v == 255).count();
        assert_eq!(marked, points.len());
    }
}

#[test]
fn short_row_is_kept() {
    let g = row(10, 5);
    let mask = mask_of(&g);
    for x in 1..6 {
        assert_eq!(mask.get(x, 1), 255);
    }
}

#[test]
fn row_of_twenty_two_is_kept_and_twenty_three_is_not() {
    let kept = mask_of(&row(30, 22));
    assert_eq!(kept.cells.iter().filter(|&&v| v == 255).count(), 22);
    let dropped = mask_of(&row(30, 23));
    assert!(dropped.cells.iter().all(|&v| v == 0));
}

#[test]
fn long_row_is_rejected() {
    let mask = mask_of(&row(40, 30));
    assert!(mask.cells.iter().all(|&v| v == 0));
}

#[test]
fn pair_is_detected_but_not_kept() {
    let mut cells = light(4, 3);
    cells[5] = 0;
    cells[6] = 0;
    let g = grid(4, 3, cells);
    let blobs = detect(&g);
    assert_eq!(blobs.len(), 1);
    assert_eq!(blobs[0].len(), 2);
    assert!(!keeps(&blobs[0]));
    let mask = classify(4, 3, &blobs);
    assert!(mask.cells.iter().all(|&v| v == 0));
}

#[test]
fn faint_points_join_but_do_not_seed() {
    // a seed at 40 with two neighbours at 55: one component of three
    let mut cells = light(5, 3);
    cells[5 + 1] = 55;
    cells[5 + 2] = 40;
    cells[5 + 3] = 55;
    let g = grid(5, 3, cells);
    let blobs = detect(&g);
    assert_eq!(blobs.len(), 1);
    let mut pts = blobs[0].clone();
    pts.sort();
    assert_eq!(pts, vec![(1, 1), (2, 1), (3, 1)]);
    assert_eq!(blobs[0][0], (2, 1));

    // the same shape at 55 alone starts nothing
    let mut faint = light(5, 3);
    faint[6] = 55;
    faint[7] = 55;
    faint[8] = 55;
    assert!(detect(&grid(5, 3, faint)).is_empty());
}

#[test]
fn diagonal_points_are_separate() {
    let mut cells = light(4, 4);
    cells[0] = 0;
    cells[1] = 0;
    cells[4 + 2] = 0;
    cells[8 + 2] = 0;
    let g = grid(4, 4, cells);
    let blobs = detect(&g);
    assert_eq!(blobs.len(), 2);
    for b in &blobs {
        assert_eq!(b.len(), 2);
    }
}

#[test]
fn components_do_not_overlap() {
    let (g, points) = disk(15, 4, 20);
    let blobs = detect(&g);
    assert_eq!(blobs.len(), 1);
    let mut pts = blobs[0].clone();
    pts.sort();
    pts.dedup();
    assert_eq!(pts.len(), points.len());
}

#[test]
fn roundness_of_square_and_l_shape() {
    let square = vec![(0, 0), (1, 0), (0, 1), (1, 1)];
    assert!(round(&square));
    assert!(keeps(&square));
    let too_big: Vec<(usize, usize)> = (0..10001).map(|i| (i % 101, i / 101)).collect();
    assert!(!keeps(&too_big));
}

#[test]
fn inversion_flips_every_value() {
    let mut g = grid(3, 1, vec![0, 255, 7]);
    invert(&mut g);
    assert_eq!(g.cells, vec![255, 0, 248]);
    assert_eq!((g.width, g.height), (3, 1));
}

#[test]
fn segment_marks_kept_component_dark() {
    let (g, points) = disk(11, 2, 0);
    let out = segment(&g);
    for y in 0..11 {
        for x in 0..11 {
            let expected = if points.contains(&(x, y)) { 0 } else { 255 };
            assert_eq!(out.get(x, y), expected);
        }
    }
}

#[test]
fn segmenting_twice_gives_the_same_mask() {
    let (mut g, _) = disk(30, 6, 30);
    g.cells[2] = 0;
    g.cells[3] = 0;
    g.cells[4] = 50;
    g.cells[29 * 30 + 1] = 0;
    let first = segment(&g);
    let second = segment(&g);
    assert_eq!(first.cells, second.cells);
}

#[test]
fn grid_rejects_wrong_length() {
    assert!(Grid::new(3, 2, vec![0; 5]).is_none());
    assert!(Grid::new(3, 2, vec![0; 6]).is_some());
    assert!(Grid::new(usize::MAX, 2, Vec::new()).is_none());
    let g = Grid::filled(2, 3);
    assert_eq!(g.cells, vec![0; 6]);
}

#[test]
fn empty_grid_has_no_components() {
    let g = grid(0, 0, Vec::new());
    assert!(detect(&g).is_empty());
    assert!(segment(&g).cells.is_empty());
}

#[test]
fn largest_disks_are_kept_whole() {
    for radius in [49i64, 56] {
        let size = (2 * radius + 3) as usize;
        let (g, points) = disk(size, radius, 40);
        assert!(points.len() <= 10000);
        let mask = mask_of(&g);
        let marked = mask.cells.iter().filter(|&&v| v == 255).count();
        assert_eq!(marked, points.len(), "radius {}", radius);
    }
}

#[test]
fn oversized_region_is_rejected() {
    // a 101 by 101 dark square has 10201 points, past the size bound
    let size = 103;
    let mut cells = light(size, size);
    for y in 1..102 {
        for x in 1..102 {
            cells[y * size + x] = 0;
        }
    }
    let g = grid(size, size, cells);
    let blobs = detect(&g);
    assert_eq!(blobs.len(), 1);
    assert_eq!(blobs[0].len(), 10201);
    let mask = classify(size, size, &blobs);
    assert!(mask.cells.iter().all(|&v| v == 0));
}

#[test]
fn detected_component_holds_its_whole_region() {
    // an L shape of seed-dark points with a faint tail
    let mut cells = light(6, 6);
    for &(x, y) in &[(1usize, 1usize), (1, 2), (1, 3), (2, 3), (3, 3), (4, 3)] {
        cells[y * 6 + x] = 30;
    }
    cells[4 * 6 + 4] = 58;
    let g = grid(6, 6, cells);
    let blobs = detect(&g);
    assert_eq!(blobs.len(), 1);
    let mut pts = blobs[0].clone();
    pts.sort();
    assert_eq!(pts, vec![(1, 1), (1, 2), (1, 3), (2, 3), (3, 3), (4, 3), (4, 4)]);
}
