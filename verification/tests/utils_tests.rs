use match3::are_adjacent;

#[test]
fn horizontal_neighbours_are_adjacent() {
    assert!(are_adjacent(3, 4, 4, 4));
    assert!(are_adjacent(4, 4, 3, 4));
    assert!(are_adjacent(0, 0, 1, 0));
    assert!(are_adjacent(8, 8, 7, 8));
}

#[test]
fn vertical_neighbours_are_adjacent() {
    assert!(are_adjacent(3, 4, 3, 5));
    assert!(are_adjacent(3, 5, 3, 4));
    assert!(are_adjacent(0, 0, 0, 1));
}

#[test]
fn a_cell_is_not_its_own_neighbour() {
    assert!(!are_adjacent(3, 4, 3, 4));
    assert!(!are_adjacent(0, 0, 0, 0));
}

#[test]
fn diagonal_cells_are_not_adjacent() {
    assert!(!are_adjacent(3, 4, 4, 5));
    assert!(!are_adjacent(3, 4, 2, 3));
    assert!(!are_adjacent(3, 4, 4, 3));
}

#[test]
fn cells_two_apart_are_not_adjacent() {
    assert!(!are_adjacent(3, 4, 5, 4));
    assert!(!are_adjacent(3, 4, 3, 6));
    assert!(!are_adjacent(0, 0, 8, 0));
}

#[test]
fn adjacency_of_huge_coordinates_does_not_wrap() {
    assert!(!are_adjacent(0, usize::MAX, 0, 0));
    assert!(!are_adjacent(usize::MAX, 0, 0, 0));
    assert!(are_adjacent(usize::MAX, 7, usize::MAX - 1, 7));
    assert!(are_adjacent(5, usize::MAX - 1, 5, usize::MAX));
}

#[test]
fn adjacency_is_symmetric_on_a_sample() {
    for x1 in 0..4usize {
        for y1 in 0..4usize {
            for x2 in 0..4usize {
                for y2 in 0..4usize {
                    assert_eq!(are_adjacent(x1, y1, x2, y2), are_adjacent(x2, y2, x1, y1));
                }
            }
        }
    }
}
