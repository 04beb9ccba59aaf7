use std::collections::HashMap;

use life::Cell;
use life::Field;

fn field_of(cells: &[(i64, i64)]) -> Field {
    let mut field = Field::empty();
    for &(x, y) in cells {
        field.add(Cell { x, y });
    }
    field
}

#[test]
fn neighbor_counts_work() {
    let field = Field::new("X.\n.X");

    let actual = field.neighbor_counts();
    let mut expected = HashMap::new();

    expected.insert(Cell { x: 2, y: 2 }, 1);
    expected.insert(Cell { x: 2, y: 0 }, 1);
    expected.insert(Cell { x: 0, y: -1 }, 1);
    expected.insert(Cell { x: 1, y: 0 }, 2);
    expected.insert(Cell { x: 0, y: 1 }, 2);
    expected.insert(Cell { x: 0, y: 0 }, 1);
    expected.insert(Cell { x: 1, y: 2 }, 1);
    expected.insert(Cell { x: 1, y: -1 }, 1);
    expected.insert(Cell { x: 2, y: 1 }, 1);
    expected.insert(Cell { x: 1, y: 1 }, 1);
    expected.insert(Cell { x: -1, y: 0 }, 1);
    expected.insert(Cell { x: 0, y: 2 }, 1);
    expected.insert(Cell { x: -1, y: 1 }, 1);
    expected.insert(Cell { x: -1, y: -1 }, 1);

    assert_eq!(14, actual.len());
    let actual: HashMap<Cell, u64> = actual.entries().into_iter().collect();
    assert_eq!(expected, actual);
}

#[test]
fn one_cell_counts_once_for_each_neighbor() {
    let field = field_of(&[(0, 0)]);
    let counts = field.neighbor_counts();
    assert_eq!(8, counts.len());
    let mut around = [Cell { x: 0, y: 0 }; 8];
    Cell { x: 0, y: 0 }.neighbors(&mut around);
    for cell in around {
        assert_eq!(Some(1), counts.get(cell));
    }
    assert_eq!(None, counts.get(Cell { x: 0, y: 0 }));
    assert_eq!(None, counts.get(Cell { x: 2, y: 0 }));
    let entries = counts.entries();
    assert_eq!(8, entries.len());
    for (cell, count) in entries {
        assert_eq!(1, count);
        assert!(around.contains(&cell));
    }
}

#[test]
fn two_diagonal_cells_share_two_neighbors() {
    let field = field_of(&[(0, 0), (1, 1)]);
    let counts = field.neighbor_counts();
    assert_eq!(14, counts.len());
    assert_eq!(Some(2), counts.get(Cell { x: 0, y: 1 }));
    assert_eq!(Some(2), counts.get(Cell { x: 1, y: 0 }));
    let mut ones = 0;
    for (cell, count) in counts.entries() {
        if cell == (Cell { x: 0, y: 1 }) || cell == (Cell { x: 1, y: 0 }) {
            assert_eq!(2, count);
        } else {
            assert_eq!(1, count);
            ones += 1;
        }
    }
    assert_eq!(12, ones);
}

#[test]
fn no_cell_has_a_count_of_zero() {
    let field = Field::new("XX.X\n....\nX..X\n.XX.");
    let counts = field.neighbor_counts();
    for (_, count) in counts.entries() {
        assert!(count >= 1);
        assert!(count <= 8);
    }
}

#[test]
fn a_full_block_counts_eight_in_the_middle() {
    let field = Field::new("XXX\nXXX\nXXX");
    let counts = field.neighbor_counts();
    assert_eq!(Some(8), counts.get(Cell { x: 1, y: 1 }));
    assert_eq!(Some(3), counts.get(Cell { x: 0, y: 0 }));
    assert_eq!(Some(5), counts.get(Cell { x: 1, y: 0 }));
    assert_eq!(Some(1), counts.get(Cell { x: -1, y: -1 }));
    assert_eq!(Some(3), counts.get(Cell { x: 3, y: 1 }));
    assert_eq!(25, counts.len());
}

#[test]
fn empty_field_has_no_counts() {
    let counts = Field::empty().neighbor_counts();
    assert_eq!(0, counts.len());
    assert!(counts.entries().is_empty());
}

#[test]
fn empty_field_stays_empty() {
    let mut field = Field::empty();
    let next = field.step();
    assert!(next.is_empty());
    assert_eq!(Field::empty(), next);
}

#[test]
fn step_leaves_the_field_as_it_is() {
    let mut field = field_of(&[(0, 0), (1, 0), (2, 0)]);
    let _ = field.step();
    assert_eq!(field_of(&[(0, 0), (1, 0), (2, 0)]), field);
}

#[test]
fn lonely_cells_die() {
    let mut field = field_of(&[(0, 0)]);
    assert!(field.step().is_empty());
    let mut field = field_of(&[(0, 0), (1, 1)]);
    assert!(field.step().is_empty());
}

#[test]
fn three_neighbors_give_birth() {
    let mut field = field_of(&[(0, 0), (2, 0), (1, 2)]);
    assert_eq!(field_of(&[(1, 1)]), field.step());
}

#[test]
fn two_neighbors_keep_a_live_cell_only() {
    let mut field = field_of(&[(0, 0), (1, 1), (2, 2)]);
    assert_eq!(field_of(&[(1, 1)]), field.step());
}

#[test]
fn crowded_cells_die() {
    let mut field = Field::new(".X.\nXXX\n.X.");
    let next = field.step();
    assert_eq!(Field::new("XXX\nX.X\nXXX"), next);
    assert!(!next.contains(Cell { x: 1, y: 1 }));
}

#[test]
fn block_is_still() {
    let mut field = field_of(&[(4, 4), (5, 4), (4, 5), (5, 5)]);
    let next = field.step();
    assert_eq!(field, next);
}

#[test]
fn blinker_turns_and_turns_back() {
    let mut flat = field_of(&[(0, 0), (1, 0), (2, 0)]);
    let mut upright = flat.step();
    assert_eq!(field_of(&[(1, -1), (1, 0), (1, 1)]), upright);
    assert_eq!(flat, upright.step());
}

#[test]
fn glider_moves_one_cell_diagonally_in_four_steps() {
    let glider = [(1, 0), (2, 1), (0, 2), (1, 2), (2, 2)];
    let mut field = field_of(&glider);
    for _ in 0..4 {
        field = field.step();
    }
    let moved: Vec<(i64, i64)> = glider.iter().map(|&(x, y)| (x + 1, y + 1)).collect();
    assert_eq!(field_of(&moved), field);
    assert_eq!(5, field.size());
}

#[test]
fn glider_passes_through_its_four_shapes() {
    let mut field = Field::new(".X.\n..X\nXXX");
    field = field.step();
    assert_eq!(Field::new("...\nX.X\n.XX\n.X."), field);
    field = field.step();
    assert_eq!(Field::new("...\n..X\nX.X\n.XX"), field);
    field = field.step();
    assert_eq!(Field::new("...\n.X.\n..XX\n.XX"), field);
    field = field.step();
    assert_eq!(Field::new("...\n..X.\n...X\n.XXX"), field);
}

#[test]
fn generations_do_not_depend_on_where_the_cells_are() {
    let shape = [(0, 0), (1, 0), (2, 0), (2, 1), (1, 2)];
    let mut here = field_of(&shape);
    let far: Vec<(i64, i64)> = shape
        .iter()
        .map(|&(x, y)| (x - 1_000_000_000_000, y + 4_000_000_000_000_000_000))
        .collect();
    let mut there = field_of(&far);
    for _ in 0..6 {
        here = here.step();
        there = there.step();
    }
    let moved: Vec<(i64, i64)> = here
        .cells()
        .iter()
        .map(|c| (c.x - 1_000_000_000_000, c.y + 4_000_000_000_000_000_000))
        .collect();
    assert_eq!(field_of(&moved), there);
}

#[test]
fn generations_next_to_the_edge_of_the_coordinate_range() {
    let x = i64::MAX - 1;
    let y = i64::MIN + 1;
    let mut field = field_of(&[(x, y), (x, y + 1), (x, y + 2)]);
    assert!(field.is_interior());
    let next = field.step();
    assert_eq!(field_of(&[(x - 1, y + 1), (x, y + 1), (x + 1, y + 1)]), next);
    assert!(!next.is_interior());
}

#[test]
fn parsed_fields_are_interior() {
    let mut field = Field::new("XXX\n...\nXXX");
    assert!(field.is_interior());
    let mut next = field.step();
    assert_eq!(field_of(&[(1, -1), (1, 0), (1, 2), (1, 3)]), next);
    assert!(next.is_interior());
    assert!(next.step().is_empty());
}

#[test]
fn no_cell_is_counted_beyond_the_coordinate_range() {
    let corner = Cell { x: i64::MAX, y: i64::MIN };
    let field = field_of(&[(corner.x, corner.y)]);
    let counts = field.neighbor_counts();
    assert_eq!(3, counts.len());
    assert_eq!(Some(1), counts.get(Cell { x: i64::MAX - 1, y: i64::MIN }));
    assert_eq!(Some(1), counts.get(Cell { x: i64::MAX - 1, y: i64::MIN + 1 }));
    assert_eq!(Some(1), counts.get(Cell { x: i64::MAX, y: i64::MIN + 1 }));
    assert_eq!(None, counts.get(corner));

    let field = field_of(&[(i64::MIN, 5), (i64::MIN, 6)]);
    let counts = field.neighbor_counts();
    assert_eq!(8, counts.len());
    assert_eq!(Some(1), counts.get(Cell { x: i64::MIN, y: 4 }));
    assert_eq!(Some(1), counts.get(Cell { x: i64::MIN, y: 5 }));
    assert_eq!(Some(1), counts.get(Cell { x: i64::MIN, y: 6 }));
    assert_eq!(Some(1), counts.get(Cell { x: i64::MIN, y: 7 }));
    assert_eq!(Some(1), counts.get(Cell { x: i64::MIN + 1, y: 4 }));
    assert_eq!(Some(2), counts.get(Cell { x: i64::MIN + 1, y: 5 }));
    assert_eq!(Some(2), counts.get(Cell { x: i64::MIN + 1, y: 6 }));
    assert_eq!(Some(1), counts.get(Cell { x: i64::MIN + 1, y: 7 }));
}

#[test]
fn no_cell_is_born_beyond_the_coordinate_range() {
    let x = i64::MAX;
    let mut field = field_of(&[(x, 0), (x, 1), (x, 2)]);
    assert!(!field.is_interior());
    let mut next = field.step();
    assert_eq!(field_of(&[(x - 1, 1), (x, 1)]), next);
    assert!(next.step().is_empty());

    let y = i64::MIN;
    let mut block = field_of(&[(0, y), (1, y), (0, y + 1), (1, y + 1)]);
    let next = block.step();
    assert_eq!(block, next);
}
