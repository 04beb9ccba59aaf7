use life::Cell;
use life::Field;

fn field_with(cells: &[(i64, i64)]) -> Field {
    let mut field = Field::empty();
    for &(x, y) in cells {
        field.add(Cell { x, y });
    }
    field
}

#[test]
fn generate_board() {
    let description = "X..\n.XX";
    let mut expected = Field::empty();
    expected.add(Cell { x: 0, y: 0 });
    expected.add(Cell { x: 1, y: 1 });
    expected.add(Cell { x: 2, y: 1 });

    let actual = Field::new(description);
    assert_eq!(expected, actual);
}

#[test]
fn two_markers_give_two_cells() {
    let field = Field::new("X.\n.X");
    assert_eq!(2, field.size());
    assert!(field.contains(Cell { x: 0, y: 0 }));
    assert!(field.contains(Cell { x: 1, y: 1 }));
    assert!(!field.contains(Cell { x: 1, y: 0 }));
    assert!(!field.contains(Cell { x: 0, y: 1 }));
}

#[test]
fn the_column_comes_first() {
    let field = Field::new("..X");
    assert_eq!(field_with(&[(2, 0)]), field);
    let field = Field::new("\n\nX");
    assert_eq!(field_with(&[(0, 2)]), field);
}

#[test]
fn empty_text_gives_the_empty_field() {
    assert!(Field::new("").is_empty());
    assert!(Field::new("\n\n\n").is_empty());
    assert!(Field::new("....\n....").is_empty());
}

#[test]
fn other_characters_stand_for_dead_cells() {
    let field = Field::new("x X\t#X\r\nO0X?");
    assert_eq!(field_with(&[(2, 0), (5, 0), (2, 1)]), field);
    assert!(Field::new("empty").is_empty());
}

#[test]
fn places_are_counted_in_characters() {
    let field = Field::new("\u{e9}X\n\u{4e16}\u{754c}X");
    assert_eq!(field_with(&[(1, 0), (2, 1)]), field);
}

#[test]
fn lines_may_differ_in_length() {
    let field = Field::new("X\n\n..X\nXX");
    assert_eq!(field_with(&[(0, 0), (2, 2), (0, 3), (1, 3)]), field);
}

#[test]
fn empty_field_is_written_as_the_sentinel() {
    assert_eq!("empty", Field::empty().render());
    assert_eq!("empty", Field::new("..\n..").render());
}

#[test]
fn field_with_cells_is_never_written_as_the_sentinel() {
    assert_ne!("empty", field_with(&[(0, 0)]).render());
    assert_ne!("empty", field_with(&[(-100, 100), (3, 3)]).render());
    assert_ne!("empty", Field::new("X").render());
}

#[test]
fn one_cell_is_written_with_two_dead_cells_on_each_side() {
    let text = field_with(&[(0, 0)]).render();
    assert_eq!(".....\n.....\n..X..\n.....\n.....\n", text);
    let text = field_with(&[(-40, 1_000_000)]).render();
    assert_eq!(".....\n.....\n..X..\n.....\n.....\n", text);
}

#[test]
fn rows_are_lines_and_columns_are_places() {
    let text = field_with(&[(0, 0), (1, 0), (2, 0)]).render();
    assert_eq!(".......\n.......\n..XXX..\n.......\n.......\n", text);
    let text = field_with(&[(0, 0), (0, 1), (0, 2)]).render();
    assert_eq!(".....\n.....\n..X..\n..X..\n..X..\n.....\n.....\n", text);
}

#[test]
fn written_grid_spans_the_bounding_box() {
    let text = field_with(&[(-1, -1), (1, 0), (0, 2)]).render();
    let expected = ".......\n\
                    .......\n\
                    ..X....\n\
                    ....X..\n\
                    .......\n\
                    ...X...\n\
                    .......\n\
                    .......\n";
    assert_eq!(expected, text);
}

#[test]
fn written_grid_at_the_edge_of_the_coordinate_range() {
    let text = field_with(&[(i64::MAX, i64::MIN), (i64::MAX - 1, i64::MIN + 1)]).render();
    let expected = "......\n\
                    ......\n\
                    ...X..\n\
                    ..X...\n\
                    ......\n\
                    ......\n";
    assert_eq!(expected, text);
}

#[test]
fn reading_back_what_was_written_shifts_by_the_padding() {
    let field = Field::new("X..\n.XX");
    let again = Field::new(&field.render());
    assert_eq!(field_with(&[(2, 2), (3, 3), (4, 3)]), again);

    let field = Field::new("...\n..X\n.X.");
    let again = Field::new(&field.render());
    assert_eq!(field_with(&[(3, 2), (2, 3)]), again);

    let field = field_with(&[(-10, 7), (-8, 9), (-9, 9)]);
    let again = Field::new(&field.render());
    assert_eq!(field_with(&[(2, 2), (4, 4), (3, 4)]), again);
}

#[test]
fn reading_back_twice_changes_nothing_more() {
    let field = Field::new("..X.\nX..X\n.XX.");
    let once = Field::new(&field.render());
    let twice = Field::new(&once.render());
    assert_eq!(once, twice);
    assert_eq!(once.render(), twice.render());
}

#[test]
fn reading_back_the_sentinel_gives_the_empty_field() {
    let again = Field::new(&Field::empty().render());
    assert_eq!(Field::empty(), again);
}
