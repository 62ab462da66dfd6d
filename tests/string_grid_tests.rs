use formatted_debug::table_formatting::string_grid::{generate_string_grid, table_fits};
use formatted_debug::table_formatting::StringTable;
use std::collections::{BTreeMap, HashMap};

#[test]
fn test_basic_table() {
    let contacts = HashMap::from([
        ("Daniel", "798-1364"),
        ("Ashley", "645-7689"),
        ("Katie", "545-435-8291"),
        ("Robert", "956-1745"),
    ]);

    let mut lines = vec![
        String::from("┏━━━━━━┳━━━━━━━━━━━━┓"),
        String::from("┃Keys: ┃Values:     ┃"),
    ];

    for (k, v) in contacts.iter() {
        lines.push(String::from("┣━━━━━━╋━━━━━━━━━━━━┫"));
        lines.push(format!("┃{: <6}┃{: <12}┃", k, v));
    }
    lines.push(String::from("┗━━━━━━┻━━━━━━━━━━━━┛"));

    assert_eq!(contacts.to_table(), lines);
}

#[test]
fn test_nested_tables() {
    let inner_a = BTreeMap::from([("InnerA1", "ValueA1"), ("InnerA2", "ValueA2")]);

    let inner_b = BTreeMap::from([
        ("InnerB1", "ValueB1"),
        ("InnerB2", "ValueB2"),
        ("InnerB3", "ValueB3"),
    ]);

    let outer = BTreeMap::from([
        ("Outer KeyA", inner_a.to_table().join("\n")),
        ("Outer KeyB", inner_b.to_table().join("\n")),
    ]);

    assert_eq!(
        outer.to_table(),
        vec![
            String::from("┏━━━━━━━━━━┳━━━━━━━━━━━━━━━━━┓"),
            String::from("┃Keys:     ┃Values:          ┃"),
            String::from("┣━━━━━━━━━━╋━━━━━━━━━━━━━━━━━┫"),
            String::from("┃Outer KeyA┃┏━━━━━━━┳━━━━━━━┓┃"),
            String::from("┃          ┃┃Keys:  ┃Values:┃┃"),
            String::from("┃          ┃┣━━━━━━━╋━━━━━━━┫┃"),
            String::from("┃          ┃┃InnerA1┃ValueA1┃┃"),
            String::from("┃          ┃┣━━━━━━━╋━━━━━━━┫┃"),
            String::from("┃          ┃┃InnerA2┃ValueA2┃┃"),
            String::from("┃          ┃┗━━━━━━━┻━━━━━━━┛┃"),
            String::from("┣━━━━━━━━━━╋━━━━━━━━━━━━━━━━━┫"),
            String::from("┃Outer KeyB┃┏━━━━━━━┳━━━━━━━┓┃"),
            String::from("┃          ┃┃Keys:  ┃Values:┃┃"),
            String::from("┃          ┃┣━━━━━━━╋━━━━━━━┫┃"),
            String::from("┃          ┃┃InnerB1┃ValueB1┃┃"),
            String::from("┃          ┃┣━━━━━━━╋━━━━━━━┫┃"),
            String::from("┃          ┃┃InnerB2┃ValueB2┃┃"),
            String::from("┃          ┃┣━━━━━━━╋━━━━━━━┫┃"),
            String::from("┃          ┃┃InnerB3┃ValueB3┃┃"),
            String::from("┃          ┃┗━━━━━━━┻━━━━━━━┛┃"),
            String::from("┗━━━━━━━━━━┻━━━━━━━━━━━━━━━━━┛"),
        ]
    );
}

#[test]
fn ordered_map_with_numbers() {
    let solar_distance = BTreeMap::from([
        ("Mercury", 0.4),
        ("Venus", 0.7),
        ("Earth", 1.0),
        ("Mars", 1.5),
    ]);

    assert_eq!(
        solar_distance.to_table(),
        vec![
            String::from("┏━━━━━━━┳━━━━━━━┓"),
            String::from("┃Keys:  ┃Values:┃"),
            String::from("┣━━━━━━━╋━━━━━━━┫"),
            String::from("┃Earth  ┃1      ┃"),
            String::from("┣━━━━━━━╋━━━━━━━┫"),
            String::from("┃Mars   ┃1.5    ┃"),
            String::from("┣━━━━━━━╋━━━━━━━┫"),
            String::from("┃Mercury┃0.4    ┃"),
            String::from("┣━━━━━━━╋━━━━━━━┫"),
            String::from("┃Venus  ┃0.7    ┃"),
            String::from("┗━━━━━━━┻━━━━━━━┛"),
        ]
    );
}

#[test]
fn single_column_list() {
    let held_contents = vec![0, 1, 2, 3, 4, 5];

    assert_eq!(
        held_contents.to_table(),
        vec![
            String::from("┏━┓"),
            String::from("┃0┃"),
            String::from("┣━┫"),
            String::from("┃1┃"),
            String::from("┣━┫"),
            String::from("┃2┃"),
            String::from("┣━┫"),
            String::from("┃3┃"),
            String::from("┣━┫"),
            String::from("┃4┃"),
            String::from("┣━┫"),
            String::from("┃5┃"),
            String::from("┗━┛"),
        ]
    );
}

#[test]
fn multi_line_string_fills_one_box() {
    let held_string = String::from(
        "Hello there!\n\
        this is a multilined string\n\
        it should fill up one box\n\
        and only one box",
    );

    assert_eq!(
        held_string.to_table(),
        vec![
            String::from("┏━━━━━━━━━━━━━━━━━━━━━━━━━━━┓"),
            String::from("┃Hello there!               ┃"),
            String::from("┃this is a multilined string┃"),
            String::from("┃it should fill up one box  ┃"),
            String::from("┃and only one box           ┃"),
            String::from("┗━━━━━━━━━━━━━━━━━━━━━━━━━━━┛"),
        ]
    );
}

#[test]
fn grid_of_three_columns() {
    let formatted_strings = vec![
        [String::from("Operation"), String::from("Values"), String::from("Result")],
        [String::from("Addition"), String::from("4, 12"), format!("{}", 4 + 12)],
        [String::from("Division"), String::from("10, 5"), format!("{}", 10 / 5)],
    ];

    assert_eq!(
        generate_string_grid(&formatted_strings),
        vec![
            "┏━━━━━━━━━┳━━━━━━┳━━━━━━┓",
            "┃Operation┃Values┃Result┃",
            "┣━━━━━━━━━╋━━━━━━╋━━━━━━┫",
            "┃Addition ┃4, 12 ┃16    ┃",
            "┣━━━━━━━━━╋━━━━━━╋━━━━━━┫",
            "┃Division ┃10, 5 ┃2     ┃",
            "┗━━━━━━━━━┻━━━━━━┻━━━━━━┛"
        ]
    );
}

#[test]
fn empty_table_is_empty_box() {
    let no_rows: Vec<[String; 3]> = Vec::new();
    assert_eq!(generate_string_grid(&no_rows), vec!["┏┓", "┗┛"]);
    let no_items: Vec<u8> = Vec::new();
    assert_eq!(no_items.to_table(), vec!["┏┓", "┗┛"]);
}

#[test]
fn multibyte_cells_are_measured_in_characters() {
    let rows = vec![
        [String::from("日本語"), String::from("é")],
        [String::from("a"), String::from("ñandú")],
    ];
    assert_eq!(
        generate_string_grid(&rows),
        vec![
            "┏━━━┳━━━━━┓",
            "┃日本語┃é    ┃",
            "┣━━━╋━━━━━┫",
            "┃a  ┃ñandú┃",
            "┗━━━┻━━━━━┛",
        ]
    );
}

#[test]
fn rows_take_height_of_tallest_cell() {
    let rows = vec![[String::from("a\nbb\n"), String::from("x")]];
    assert_eq!(
        generate_string_grid(&rows),
        vec!["┏━━┳━┓", "┃a ┃x┃", "┃bb┃ ┃", "┃  ┃ ┃", "┗━━┻━┛"]
    );
}

#[test]
fn empty_cell_text_keeps_blank_interior() {
    let rows = vec![[String::new(), String::from("v")]];
    assert_eq!(generate_string_grid(&rows), vec!["┏┳━┓", "┃┃v┃", "┗┻━┛"]);
}

#[test]
fn drawing_twice_gives_same_lines() {
    let rows = vec![
        [String::from("k"), String::from("two\nlines")],
        [String::from("ü"), String::from("")],
    ];
    let first = generate_string_grid(&rows);
    let second = generate_string_grid(&rows);
    assert_eq!(first, second);
}

#[test]
fn ordinary_tables_fit() {
    let rows = vec![[String::from("a"), String::from("b\nc")]];
    assert!(table_fits(&rows));
    let no_rows: Vec<[String; 2]> = Vec::new();
    assert!(table_fits(&no_rows));
}
