use formatted_debug::table_formatting::grid_formatting::GridSizes;
use formatted_debug::table_formatting::StringTable;

#[test]
fn basic_single_rect() {
    let grid = GridSizes {
        widths: vec![3usize],
        heights: vec![3usize],
    };

    assert_eq!(
        grid.to_table(),
        vec![
            String::from("┏━┓"),
            String::from("┃ ┃"),
            String::from("┗━┛"),
        ]
    );

    let grid = GridSizes {
        widths: vec![2usize],
        heights: vec![2usize],
    };

    assert_eq!(
        grid.to_table(),
        vec![String::from("┏┓"), String::from("┗┛"),]
    );

    let grid = GridSizes {
        widths: vec![3usize],
        heights: vec![2usize],
    };

    assert_eq!(
        grid.to_table(),
        vec![String::from("┏━┓"), String::from("┗━┛"),]
    );
}

#[test]
fn basic_multi_rect() {
    let grid = GridSizes {
        widths: vec![3usize, 4usize],
        heights: vec![3usize],
    };

    assert_eq!(
        grid.to_table(),
        vec![
            String::from("┏━┳━━┓"),
            String::from("┃ ┃  ┃"),
            String::from("┗━┻━━┛"),
        ]
    );

    let grid = GridSizes {
        widths: vec![3usize],
        heights: vec![2usize, 3usize],
    };

    assert_eq!(
        grid.to_table(),
        vec![
            String::from("┏━┓"),
            String::from("┣━┫"),
            String::from("┃ ┃"),
            String::from("┗━┛"),
        ]
    );
}

#[test]
fn complex_multi_rec() {
    let grid = GridSizes {
        widths: vec![3usize, 4usize, 2usize],
        heights: vec![3usize, 5usize],
    };

    assert_eq!(
        grid.to_table(),
        vec![
            String::from("┏━┳━━┳┓"),
            String::from("┃ ┃  ┃┃"),
            String::from("┣━╋━━╋┫"),
            String::from("┃ ┃  ┃┃"),
            String::from("┃ ┃  ┃┃"),
            String::from("┃ ┃  ┃┃"),
            String::from("┗━┻━━┻┛"),
        ]
    );
}

#[test]
fn skeleton_dimensions_follow_sizes() {
    let widths = vec![5usize, 2, 7, 3];
    let heights = vec![4usize, 2, 6];
    let grid = GridSizes {
        widths: widths.clone(),
        heights: heights.clone(),
    };
    let lines = grid.to_table();
    let line_count = 1 + heights.iter().map(|h| h - 1).sum::<usize>();
    let line_width = 1 + widths.iter().map(|w| w - 1).sum::<usize>();
    assert_eq!(lines.len(), line_count);
    for line in lines.iter() {
        assert_eq!(line.chars().count(), line_width);
    }
    assert!(lines[0].chars().all(|c| "┏┳━┓".contains(c)));
    assert!(lines[lines.len() - 1].chars().all(|c| "┗┻━┛".contains(c)));
}

#[test]
fn tall_rows_give_blank_bands() {
    let grid = GridSizes {
        widths: vec![4usize],
        heights: vec![4usize, 2usize],
    };
    assert_eq!(
        grid.to_table(),
        vec![
            String::from("┏━━┓"),
            String::from("┃  ┃"),
            String::from("┃  ┃"),
            String::from("┣━━┫"),
            String::from("┗━━┛"),
        ]
    );
}
