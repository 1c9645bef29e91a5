use papergrid::grid::Grid;
use papergrid::style::Line;
use papergrid::style::Style;

fn grid3x3() -> Grid {
    let rows = vec![
        vec![
            "N".to_string(),
            "column 0".to_string(),
            "column 1".to_string(),
            "column 2".to_string(),
        ],
        vec![
            "0".to_string(),
            "0-0".to_string(),
            "0-1".to_string(),
            "0-2".to_string(),
        ],
        vec![
            "1".to_string(),
            "1-0".to_string(),
            "1-1".to_string(),
            "1-2".to_string(),
        ],
        vec![
            "2".to_string(),
            "2-0".to_string(),
            "2-1".to_string(),
            "2-2".to_string(),
        ],
    ];
    Grid::new(rows, 4)
}

#[test]
fn default_style() {
    let table = grid3x3().render(&Style::ascii());

    let expected = "+---+----------+----------+----------+\n\
                    | N | column 0 | column 1 | column 2 |\n\
                    +---+----------+----------+----------+\n\
                    | 0 |   0-0    |   0-1    |   0-2    |\n\
                    +---+----------+----------+----------+\n\
                    | 1 |   1-0    |   1-1    |   1-2    |\n\
                    +---+----------+----------+----------+\n\
                    | 2 |   2-0    |   2-1    |   2-2    |\n\
                    +---+----------+----------+----------+\n";

    assert_eq!(table, expected);
}

#[test]
fn psql_style() {
    let table = grid3x3().render(&Style::psql());

    let expected = " N | column 0 | column 1 | column 2 \n\
                    ---+----------+----------+----------\n\
                    \u{20}0 |   0-0    |   0-1    |   0-2    \n\
                    \u{20}1 |   1-0    |   1-1    |   1-2    \n\
                    \u{20}2 |   2-0    |   2-1    |   2-2    \n";

    assert_eq!(table, expected);
}

#[test]
fn github_markdown_style() {
    let table = grid3x3().render(&Style::github_markdown());

    let expected = "| N | column 0 | column 1 | column 2 |\n\
                    |---+----------+----------+----------|\n\
                    | 0 |   0-0    |   0-1    |   0-2    |\n\
                    | 1 |   1-0    |   1-1    |   1-2    |\n\
                    | 2 |   2-0    |   2-1    |   2-2    |\n";

    assert_eq!(table, expected);
}

#[test]
fn pseudo_style() {
    let table = grid3x3().render(&Style::pseudo());

    let expected = "┌───┬──────────┬──────────┬──────────┐\n\
                    │ N │ column 0 │ column 1 │ column 2 │\n\
                    ├───┼──────────┼──────────┼──────────┤\n\
                    │ 0 │   0-0    │   0-1    │   0-2    │\n\
                    ├───┼──────────┼──────────┼──────────┤\n\
                    │ 1 │   1-0    │   1-1    │   1-2    │\n\
                    ├───┼──────────┼──────────┼──────────┤\n\
                    │ 2 │   2-0    │   2-1    │   2-2    │\n\
                    └───┴──────────┴──────────┴──────────┘\n";

    assert_eq!(table, expected);
}

#[test]
fn pseudo_clean_style() {
    let table = grid3x3().render(&Style::pseudo_clean());

    let expected = "┌───┬──────────┬──────────┬──────────┐\n\
                    │ N │ column 0 │ column 1 │ column 2 │\n\
                    ├───┼──────────┼──────────┼──────────┤\n\
                    │ 0 │   0-0    │   0-1    │   0-2    │\n\
                    │ 1 │   1-0    │   1-1    │   1-2    │\n\
                    │ 2 │   2-0    │   2-1    │   2-2    │\n\
                    └───┴──────────┴──────────┴──────────┘\n";

    assert_eq!(table, expected);
}

#[test]
fn noborder_style() {
    let table = grid3x3().render(&Style::noborder());

    let expected = " N   column 0   column 1   column 2 \n\
                    \u{20}0     0-0        0-1        0-2    \n\
                    \u{20}1     1-0        1-1        1-2    \n\
                    \u{20}2     2-0        2-1        2-2    \n";

    assert_eq!(table, expected);
}

#[test]
fn style_head_changes() {
    let table = grid3x3().render(&Style::pseudo_clean().header(None));

    let expected = "┌───┬──────────┬──────────┬──────────┐\n\
                    │ N │ column 0 │ column 1 │ column 2 │\n\
                    │ 0 │   0-0    │   0-1    │   0-2    │\n\
                    │ 1 │   1-0    │   1-1    │   1-2    │\n\
                    │ 2 │   2-0    │   2-1    │   2-2    │\n\
                    └───┴──────────┴──────────┴──────────┘\n";

    assert_eq!(table, expected);
}

#[test]
fn style_head_changes_bordered() {
    let with_header = grid3x3().render(&Style::ascii());
    let table = grid3x3().render(&Style::ascii().header(None));

    let expected = "+---+----------+----------+----------+\n\
                    | N | column 0 | column 1 | column 2 |\n\
                    | 0 |   0-0    |   0-1    |   0-2    |\n\
                    +---+----------+----------+----------+\n\
                    | 1 |   1-0    |   1-1    |   1-2    |\n\
                    +---+----------+----------+----------+\n\
                    | 2 |   2-0    |   2-1    |   2-2    |\n\
                    +---+----------+----------+----------+\n";

    assert_eq!(table, expected);
    assert_eq!(
        table.lines().count(),
        with_header.lines().count() - 1
    );
}

#[test]
fn style_frame_changes() {
    let table = grid3x3().render(&Style::pseudo_clean().frame_bottom(None).frame_top(None));

    let expected = "│ N │ column 0 │ column 1 │ column 2 │\n\
                    ├───┼──────────┼──────────┼──────────┤\n\
                    │ 0 │   0-0    │   0-1    │   0-2    │\n\
                    │ 1 │   1-0    │   1-1    │   1-2    │\n\
                    │ 2 │   2-0    │   2-1    │   2-2    │\n";

    assert_eq!(table, expected);
}

#[test]
fn custom_style() {
    let table = grid3x3().render(
        &Style::noborder()
            .frame_bottom(Some(Line::short('*', '\'')))
            .split(Some(Line::short('`', '\'')))
            .inner('\''),
    );

    let expected = " N ' column 0 ' column 1 ' column 2 \n\
                    ```'``````````'``````````'``````````\n\
                    \u{20}0 '   0-0    '   0-1    '   0-2    \n\
                    ```'``````````'``````````'``````````\n\
                    \u{20}1 '   1-0    '   1-1    '   1-2    \n\
                    ```'``````````'``````````'``````````\n\
                    \u{20}2 '   2-0    '   2-1    '   2-2    \n\
                    ***'**********'**********'**********\n";

    assert_eq!(table, expected);
}

#[test]
fn multiline_cell_style() {
    let rows = vec![
        vec!["h".to_string(), "title".to_string()],
        vec!["a\nb".to_string(), "x".to_string()],
    ];
    let table = Grid::new(rows, 2).render(&Style::ascii());

    let expected = "+---+-------+\n\
                    | h | title |\n\
                    +---+-------+\n\
                    | a |   x   |\n\
                    | b |       |\n\
                    +---+-------+\n";

    assert_eq!(table, expected);
}
