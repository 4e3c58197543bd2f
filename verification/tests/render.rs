use term_data_table::{Alignment, Cell, Row, Table, TableStyle};

#[test]
fn correct_default_padding() {
    let table = Table::new()
        .with_separate_rows(false)
        .with_style(TableStyle::simple())
        .with_row(
            Row::new()
                .with_cell(Cell::from("A").with_alignment(Alignment::Center))
                .with_cell(Cell::from("B").with_alignment(Alignment::Center)),
        )
        .with_row(
            Row::new()
                .with_cell(Cell::from(1.to_string()))
                .with_cell(Cell::from("1")),
        )
        .with_row(
            Row::new()
                .with_cell(Cell::from(2.to_string()))
                .with_cell(Cell::from("10")),
        )
        .with_row(
            Row::new()
                .with_cell(Cell::from(3.to_string()))
                .with_cell(Cell::from("100")),
        );
    let expected = "+---+-----+
| A |  B  |
| 1 | 1   |
| 2 | 10  |
| 3 | 100 |
+---+-----+
";
    assert_eq!(expected, table.render(None).unwrap());
}

#[test]
fn uneven_center_alignment() {
    let table = Table::new()
        .with_separate_rows(false)
        .with_style(TableStyle::simple())
        .with_row(Row::new().with_cell(Cell::from("A").with_alignment(Alignment::Center)))
        .with_row(Row::new().with_cell(Cell::from(11.to_string())))
        .with_row(Row::new().with_cell(Cell::from(2.to_string())))
        .with_row(Row::new().with_cell(Cell::from(3.to_string())));
    let expected = "+----+
| A  |
| 11 |
| 2  |
| 3  |
+----+
";
    assert_eq!(expected, table.render(None).unwrap());
}

#[test]
fn uneven_center_alignment_2() {
    let table = Table::new()
        .with_separate_rows(false)
        .with_style(TableStyle::simple())
        .with_row(
            Row::new()
                .with_cell(Cell::from("A1").with_alignment(Alignment::Center))
                .with_cell(Cell::from("B").with_alignment(Alignment::Center)),
        );
    let expected = "+----+---+
| A1 | B |
+----+---+
";
    assert_eq!(expected, table.render(None).unwrap());
}

fn add_data_to_test_table(table: &mut Table) {
    table.add_row(
        Row::new().with_cell(
            Cell::from("This is some centered text")
                .with_col_span(2)
                .with_alignment(Alignment::Center),
        ),
    );

    table.add_row(
        Row::new()
            .with_cell(Cell::from("This is left aligned text"))
            .with_cell(Cell::from("This is right aligned text").with_alignment(Alignment::Right)),
    );

    table.add_row(
        Row::new()
            .with_cell(Cell::from("This is left aligned text"))
            .with_cell(Cell::from("This is right aligned text").with_alignment(Alignment::Right)),
    );

    table.add_row(
        Row::new().with_cell(
            Cell::from(
                "This is some really really really really really \
                really really really really that is going to wrap to the next line",
            )
            .with_col_span(2),
        ),
    );
}

#[test]
fn simple_table_style() {
    let mut table = Table::new().with_style(TableStyle::simple());

    add_data_to_test_table(&mut table);

    let expected = "+------------------------------------------------------------------------------+
|                          This is some centered text                          |
+--------------------------------------+---------------------------------------+
| This is left aligned text            |            This is right aligned text |
+--------------------------------------+---------------------------------------+
| This is left aligned text            |            This is right aligned text |
+--------------------------------------+---------------------------------------+
| This is some really really really really really really really really really  |
| that is going to wrap to the next line                                       |
+------------------------------------------------------------------------------+
";
    assert_eq!(expected, table.fixed_width(80).unwrap());
}

// The spanning cell's requirement is split evenly over its two columns, so
// the first column settles at 4 and the second at 5.
#[test]
fn uneven_with_varying_col_span_2() {
    let table = Table::new()
        .with_separate_rows(false)
        .with_style(TableStyle::simple())
        .with_row(
            Row::new()
                .with_cell(Cell::from("A").with_alignment(Alignment::Center))
                .with_cell(Cell::from("B").with_alignment(Alignment::Center)),
        )
        .with_row(
            Row::new()
                .with_cell(Cell::from(1.to_string()))
                .with_cell(Cell::from("1")),
        )
        .with_row(
            Row::new()
                .with_cell(Cell::from(2.to_string()))
                .with_cell(Cell::from("10")),
        )
        .with_row(
            Row::new()
                .with_cell(Cell::from(3.to_string()))
                .with_cell(Cell::from("100")),
        )
        .with_row(
            Row::new().with_cell(
                Cell::from("Spanner")
                    .with_col_span(2)
                    .with_alignment(Alignment::Center),
            ),
        );
    let expected = "+----+-----+
| A  |  B  |
| 1  | 1   |
| 2  | 10  |
| 3  | 100 |
| Spanner  |
+----------+
";
    assert_eq!(
        expected.trim(),
        table.render(None).unwrap().trim()
    );
}

#[test]
fn empty_table_sentinel() {
    let table = Table::new();
    assert_eq!("<empty table>\n", table.render(None).unwrap());
}

#[test]
fn round_trip_single_cell() {
    let table = Table::new()
        .with_style(TableStyle::simple())
        .with_row(Row::new().with_cell(Cell::from("hello")));
    let expected = "+-------+
| hello |
+-------+
";
    assert_eq!(expected, table.render(None).unwrap());
}

#[test]
fn rendering_twice_is_identical() {
    let mut table = Table::new().with_style(TableStyle::simple());
    add_data_to_test_table(&mut table);
    let first = table.fixed_width(80).unwrap();
    let second = table.fixed_width(80).unwrap();
    assert_eq!(first, second);
    let third = table.render(None).unwrap();
    let fourth = table.render(None).unwrap();
    assert_eq!(third, fourth);
}

#[test]
fn exact_fit_does_not_wrap() {
    // content of width 5 in an unpadded cell of width 5: one line
    let table = Table::new()
        .with_style(TableStyle::simple())
        .with_row(Row::new().with_cell(Cell::from("abcde").with_padding(false)));
    let expected = "+-----+
|abcde|
+-----+
";
    assert_eq!(expected, table.fixed_width(7).unwrap());
}

#[test]
fn one_over_hard_splits() {
    // content of width 5 in an unpadded cell of width 4 with no break
    // opportunity: a hard character split
    let table = Table::new()
        .with_style(TableStyle::simple())
        .with_row(Row::new().with_cell(Cell::from("abcde").with_padding(false)));
    let expected = "+----+
|abcd|
|e   |
+----+
";
    assert_eq!(expected, table.fixed_width(6).unwrap());
}

#[test]
fn mandatory_break_honored_when_width_is_ample() {
    let table = Table::new()
        .with_style(TableStyle::simple())
        .with_row(Row::new().with_cell(Cell::from("a\nb")));
    let expected = "+---+
| a |
| b |
+---+
";
    assert_eq!(expected, table.render(None).unwrap());
}

#[test]
fn spanning_top_border_under_fixed_width() {
    let table = Table::new()
        .with_style(TableStyle::simple())
        .with_row(Row::new().with_cell(Cell::from("ab").with_col_span(2)))
        .with_row(
            Row::new()
                .with_cell(Cell::from("x").with_padding(false))
                .with_cell(Cell::from("y").with_padding(false)),
        );
    let rendered = table.fixed_width(9).unwrap();
    let top = rendered.lines().next().unwrap();
    assert_eq!("+-------+", top);
    assert_eq!(9, top.len());
}

#[test]
fn junctions_between_rows_of_different_spans() {
    let table = Table::new()
        .with_style(TableStyle::simple())
        .with_row(Row::new().with_cell(Cell::from("ab").with_col_span(2)))
        .with_row(
            Row::new()
                .with_cell(Cell::from("x"))
                .with_cell(Cell::from("y")),
        );
    let expected = "+-------+
| ab    |
+---+---+
| x | y |
+---+---+
";
    assert_eq!(expected, table.render(None).unwrap());
}

#[test]
fn width_smaller_than_borders_is_rejected() {
    let table = Table::new()
        .with_style(TableStyle::simple())
        .with_row(
            Row::new()
                .with_cell(Cell::from("a"))
                .with_cell(Cell::from("b")),
        );
    let err = table.fixed_width(2).unwrap_err();
    assert_eq!(term_data_table::RenderError::NoBorderSpace, err);
}

#[test]
fn width_too_narrow_for_padding_is_rejected() {
    let table = Table::new()
        .with_style(TableStyle::simple())
        .with_row(Row::new().with_cell(Cell::from("a")));
    let err = table.fixed_width(4).unwrap_err();
    assert_eq!(term_data_table::RenderError::TooNarrow, err);
}

#[test]
fn ansi_escapes_do_not_count_toward_width() {
    let table = Table::new()
        .with_style(TableStyle::simple())
        .with_row(Row::new().with_cell(Cell::from("\u{1b}[31ma\u{1b}[0m")));
    let expected = "+---+
| \u{1b}[31ma\u{1b}[0m |
+---+
";
    assert_eq!(expected, table.render(None).unwrap());
}

#[test]
fn wide_characters_take_two_columns() {
    let table = Table::new()
        .with_style(TableStyle::simple())
        .with_row(Row::new().with_cell(Cell::from("你")));
    let expected = "+----+
| 你 |
+----+
";
    assert_eq!(expected, table.render(None).unwrap());
}

#[test]
fn min_width_counts_padding_and_mandatory_breaks() {
    assert_eq!(5, Cell::from("abc").min_width(true));
    assert_eq!(3, Cell::from("abc").with_padding(false).min_width(true));
    // only the widest segment between newlines counts
    assert_eq!(2, Cell::from("ab\nc").with_padding(false).min_width(true));
    // soft break opportunities split the segments when they are considered
    assert_eq!(3, Cell::from("ab cde").with_padding(false).min_width(false));
}

#[test]
fn num_columns_sums_spans() {
    let row = Row::new()
        .with_cell(Cell::from("a").with_col_span(2))
        .with_cell(Cell::from("b"));
    assert_eq!(3, row.num_columns());
}

#[test]
fn data_table_makes_one_row_per_value() {
    let values = vec![String::from("x"), String::from("yy")];
    let table = term_data_table::data_table(&values).with_style(TableStyle::simple());
    let expected = "+----+
| x  |
+----+
| yy |
+----+
";
    assert_eq!(expected, table.render(None).unwrap());
}

#[test]
fn no_separate_rows_skips_interior_borders() {
    let table = Table::new()
        .with_separate_rows(false)
        .with_style(TableStyle::simple())
        .with_row(Row::new().with_cell(Cell::from("a")))
        .with_row(Row::new().with_cell(Cell::from("b")));
    let expected = "+---+
| a |
| b |
+---+
";
    assert_eq!(expected, table.render(None).unwrap());
}

#[test]
fn table_cell_wrapped_content_breaks_at_opportunities() {
    let cell = term_data_table::TableCell::from("ab cd");
    let lines = cell.wrapped_content(6);
    assert_eq!(vec![String::from(" ab  "), String::from(" cd ")], lines);
}

#[test]
fn table_cell_width_takes_widest_segment() {
    assert_eq!(6, term_data_table::TableCell::from("ab\ncdef").width());
    assert_eq!(4, term_data_table::TableCell::from("ab\ncdef")
        .with_padding(false)
        .width());
}

#[test]
fn table_cell_min_width_takes_widest_character() {
    assert_eq!(3, term_data_table::TableCell::from("a\nb").min_width());
    assert_eq!(4, term_data_table::TableCell::from("ab\u{4f60}c").min_width());
}

#[test]
fn string_width_strips_ansi_escapes() {
    assert_eq!(3, term_data_table::string_width("\u{1b}[31mabc\u{1b}[0m"));
    assert_eq!(2, term_data_table::string_width("\u{4f60}"));
    assert_eq!(0, term_data_table::string_width(""));
}

#[test]
fn extended_style_uses_box_drawing_glyphs() {
    let table = Table::new().with_row(Row::new().with_cell(Cell::from("x")));
    let expected = "╔═══╗
║ x ║
╚═══╝
";
    assert_eq!(expected, table.render(None).unwrap());
}

#[test]
fn first_row_without_separator_suppresses_its_borders() {
    // the single row draws no separator, so neither outer border appears
    let table = Table::new()
        .with_style(TableStyle::simple())
        .with_row(Row::new().with_separator(false).with_cell(Cell::from("x")));
    assert_eq!("| x |\n", table.render(None).unwrap());
}

#[test]
fn border_flags_drop_their_borders() {
    let mut table = Table::new()
        .with_style(TableStyle::simple())
        .with_row(Row::new().with_cell(Cell::from("x")));
    table.set_top_border(false);
    assert_eq!("| x |\n+---+\n", table.render(None).unwrap());
    table.set_bottom_border(false);
    assert_eq!("| x |\n", table.render(None).unwrap());
}

#[test]
fn row_border_rendering_matches_junction_table() {
    let above = Row::new().with_cell(Cell::from("ab").with_col_span(2));
    let below = Row::new()
        .with_cell(Cell::from("x"))
        .with_cell(Cell::from("y"));
    let widths = vec![3usize, 3usize];
    let style = TableStyle::thin();
    assert_eq!("\u{250c}\u{2500}\u{2500}\u{2500}\u{2500}\u{2500}\u{2500}\u{2500}\u{2510}\n",
        above.render_top_separator(&widths, &style));
    assert_eq!("\u{2514}\u{2500}\u{2500}\u{2500}\u{2534}\u{2500}\u{2500}\u{2500}\u{2518}\n",
        below.render_bottom_separator(&widths, &style));
    // a cell boundary below but mid-span above: a downward tee
    assert_eq!("\u{251c}\u{2500}\u{2500}\u{2500}\u{252c}\u{2500}\u{2500}\u{2500}\u{2524}\n",
        below.render_separator(&above, &widths, &style));
    // a cell boundary above but mid-span below: an upward tee
    assert_eq!("\u{251c}\u{2500}\u{2500}\u{2500}\u{2534}\u{2500}\u{2500}\u{2500}\u{2524}\n",
        above.render_separator(&below, &widths, &style));
}

#[test]
fn empty_row_renders_bare_borders() {
    let table = Table::new()
        .with_style(TableStyle::simple())
        .with_row(Row::new());
    assert_eq!("++\n++\n", table.render(None).unwrap());
}
