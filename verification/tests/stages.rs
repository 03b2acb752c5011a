use nexergy::error::Error;
use nexergy::filter::{drop_non_finite_by_cols, drop_nulls_by_cols};
use nexergy::lag::{lag_column_name, make_lag_features};
use nexergy::reorder::{order_by_keys, reorder_by_string_column};
use nexergy::split::{parse_year, train_test_split_by_year};
use nexergy::table::{Cells, Column, Table};
use nexergy::text::decimal_text;

fn numbers(name: &str, values: &[Option<f64>]) -> Column {
    Column {
        name: name.to_string(),
        cells: Cells::Number(values.iter().map(|v| v.map(|x| x.to_bits())).collect()),
    }
}

fn text(name: &str, values: &[Option<&str>]) -> Column {
    Column {
        name: name.to_string(),
        cells: Cells::Text(values.iter().map(|v| v.map(|s| s.to_string())).collect()),
    }
}

fn table_of(columns: Vec<Column>) -> Table {
    let mut table = Table::new();
    for column in columns {
        table = table.with_column(column).unwrap();
    }
    table
}

fn read_numbers(table: &Table, name: &str) -> Vec<Option<f64>> {
    table
        .numbers(name)
        .unwrap()
        .iter()
        .map(|v| v.map(f64::from_bits))
        .collect()
}

fn read_text(table: &Table, name: &str) -> Vec<Option<String>> {
    match &table.column(name).unwrap().cells {
        Cells::Text(cells) => cells.clone(),
        Cells::Number(_) => panic!("{name} holds numbers"),
    }
}

fn names(list: &[&str]) -> Vec<String> {
    list.iter().map(|s| s.to_string()).collect()
}

fn some_text(list: &[&str]) -> Vec<Option<String>> {
    list.iter().map(|s| Some(s.to_string())).collect()
}

#[test]
fn rows_are_put_in_ascending_order_of_their_timestamps() {
    let table = table_of(vec![
        text(
            "date",
            &[
                Some("2023-01-03"),
                Some("2023-01-01"),
                Some("2024-01-01"),
                Some("2023-01-02"),
            ],
        ),
        numbers("price", &[Some(3.0), Some(1.0), Some(4.0), Some(2.0)]),
    ]);
    let sorted = reorder_by_string_column(&table, "date").unwrap();
    assert_eq!(
        read_text(&sorted, "date"),
        some_text(&["2023-01-01", "2023-01-02", "2023-01-03", "2024-01-01"])
    );
    assert_eq!(
        read_numbers(&sorted, "price"),
        vec![Some(1.0), Some(2.0), Some(3.0), Some(4.0)]
    );
}

#[test]
fn rows_of_equal_timestamps_keep_their_order() {
    let table = table_of(vec![
        text("date", &[Some("b"), Some("a"), Some("b"), Some("a"), Some("b")]),
        numbers(
            "price",
            &[Some(1.0), Some(2.0), Some(3.0), Some(4.0), Some(5.0)],
        ),
    ]);
    let sorted = reorder_by_string_column(&table, "date").unwrap();
    assert_eq!(
        read_numbers(&sorted, "price"),
        vec![Some(2.0), Some(4.0), Some(1.0), Some(3.0), Some(5.0)]
    );
}

#[test]
fn a_null_timestamp_sorts_as_the_empty_string() {
    let table = table_of(vec![
        text("date", &[Some("b"), None, Some(""), Some("a"), None]),
        numbers(
            "price",
            &[Some(1.0), Some(2.0), Some(3.0), Some(4.0), Some(5.0)],
        ),
    ]);
    let sorted = reorder_by_string_column(&table, "date").unwrap();
    assert_eq!(
        read_numbers(&sorted, "price"),
        vec![Some(2.0), Some(3.0), Some(5.0), Some(4.0), Some(1.0)]
    );
}

#[test]
fn a_column_of_numbers_leaves_the_rows_as_they_stand() {
    let table = table_of(vec![
        text("date", &[Some("b"), Some("a"), Some("c")]),
        numbers("price", &[Some(3.0), Some(1.0), Some(2.0)]),
    ]);
    let sorted = reorder_by_string_column(&table, "price").unwrap();
    assert_eq!(read_text(&sorted, "date"), some_text(&["b", "a", "c"]));
    assert_eq!(
        read_numbers(&sorted, "price"),
        vec![Some(3.0), Some(1.0), Some(2.0)]
    );
}

#[test]
fn timestamps_are_compared_as_strings_are() {
    let words = vec![
        "2023-01-01T10:00:00",
        "2023-01-01",
        "é",
        "z",
        "Z",
        "10",
        "9",
        "€",
        "",
        "2023-01-01T09:00:00",
    ];
    let cells: Vec<Option<&str>> = words.iter().map(|w| Some(*w)).collect();
    let table = table_of(vec![text("date", &cells)]);
    let sorted = reorder_by_string_column(&table, "date").unwrap();
    let mut expected: Vec<String> = words.iter().map(|w| w.to_string()).collect();
    expected.sort();
    let expected: Vec<Option<String>> = expected.into_iter().map(Some).collect();
    assert_eq!(read_text(&sorted, "date"), expected);
}

#[test]
fn many_rows_are_sorted_as_the_standard_sort_sorts_them() {
    let mut state: u64 = 0x2545_f491_4f6c_dd1d;
    let mut keys: Vec<String> = Vec::new();
    for _ in 0..1000 {
        state ^= state << 13;
        state ^= state >> 7;
        state ^= state << 17;
        keys.push(format!("2023-{:02}-{:02}", state % 12 + 1, (state >> 8) % 28 + 1));
    }
    let cells: Vec<Option<&str>> = keys.iter().map(|k| Some(k.as_str())).collect();
    let positions: Vec<Option<f64>> = (0..keys.len()).map(|i| Some(i as f64)).collect();
    let table = table_of(vec![text("date", &cells), numbers("position", &positions)]);
    let sorted = reorder_by_string_column(&table, "date").unwrap();
    let mut expected: Vec<(usize, String)> = keys.iter().cloned().enumerate().collect();
    expected.sort_by(|a, b| a.1.cmp(&b.1));
    let expected_positions: Vec<Option<f64>> =
        expected.iter().map(|(i, _)| Some(*i as f64)).collect();
    assert_eq!(read_numbers(&sorted, "position"), expected_positions);
}

#[test]
fn reordering_needs_the_column() {
    let table = table_of(vec![text("date", &[Some("a")])]);
    assert_eq!(
        reorder_by_string_column(&table, "time").err(),
        Some(Error::MissingColumn)
    );
    assert_eq!(
        reorder_by_string_column(&Table::new(), "date").err(),
        Some(Error::MissingColumn)
    );
}

#[test]
fn lag_columns_shift_the_target_down() {
    let table = table_of(vec![
        text("date", &[Some("a"), Some("b"), Some("c"), Some("d")]),
        numbers("price", &[Some(1.0), Some(2.0), None, Some(4.0)]),
    ]);
    let out = make_lag_features(&table, "price", 2).unwrap();
    assert_eq!(out.width(), 4);
    assert_eq!(out.height(), 4);
    assert_eq!(
        out.column_names(),
        names(&["date", "price", "lag_1", "lag_2"])
    );
    assert_eq!(
        read_numbers(&out, "lag_1"),
        vec![None, Some(1.0), Some(2.0), None]
    );
    assert_eq!(
        read_numbers(&out, "lag_2"),
        vec![None, None, Some(1.0), Some(2.0)]
    );
    assert_eq!(
        read_numbers(&out, "price"),
        vec![Some(1.0), Some(2.0), None, Some(4.0)]
    );
    assert_eq!(read_text(&out, "date"), some_text(&["a", "b", "c", "d"]));
}

#[test]
fn each_lag_adds_one_column_whose_first_rows_are_null() {
    let values: Vec<Option<f64>> = (0..5).map(|i| Some(i as f64)).collect();
    let table = table_of(vec![numbers("price", &values)]);
    for lags in 0..8usize {
        let out = make_lag_features(&table, "price", lags).unwrap();
        assert_eq!(out.width(), 1 + lags);
        assert_eq!(out.height(), 5);
        for k in 1..=lags {
            let column = read_numbers(&out, &format!("lag_{k}"));
            for (i, cell) in column.iter().enumerate() {
                if i < k {
                    assert_eq!(*cell, None, "lag {k} row {i}");
                } else {
                    assert_eq!(*cell, Some((i - k) as f64), "lag {k} row {i}");
                }
            }
        }
    }
}

#[test]
fn lag_names_are_written_in_decimal() {
    assert_eq!(lag_column_name(1), "lag_1");
    assert_eq!(lag_column_name(24), "lag_24");
    assert_eq!(lag_column_name(100), "lag_100");
    assert_eq!(decimal_text(0), "0");
    assert_eq!(decimal_text(9), "9");
    assert_eq!(decimal_text(10), "10");
    assert_eq!(decimal_text(1234567890), "1234567890");
    assert_eq!(decimal_text(u64::MAX), u64::MAX.to_string());
}

#[test]
fn lag_features_need_a_target_of_numbers() {
    let table = table_of(vec![
        text("date", &[Some("a"), Some("b")]),
        numbers("price", &[Some(1.0), Some(2.0)]),
    ]);
    assert_eq!(
        make_lag_features(&table, "date", 1).err(),
        Some(Error::NotNumeric)
    );
    assert_eq!(
        make_lag_features(&table, "volume", 1).err(),
        Some(Error::MissingColumn)
    );
    assert_eq!(
        make_lag_features(&table, "volume", 0).err(),
        Some(Error::MissingColumn)
    );
}

#[test]
fn lag_features_do_not_replace_a_column() {
    let table = table_of(vec![
        numbers("price", &[Some(1.0), Some(2.0)]),
        numbers("lag_2", &[Some(0.0), Some(0.0)]),
    ]);
    assert_eq!(make_lag_features(&table, "price", 1).unwrap().width(), 3);
    assert_eq!(
        make_lag_features(&table, "price", 2).err(),
        Some(Error::DuplicateColumn)
    );
    assert_eq!(
        make_lag_features(&table, "price", 5).err(),
        Some(Error::DuplicateColumn)
    );
    assert_eq!(
        make_lag_features(&table, "volume", 5).err(),
        Some(Error::MissingColumn)
    );
}

#[test]
fn rows_with_a_null_in_a_named_column_are_dropped() {
    let table = table_of(vec![
        text("date", &[Some("a"), None, Some("c"), Some("d"), Some("e")]),
        numbers("price", &[Some(1.0), Some(2.0), None, Some(4.0), Some(5.0)]),
        numbers("other", &[None, None, None, None, Some(0.0)]),
    ]);
    let out = drop_nulls_by_cols(&table, &names(&["price", "date"])).unwrap();
    assert_eq!(out.height(), 3);
    assert_eq!(out.width(), 3);
    assert_eq!(read_text(&out, "date"), some_text(&["a", "d", "e"]));
    assert_eq!(
        read_numbers(&out, "price"),
        vec![Some(1.0), Some(4.0), Some(5.0)]
    );
    assert_eq!(read_numbers(&out, "other"), vec![None, None, Some(0.0)]);
    let out = drop_nulls_by_cols(&table, &names(&["other"])).unwrap();
    assert_eq!(read_text(&out, "date"), some_text(&["e"]));
}

#[test]
fn a_nan_is_no_null() {
    let table = table_of(vec![numbers(
        "price",
        &[Some(f64::NAN), None, Some(f64::INFINITY)],
    )]);
    let out = drop_nulls_by_cols(&table, &names(&["price"])).unwrap();
    assert_eq!(out.height(), 2);
}

#[test]
fn no_named_column_drops_no_row() {
    let table = table_of(vec![numbers("price", &[Some(1.0), None])]);
    let out = drop_nulls_by_cols(&table, &[]).unwrap();
    assert_eq!(read_numbers(&out, "price"), vec![Some(1.0), None]);
}

#[test]
fn dropping_nulls_needs_every_named_column() {
    let table = table_of(vec![numbers("price", &[Some(1.0), None])]);
    assert_eq!(
        drop_nulls_by_cols(&table, &names(&["price", "date"])).err(),
        Some(Error::MissingColumn)
    );
}

#[test]
fn rows_without_a_finite_number_are_dropped() {
    let table = table_of(vec![
        text(
            "date",
            &[Some("a"), Some("b"), Some("c"), Some("d"), Some("e"), Some("f")],
        ),
        numbers(
            "price",
            &[
                Some(1.0),
                Some(f64::NAN),
                Some(3.0),
                Some(f64::INFINITY),
                None,
                Some(-6.0),
            ],
        ),
        numbers(
            "lag_1",
            &[
                Some(0.0),
                Some(1.0),
                Some(f64::NEG_INFINITY),
                Some(3.0),
                Some(4.0),
                Some(f64::MAX),
            ],
        ),
    ]);
    let out = drop_non_finite_by_cols(&table, &names(&["price", "lag_1"])).unwrap();
    assert_eq!(read_text(&out, "date"), some_text(&["a", "f"]));
    assert_eq!(read_numbers(&out, "price"), vec![Some(1.0), Some(-6.0)]);
    let out = drop_non_finite_by_cols(&table, &names(&["lag_1"])).unwrap();
    assert_eq!(read_text(&out, "date"), some_text(&["a", "b", "d", "e", "f"]));
    let out = drop_non_finite_by_cols(&table, &[]).unwrap();
    assert_eq!(out.height(), 6);
}

#[test]
fn the_first_unsound_column_decides_the_error() {
    let table = table_of(vec![
        text("date", &[Some("a")]),
        numbers("price", &[Some(1.0)]),
    ]);
    assert_eq!(
        drop_non_finite_by_cols(&table, &names(&["price", "date", "volume"])).err(),
        Some(Error::NotNumeric)
    );
    assert_eq!(
        drop_non_finite_by_cols(&table, &names(&["price", "volume", "date"])).err(),
        Some(Error::MissingColumn)
    );
}

#[test]
fn a_year_is_four_characters_read_as_a_signed_number() {
    assert_eq!(parse_year("2023-01-01"), Some(2023));
    assert_eq!(parse_year("2023-01-01T12:00:00"), Some(2023));
    assert_eq!(parse_year("2023"), Some(2023));
    assert_eq!(parse_year("0007"), Some(7));
    assert_eq!(parse_year("0000"), Some(0));
    assert_eq!(parse_year("9999x"), Some(9999));
    assert_eq!(parse_year("+202"), Some(202));
    assert_eq!(parse_year("-202"), Some(-202));
    assert_eq!(parse_year("-000"), Some(0));
    assert_eq!(parse_year("202"), None);
    assert_eq!(parse_year(""), None);
    assert_eq!(parse_year("20a3"), None);
    assert_eq!(parse_year(" 202"), None);
    assert_eq!(parse_year("2 23"), None);
    assert_eq!(parse_year("++20"), None);
    assert_eq!(parse_year("20-3"), None);
    assert_eq!(parse_year("202+"), None);
    assert_eq!(parse_year("２０２３"), None);
    assert_eq!(parse_year("é023-01-01"), None);
    assert_eq!(parse_year("202é"), None);
    for text in ["2023", "+123", "-123", "0042", "12a4", "-12", "1e10"] {
        assert_eq!(
            parse_year(text),
            if text.len() >= 4 {
                text[0..4].parse::<i32>().ok()
            } else {
                None
            },
            "{text:?}"
        );
    }
}

#[test]
fn rows_are_split_at_the_year_after_the_cutoff() {
    let table = table_of(vec![
        text(
            "date",
            &[
                Some("2021-06-01"),
                Some("2022-12-31"),
                Some("2023-01-01"),
                None,
                Some("2023-12-31T23:00:00"),
                Some("2024-01-01"),
                Some("next year"),
                Some("2024-07-01"),
                Some("2025-01-01"),
                Some("202"),
                Some("2026-01-01"),
                Some("0999-01-01"),
            ],
        ),
        numbers(
            "price",
            &[
                Some(0.0),
                Some(1.0),
                Some(2.0),
                Some(3.0),
                Some(4.0),
                Some(5.0),
                Some(6.0),
                Some(7.0),
                Some(8.0),
                Some(9.0),
                Some(10.0),
                Some(11.0),
            ],
        ),
    ]);
    let (train, test) = train_test_split_by_year(&table, "date", 2023).unwrap();
    assert_eq!(
        read_numbers(&train, "price"),
        vec![Some(0.0), Some(1.0), Some(2.0), Some(4.0), Some(11.0)]
    );
    assert_eq!(read_numbers(&test, "price"), vec![Some(5.0), Some(7.0)]);
    assert!(train.height() + test.height() <= table.height());
    for cell in read_text(&train, "date") {
        assert!(parse_year(&cell.unwrap()).unwrap() <= 2023);
    }
    for cell in read_text(&test, "date") {
        assert_eq!(parse_year(&cell.unwrap()), Some(2024));
    }
    let (train, test) = train_test_split_by_year(&table, "date", 2024).unwrap();
    assert_eq!(train.height(), 7);
    assert_eq!(read_numbers(&test, "price"), vec![Some(8.0)]);
    let (train, test) = train_test_split_by_year(&table, "date", 998).unwrap();
    assert_eq!(train.height(), 0);
    assert_eq!(read_numbers(&test, "price"), vec![Some(11.0)]);
}

#[test]
fn the_last_year_there_is_has_no_year_after_it() {
    let table = table_of(vec![text(
        "date",
        &[Some("2023-01-01"), Some("9999-01-01"), Some("-999-01-01")],
    )]);
    let (train, test) = train_test_split_by_year(&table, "date", i32::MAX).unwrap();
    assert_eq!(train.height(), 3);
    assert_eq!(test.height(), 0);
    let (train, test) = train_test_split_by_year(&table, "date", i32::MIN).unwrap();
    assert_eq!(train.height(), 0);
    assert_eq!(test.height(), 0);
    let (train, test) = train_test_split_by_year(&table, "date", -1000).unwrap();
    assert_eq!(train.height(), 0);
    assert_eq!(read_text(&test, "date"), some_text(&["-999-01-01"]));
}

#[test]
fn a_column_of_numbers_bears_no_year() {
    let table = table_of(vec![numbers("date", &[Some(2023.0), Some(2024.0)])]);
    let (train, test) = train_test_split_by_year(&table, "date", 2023).unwrap();
    assert_eq!(train.height(), 0);
    assert_eq!(test.height(), 0);
    assert_eq!(train.width(), 1);
}

#[test]
fn splitting_needs_the_column() {
    let table = table_of(vec![numbers("price", &[Some(1.0)])]);
    assert_eq!(
        train_test_split_by_year(&table, "date", 2023).err(),
        Some(Error::MissingColumn)
    );
}

#[test]
fn keys_are_ordered_with_equal_keys_in_their_order() {
    let keys: Vec<Vec<u8>> = ["b", "a", "", "b", "ab", "a", "\u{e9}"]
        .iter()
        .map(|k| k.as_bytes().to_vec())
        .collect();
    assert_eq!(order_by_keys(&keys), vec![2, 1, 5, 4, 0, 3, 6]);
    assert_eq!(order_by_keys(&Vec::new()), Vec::<usize>::new());
    assert_eq!(order_by_keys(&vec![vec![7u8]]), vec![0]);
}
