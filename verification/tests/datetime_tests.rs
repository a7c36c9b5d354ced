use wc_parser::datetime::{
    change_frequency_analysis, check_above_12, check_decreasing, convert_time_12_to_24,
    days_before_months, group_array_by_value_at_index, index_above_value, is_negative,
    normalize_ampm, normalize_date, normalize_time, order_date_components,
    try_convert_time_12_to_24,
};

#[test]
fn test_check_above_12() {
    let days_first = vec![vec![3, 6, 2017], vec![13, 11, 2017], vec![26, 12, 2017]];
    let months_first = vec![vec![4, 2, 2017], vec![6, 11, 2017], vec![12, 13, 2017]];
    let undetectable = vec![vec![4, 6, 2017], vec![11, 10, 2017], vec![12, 12, 2017]];

    assert_eq!(check_above_12(&days_first), Some(true));
    assert_eq!(check_above_12(&months_first), Some(false));
    assert_eq!(check_above_12(&undetectable), None);
}

#[test]
fn test_check_decreasing() {
    let days_first = vec![vec![8, 3, 2017], vec![10, 5, 2017], vec![6, 9, 2017]];
    let months_first = vec![vec![6, 3, 2017], vec![8, 5, 2017], vec![9, 4, 2017]];
    let undetectable = vec![vec![1, 1, 2017], vec![3, 3, 2017], vec![6, 6, 2017]];
    let different_years1 = vec![vec![8, 3, 2017], vec![7, 5, 2017], vec![6, 9, 2018]];
    let different_years2 = vec![vec![8, 3, 2017], vec![10, 2, 2017], vec![6, 9, 2018]];
    let different_years3 = vec![vec![8, 3, 2017], vec![10, 5, 2017], vec![6, 9, 2018]];

    assert_eq!(check_decreasing(&days_first), Some(true));
    assert_eq!(check_decreasing(&months_first), Some(false));
    assert_eq!(check_decreasing(&undetectable), None);
    assert_eq!(check_decreasing(&different_years1), Some(true));
    assert_eq!(check_decreasing(&different_years2), Some(false));
    assert_eq!(check_decreasing(&different_years3), None);
}

#[test]
fn test_change_frequency_analysis() {
    let days_first = vec![vec![3, 4, 2017], vec![7, 5, 2017], vec![11, 6, 2017]];
    let months_first = vec![vec![1, 1, 2017], vec![1, 3, 2017], vec![2, 7, 2017]];
    let undetectable = vec![vec![6, 3, 2017], vec![8, 5, 2017], vec![9, 4, 2017]];

    assert_eq!(change_frequency_analysis(&days_first), Some(true));
    assert_eq!(change_frequency_analysis(&months_first), Some(false));
    assert_eq!(change_frequency_analysis(&undetectable), None);
}

#[test]
fn test_normalize_date() {
    let expected = ("2011".to_string(), "03".to_string(), "04".to_string());

    assert_eq!(normalize_date("11", "3", "4"), expected);
    assert_eq!(normalize_date("2011", "03", "04"), expected);
}

#[test]
fn test_convert_time_12_to_24() {
    assert_eq!(convert_time_12_to_24("12:00", "PM"), "12:00");
    assert_eq!(convert_time_12_to_24("12:00", "AM"), "00:00");
    assert_eq!(convert_time_12_to_24("05:06", "PM"), "17:06");
    assert_eq!(convert_time_12_to_24("07:19", "AM"), "07:19");
    assert_eq!(convert_time_12_to_24("01:02:34", "PM"), "13:02:34");
    assert_eq!(convert_time_12_to_24("02:04:54", "AM"), "02:04:54");
}

#[test]
fn test_normalize_ampm() {
    assert_eq!(normalize_ampm("am"), "AM");
    assert_eq!(normalize_ampm("pm"), "PM");
    assert_eq!(normalize_ampm("AM"), "AM");
    assert_eq!(normalize_ampm("PM"), "PM");
    assert_eq!(normalize_ampm("a.m."), "AM");
    assert_eq!(normalize_ampm("p.m."), "PM");
    assert_eq!(normalize_ampm("A.M."), "AM");
    assert_eq!(normalize_ampm("P.M."), "PM");
}

#[test]
fn test_normalize_time() {
    assert_eq!(normalize_time("12:34"), "12:34:00");
    assert_eq!(normalize_time("1:23:45"), "01:23:45");
    assert_eq!(normalize_time("12:34:56"), "12:34:56");
}

#[test]
fn test_index_above_value() {
    let array = vec![34, 16];

    assert!(index_above_value(0, 33)(&array));
    assert!(!index_above_value(0, 34)(&array));
    assert!(index_above_value(1, 15)(&array));
    assert!(!index_above_value(1, 16)(&array));
    assert!(!index_above_value(1, 17)(&array));
}

#[test]
fn test_is_negative() {
    assert!(is_negative(-1));
    assert!(is_negative(-15));
    assert!(is_negative(std::i32::MIN));

    assert!(!is_negative(0));
    assert!(!is_negative(1));
    assert!(!is_negative(15));
    assert!(!is_negative(std::i32::MAX));
}

#[test]
fn test_group_array_by_value_at_index() {
    let array = vec![
        vec!["8".to_string(), "30".to_string(), "sample".to_string()],
        vec!["9".to_string(), "50".to_string(), "sample".to_string()],
        vec!["6".to_string(), "30".to_string(), "sample".to_string()],
    ];

    let grouped_by_0 = group_array_by_value_at_index(&array, 0);
    assert_eq!(grouped_by_0.len(), 3);

    let grouped_by_1 = group_array_by_value_at_index(&array, 1);
    assert_eq!(grouped_by_1.len(), 2);

    let grouped_by_2 = group_array_by_value_at_index(&array, 2);
    assert_eq!(grouped_by_2.len(), 1);
}

#[test]
fn test_group_array_order_and_members() {
    let array = vec![vec![8, 2017], vec![9, 2018], vec![6, 2017], vec![1, 2019], vec![2, 2018]];
    let groups = group_array_by_value_at_index(&array, 1);
    assert_eq!(
        groups,
        vec![
            vec![vec![8, 2017], vec![6, 2017]],
            vec![vec![9, 2018], vec![2, 2018]],
            vec![vec![1, 2019]],
        ]
    );
    let nothing: Vec<Vec<i32>> = Vec::new();
    assert_eq!(group_array_by_value_at_index(&nothing, 0).len(), 0);
}

#[test]
fn test_days_before_months() {
    let days_first = vec![vec![3, 6, 2017], vec![13, 11, 2017], vec![26, 12, 2017]];
    let months_first = vec![vec![4, 2, 2017], vec![6, 11, 2017], vec![12, 13, 2017]];
    assert_eq!(days_before_months(&days_first), Some(true));
    assert_eq!(days_before_months(&months_first), Some(false));

    let nothing: Vec<Vec<i32>> = Vec::new();
    assert_eq!(days_before_months(&nothing), None);
    let single = vec![vec![3, 6, 2017]];
    assert_eq!(days_before_months(&single), None);
    let still = vec![vec![3, 6, 2017], vec![3, 6, 2017]];
    assert_eq!(days_before_months(&still), None);
}

#[test]
fn test_range_check_comes_first() {
    // The second number goes down within 2017 and changes more, but a 13 in
    // front settles it.
    let dates = vec![vec![1, 9, 2017], vec![13, 1, 2017]];
    assert_eq!(check_above_12(&dates), Some(true));
    assert_eq!(check_decreasing(&dates), Some(false));
    assert_eq!(change_frequency_analysis(&dates), Some(true));
    assert_eq!(days_before_months(&dates), Some(true));

    let dates = vec![vec![9, 1, 2017], vec![1, 13, 2017]];
    assert_eq!(check_above_12(&dates), Some(false));
    assert_eq!(check_decreasing(&dates), Some(true));
    assert_eq!(days_before_months(&dates), Some(false));

    // A number above 12 in both places: the one in front is looked at first.
    let dates = vec![vec![13, 14, 2017]];
    assert_eq!(check_above_12(&dates), Some(true));
}

#[test]
fn test_decreasing_comes_before_frequency() {
    // The number in front changes less (1 against 7), but goes down.
    let dates = vec![vec![5, 1, 2017], vec![4, 8, 2017]];
    assert_eq!(check_above_12(&dates), None);
    assert_eq!(check_decreasing(&dates), Some(true));
    assert_eq!(change_frequency_analysis(&dates), Some(false));
    assert_eq!(days_before_months(&dates), Some(true));
}

#[test]
fn test_days_first_signal_overrides_other_year() {
    // 2017: the second number goes down. 2018: the number in front goes down.
    let dates = vec![vec![1, 5, 2017], vec![2, 3, 2017], vec![9, 1, 2018], vec![4, 2, 2018]];
    assert_eq!(check_decreasing(&dates), Some(true));
    // The groups may be interleaved.
    let dates = vec![vec![1, 5, 2017], vec![9, 1, 2018], vec![2, 3, 2017], vec![4, 2, 2018]];
    assert_eq!(check_decreasing(&dates), Some(true));
    // Going down across a change of year tells nothing.
    let dates = vec![vec![9, 9, 2017], vec![1, 1, 2018]];
    assert_eq!(check_decreasing(&dates), None);
    // Neighbours within a year may be far apart in the batch.
    let dates = vec![vec![9, 1, 2017], vec![1, 1, 2018], vec![2, 2, 2018], vec![8, 2, 2017]];
    assert_eq!(check_decreasing(&dates), Some(true));
}

#[test]
fn test_change_frequency_exact_sums() {
    // In front 4 + 4 = 8, second 1 + 1 = 2.
    assert_eq!(
        change_frequency_analysis(&vec![vec![3, 4, 2017], vec![7, 5, 2017], vec![11, 6, 2017]]),
        Some(true)
    );
    // 5 + 5 against 10 + 0: a tie.
    assert_eq!(
        change_frequency_analysis(&vec![vec![0, 0, 1], vec![5, 10, 1], vec![0, 10, 1]]),
        None
    );
    // The distance is counted in both directions and over changes of year.
    assert_eq!(
        change_frequency_analysis(&vec![vec![9, 1, 2017], vec![1, 2, 2018]]),
        Some(true)
    );
    // The largest distances do not overflow.
    let far = vec![
        vec![i32::MIN, 0, 1],
        vec![i32::MAX, 0, 1],
        vec![i32::MIN, 0, 1],
        vec![i32::MAX, 1, 1],
    ];
    assert_eq!(change_frequency_analysis(&far), Some(true));
    assert_eq!(check_decreasing(&far), Some(true));
}

#[test]
fn test_order_date_components() {
    let triple = |a: &str, b: &str, c: &str| (a.to_string(), b.to_string(), c.to_string());
    assert_eq!(order_date_components("13/06/2018"), triple("13", "06", "2018"));
    assert_eq!(order_date_components("06/2018/13"), triple("06", "13", "2018"));
    assert_eq!(order_date_components("2018/06/13"), triple("06", "13", "2018"));
    assert_eq!(order_date_components("13. 6. 2018"), triple("13", "6", "2018"));
    assert_eq!(order_date_components("3-6-18"), triple("3", "6", "18"));
    // Of two parts of the same length the later one is the year.
    assert_eq!(order_date_components("11.22.3"), triple("11", "3", "22"));
    assert_eq!(order_date_components("13/6/18"), triple("13", "6", "18"));
    // Only the first three parts count.
    assert_eq!(order_date_components("1/2/2003/4"), triple("1", "2", "2003"));
    assert_eq!(order_date_components("//"), triple("", "", ""));
}

#[test]
fn test_normalize_date_edges() {
    let triple = |a: &str, b: &str, c: &str| (a.to_string(), b.to_string(), c.to_string());
    assert_eq!(normalize_date("7", "12", "31"), triple("2007", "12", "31"));
    assert_eq!(normalize_date("", "", ""), triple("2000", "00", "00"));
    assert_eq!(normalize_date("018", "003", "4"), triple("0018", "003", "04"));
    assert_eq!(normalize_date("1", "1", "1"), triple("2001", "01", "01"));
    assert_eq!(normalize_date("999", "12", "31"), triple("0999", "12", "31"));
    assert_eq!(normalize_date("12345", "12", "31"), triple("12345", "12", "31"));
    for year in ["5", "18", "018", "2018", "0007", "20180"] {
        let once = normalize_date(year, "6", "3");
        assert!(once.0.len() >= 4 && once.0.ends_with(year));
        assert_eq!(once.0.len() == 4, year.len() <= 4);
        assert_eq!(normalize_date(&once.0, &once.1, &once.2), once);
    }
}

#[test]
fn test_normalize_date_twice() {
    let once = normalize_date("18", "6", "3");
    let twice = normalize_date(&once.0, &once.1, &once.2);
    assert_eq!(once, ("2018".to_string(), "06".to_string(), "03".to_string()));
    assert_eq!(twice, once);
}

#[test]
fn test_normalize_time_twice() {
    for time in ["1:55", "01.55.07", "9.05", "1:2:3:4", ":", "a:b"] {
        let once = normalize_time(time);
        assert_eq!(normalize_time(&once), once);
    }
    assert_eq!(normalize_time("1:2:3:4"), "01:2:3");
    assert_eq!(normalize_time(":"), "00::00");
    assert_eq!(normalize_time("01.55.07"), "01:55:07");
}

#[test]
fn test_convert_time_edges() {
    assert_eq!(convert_time_12_to_24("1.55", "PM"), "13:55");
    assert_eq!(convert_time_12_to_24("12:30:15", "AM"), "00:30:15");
    assert_eq!(convert_time_12_to_24("11:59", "pm"), "11:59");
    assert_eq!(convert_time_12_to_24("+7:00", "PM"), "19:00");
    assert_eq!(convert_time_12_to_24("-3:00", "AM"), "-3:00");
    assert_eq!(convert_time_12_to_24("-30:00", "PM"), "-18:00");
    assert_eq!(convert_time_12_to_24("123:00", "AM"), "123:00");
    assert_eq!(convert_time_12_to_24("2147483647:00", "PM"), "2147483659:00");
    assert_eq!(convert_time_12_to_24("1:2:3:4", "PM"), "13:2:3");
}

#[test]
fn test_try_convert_time() {
    assert_eq!(try_convert_time_12_to_24("05:06", "PM"), Some("17:06".to_string()));
    assert_eq!(try_convert_time_12_to_24("0506", "PM"), None);
    assert_eq!(try_convert_time_12_to_24("x:06", "PM"), None);
    assert_eq!(try_convert_time_12_to_24(":06", "PM"), None);
    assert_eq!(try_convert_time_12_to_24("2147483648:06", "PM"), None);
    assert_eq!(try_convert_time_12_to_24("\u{0661}:06", "PM"), None);
}

#[test]
fn test_normalize_ampm_more() {
    assert_eq!(normalize_ampm("p. m."), "PM");
    assert_eq!(normalize_ampm(" a m "), "AM");
    assert_eq!(normalize_ampm("12"), "");
    assert_eq!(normalize_ampm(""), "");
}

#[test]
fn test_group_array_holds_every_row_once() {
    let row = |a: &str, b: &str| vec![a.to_string(), b.to_string()];
    let array = vec![row("1", "x"), row("2", "y"), row("3", "x"), row("4", "z"), row("5", "y")];
    let groups = group_array_by_value_at_index(&array, 1);
    assert_eq!(
        groups,
        vec![
            vec![row("1", "x"), row("3", "x")],
            vec![row("2", "y"), row("5", "y")],
            vec![row("4", "z")],
        ]
    );
    let sizes: usize = groups.iter().map(|group| group.len()).sum();
    assert_eq!(sizes, array.len());
    assert!(groups.iter().all(|group| !group.is_empty()));
    let mut rows: Vec<Vec<String>> = groups.into_iter().flatten().collect();
    rows.sort();
    assert_eq!(rows, array);
}
