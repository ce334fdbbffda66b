use chrono::NaiveDate;
use jrl::utility::{day_file_name, get_day_file_name};

#[test]
fn day_file_names_are_zero_padded() {
    assert_eq!(day_file_name(2024, 3, 7), "2024-03-07.txt");
    assert_eq!(day_file_name(1999, 12, 31), "1999-12-31.txt");
    assert_eq!(day_file_name(5, 1, 1), "0005-01-01.txt");
    assert_eq!(day_file_name(0, 1, 1), "0000-01-01.txt");
}

#[test]
fn day_file_names_sign_other_years() {
    assert_eq!(day_file_name(-5, 1, 1), "-0005-01-01.txt");
    assert_eq!(day_file_name(12345, 6, 15), "+12345-06-15.txt");
    assert_eq!(day_file_name(-262143, 1, 1), "-262143-01-01.txt");
}

#[test]
fn day_file_name_matches_chrono() {
    for days in [0i64, 1, 2, 30, 365, -3] {
        let expected = (chrono::offset::Local::now() - chrono::Duration::days(days))
            .format("%Y-%m-%d.txt")
            .to_string();
        let got = get_day_file_name(days);
        // The clock may pass midnight between the two calls.
        let later = (chrono::offset::Local::now() - chrono::Duration::days(days))
            .format("%Y-%m-%d.txt")
            .to_string();
        assert!(got == expected || got == later, "{} {}", got, expected);
    }
}

#[test]
fn chrono_formats_years_like_day_file_name() {
    for (y, m, d) in [(2024, 3, 7), (5, 1, 1), (-5, 1, 1), (12345, 6, 15)] {
        let date = NaiveDate::from_ymd_opt(y, m, d).unwrap();
        assert_eq!(date.format("%Y-%m-%d.txt").to_string(), day_file_name(y, m, d));
    }
}

#[test]
fn day_file_names_order_like_dates() {
    let dates = [
        (5, 1, 1),
        (999, 12, 31),
        (2023, 12, 31),
        (2024, 1, 1),
        (2024, 1, 9),
        (2024, 1, 10),
        (2024, 2, 1),
        (9999, 12, 31),
    ];
    for w in dates.windows(2) {
        let (a, b) = (w[0], w[1]);
        assert!(day_file_name(a.0, a.1, a.2) < day_file_name(b.0, b.1, b.2));
    }
}
