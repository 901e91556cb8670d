use storm_radar::frame_time::previous_frame_time;

#[test]
fn minute_is_floored_to_the_grid_and_lagged() {
    // 14:35 floors to 14:30, minus twelve minutes: 14:18
    assert_eq!(previous_frame_time(2024, 4, 24, 14, 35, 31), (2024, 4, 24, 14, 18));
    // 14:12 floors to 14:12, minus twelve: 14:00
    assert_eq!(previous_frame_time(2024, 4, 24, 14, 12, 31), (2024, 4, 24, 14, 0));
}

#[test]
fn lag_borrows_an_hour() {
    // 14:05 floors to 14:00, minus twelve: 13:48
    assert_eq!(previous_frame_time(2024, 4, 24, 14, 5, 31), (2024, 4, 24, 13, 48));
}

#[test]
fn lag_rolls_over_day_month_and_year() {
    // just after midnight: previous day, 23:48
    assert_eq!(previous_frame_time(2024, 4, 24, 0, 3, 31), (2024, 4, 23, 23, 48));
    // first of the month: the caller-supplied fallback day of the previous month
    assert_eq!(previous_frame_time(2024, 4, 1, 0, 3, 31), (2024, 3, 31, 23, 48));
    // new year's night rolls the year
    assert_eq!(previous_frame_time(2024, 1, 1, 0, 0, 31), (2023, 12, 31, 23, 48));
}

#[test]
fn result_minute_is_always_on_the_grid() {
    for minute in 0..60 {
        let (_, _, _, hour, m) = previous_frame_time(2024, 6, 15, 12, minute, 30);
        assert!(m % 6 == 0);
        assert!((0..60).contains(&m));
        assert!((11..=12).contains(&hour));
    }
}
