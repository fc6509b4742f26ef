use fastnote::date::{
    civil_from_days, daily_note_rel, date_from_unix, datetime_from_unix, days_from_civil,
    parse_ymd, time_with_offset, weekday_cn,
};

#[test]
fn epoch_day_zero_is_1970_01_01() {
    assert_eq!(civil_from_days(0), (1970, 1, 1));
}

#[test]
fn known_day_numbers_convert_correctly() {
    // 2000-01-01 = 10957 天；2024-01-01 = 19723 天；闰日 2024-02-29 = 19782 天
    assert_eq!(civil_from_days(10_957), (2000, 1, 1));
    assert_eq!(civil_from_days(19_723), (2024, 1, 1));
    assert_eq!(civil_from_days(19_782), (2024, 2, 29));
    // 1970-01-01 前一天
    assert_eq!(civil_from_days(-1), (1969, 12, 31));
}

#[test]
fn formats_with_zero_padding() {
    assert_eq!(date_from_unix(0), "1970-01-01");
    // 2024-01-01T00:00:00Z = 19723 天
    assert_eq!(date_from_unix(19_723 * 86_400), "2024-01-01");
    // 2026-09-17T00:00:00Z = 20713 天，顺便验证"今天"这条链路
    assert_eq!(date_from_unix(20_713 * 86_400), "2026-09-17");
}

#[test]
fn offset_shifts_across_midnight() {
    // UTC 2024-01-01 23:00 → UTC+8 已经是 1 月 2 日
    let utc_23 = 19_723 * 86_400 + 23 * 3600;
    assert_eq!(date_from_unix(utc_23), "2024-01-01");
    assert_eq!(date_from_unix(utc_23 + 480 * 60), "2024-01-02");
}

#[test]
fn daily_note_path_is_dated() {
    assert_eq!(daily_note_rel("2026-09-17"), "daily/2026-09-17.md");
}

#[test]
fn days_from_civil_inverts_civil_from_days() {
    for days in [-400_000i64, -1, 0, 1, 10_957, 19_723, 19_782, 20_713, 900_000] {
        let (y, m, d) = civil_from_days(days);
        assert_eq!(days_from_civil(y, m, d), days, "{y}-{m}-{d} 往返失败");
    }
}

#[test]
fn weekday_names_are_correct() {
    // 1970-01-01 是周四；2026-09-17 也是周四（相差 20713 天，恰好整除 7）
    assert_eq!(weekday_cn("1970-01-01"), "周四");
    assert_eq!(weekday_cn("2026-09-17"), "周四");
    assert_eq!(weekday_cn("2024-02-29"), "周四");
    assert_eq!(weekday_cn("2000-01-01"), "周六");
    // 非法输入不能 panic
    assert_eq!(weekday_cn(""), "");
    assert_eq!(weekday_cn("2026-13-40"), "");
}

#[test]
fn datetime_formats_with_clock() {
    // 1970-01-01 00:00:00 UTC -> +8 时区为当天 08:00
    assert_eq!(datetime_from_unix(0), "1970-01-01 08:00:00");
    // 2026-09-17 06:05:33 UTC -> 14:05:33 本地
    let secs = 20_713 * 86_400 + 6 * 3600 + 5 * 60 + 33;
    assert_eq!(datetime_from_unix(secs), "2026-09-17 14:05:33");
}

#[test]
fn time_with_offset_is_zero_padded() {
    let t = time_with_offset(0);
    assert_eq!(t.len(), 8, "应形如 HH:MM:SS，实际 {t}");
    assert_eq!(t.matches(':').count(), 2);
}

#[test]
fn written_dates_are_read_back() {
    for n in [-719_528, -1, 0, 19_782, 2_932_896, 2_932_897, 100_000_000] {
        let s = date_from_unix(n * 86_400 + 5);
        assert_eq!(parse_ymd(&s), Some(civil_from_days(n)), "{s}");
        assert_eq!(parse_ymd(&s.replace('-', "/")), Some(civil_from_days(n)));
    }
}
