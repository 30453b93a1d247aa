use mu_rust::calendar::{date_from_fixed, fixed_from_gregorian, is_gregorian_leap_year};
use mu_rust::config::window_length;
use mu_rust::ethernet::{MacAddress, MacAddressParseError};
use mu_rust::sample_buffer::SampleTime;

#[test]
fn leap_years() {
    assert!(is_gregorian_leap_year(2000));
    assert!(is_gregorian_leap_year(2024));
    assert!(!is_gregorian_leap_year(1900));
    assert!(!is_gregorian_leap_year(2023));
}

#[test]
fn fixed_day_numbers() {
    assert_eq!(fixed_from_gregorian(1, 1, 1), 1);
    assert_eq!(fixed_from_gregorian(1970, 1, 1), 719_163);
    assert_eq!(date_from_fixed(719_163), (1970, 1, 1));
    assert_eq!(date_from_fixed(1), (1, 1, 1));
    assert_eq!(date_from_fixed(738_945), (2024, 2, 29));
    assert_eq!(date_from_fixed(146_098), (401, 1, 1));
    for day in [1u64, 59, 60, 365, 366, 146_097, 146_098, 719_163, 738_945, 739_000] {
        let (y, m, d) = date_from_fixed(day);
        assert_eq!(fixed_from_gregorian(y, m, d), day);
    }
}

#[test]
fn date_time_of_timestamps() {
    // 2024-02-29 13:45:30 UTC is 1709214330 s after the epoch.
    let t = SampleTime::from_seconds_and_samples(1_709_214_330, 1234, 4000);
    assert_eq!(t.to_date_time(4000), (2024, 2, 29, 13, 45, 30, 308_500));
    let t = SampleTime::from_seconds_and_samples(0, 0, 4800);
    assert_eq!(t.to_date_time(4800), (1970, 1, 1, 0, 0, 0, 0));
    // 1999-12-31 23:59:59 and one sample of 4800 Hz: 208.33 us, truncated.
    let t = SampleTime::from_seconds_and_samples(946_684_799, 1, 4800);
    assert_eq!(t.to_date_time(4800), (1999, 12, 31, 23, 59, 59, 208));
    assert!(t.has_calendar_date(4800));
}

#[test]
fn window_lengths() {
    assert_eq!(window_length(4000, 50), Some(40));
    assert_eq!(window_length(4800, 60), Some(40));
    assert_eq!(window_length(4800, 50), Some(48));
    assert_eq!(window_length(4000, 0), None);
    assert_eq!(window_length(50, 50), None);
    assert_eq!(window_length(1000, 70), None);
    assert_eq!(window_length(1000, 60), Some(8));
}

#[test]
fn mac_address_parsing() {
    let m = MacAddress::parse("01-0C-CD-04-00-01").unwrap();
    assert_eq!(m.to_bytes(), [0x01, 0x0C, 0xCD, 0x04, 0x00, 0x01]);
    let m = MacAddress::parse("01:0c:cd:04:ff:+a").unwrap();
    assert_eq!(m.to_bytes(), [0x01, 0x0C, 0xCD, 0x04, 0xFF, 0x0A]);
    assert_eq!(MacAddress::parse("01-0C-CD-04-00").unwrap_err(), MacAddressParseError);
    assert!(MacAddress::parse("01-0C-CD-04-00-01-02").is_err());
    assert!(MacAddress::parse("01-0C-CD-04-00-0G").is_err());
    assert!(MacAddress::parse("01.0C.CD.04.00.01").is_err());
    assert!(MacAddress::parse("1-0C-CD-04-00-001").is_err());
}
