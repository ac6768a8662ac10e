use raptor::example::{get_example_start_time, get_example_transfer_time};
use raptor::network::{eq_ignoring_spaces, strip_spaces, Network};
use raptor::utils::{
    const_unwrap, get_short_stop_name, get_size_bits, get_time_str, is_zero, parse_decimal, parse_time,
    parse_time_impl, OptionExt,
};

#[test]
fn parse_time_reads_hours_minutes_seconds() {
    assert_eq!(parse_time("08:30:00").unwrap(), 30600);
    assert_eq!(parse_time("00:00:00").unwrap(), 0);
    assert_eq!(parse_time("23:59:59").unwrap(), 86399);
    assert_eq!(parse_time("12:34:56").unwrap(), 12 * 3600 + 34 * 60 + 56);
    assert_eq!(parse_time("1:02:03").unwrap(), 3723);
}

#[test]
fn parse_time_takes_hours_past_midnight() {
    assert_eq!(parse_time("24:00:00").unwrap(), 86400);
    assert_eq!(parse_time("25:10:05").unwrap(), 25 * 3600 + 10 * 60 + 5);
    assert_eq!(parse_time("100:00:00").unwrap(), 360000);
}

#[test]
fn parse_time_refuses_malformed_text() {
    for text in [
        "",
        "8:30",
        "08:30",
        "083000",
        "08-30-00",
        "08:30:0",
        "08:3:00",
        "08:30:000",
        "08:300:00",
        ":30:00",
        "aa:bb:cc",
        "08:30:00 ",
        " 08:30:00",
        "08:30:00:00",
        "-8:30:00",
        "08:30:0x",
        "٠٨:٣٠:٠٠",
    ] {
        match parse_time(text) {
            Err(gtfs_structures::Error::InvalidTime(refused)) => assert_eq!(refused, text),
            _ => panic!("{:?} should be an invalid time", text),
        }
    }
}

#[test]
fn parse_time_refuses_seconds_beyond_32_bits() {
    assert_eq!(parse_time("1193046:28:15").unwrap(), u32::MAX);
    assert!(matches!(parse_time("1193046:28:16"), Err(gtfs_structures::Error::InvalidTime(_))));
    assert!(matches!(parse_time("4294967296:00:00"), Err(gtfs_structures::Error::InvalidTime(_))));
}

#[test]
fn parse_decimal_takes_a_plus_sign_and_digits_only() {
    assert_eq!(parse_decimal("0"), Some(0));
    assert_eq!(parse_decimal("007"), Some(7));
    assert_eq!(parse_decimal("+12"), Some(12));
    assert_eq!(parse_decimal("4294967295"), Some(u32::MAX));
    assert_eq!(parse_decimal("4294967296"), None);
    assert_eq!(parse_decimal(""), None);
    assert_eq!(parse_decimal("+"), None);
    assert_eq!(parse_decimal("-1"), None);
    assert_eq!(parse_decimal("1 "), None);
    assert_eq!(parse_decimal("1_0"), None);
    // It reads as the standard library does.
    for text in ["0", "42", "+5", "", "+", "-3", "99999999999", "12a", "００"] {
        assert_eq!(parse_decimal(text), text.parse::<u32>().ok());
    }
}

#[test]
fn parse_time_impl_adds_the_fields() {
    assert_eq!(parse_time_impl("08", "30", "00"), Some(30600));
    assert_eq!(parse_time_impl("1", "1", "1"), Some(3661));
    assert_eq!(parse_time_impl("x", "30", "00"), None);
    assert_eq!(parse_time_impl("08", "", "00"), None);
    assert_eq!(parse_time_impl("1193046", "28", "15"), Some(u32::MAX));
    assert_eq!(parse_time_impl("1193046", "28", "16"), None);
}

#[test]
fn get_time_str_writes_two_digits_each() {
    assert_eq!(get_time_str(0), "00:00:00");
    assert_eq!(get_time_str(30600), "08:30:00");
    assert_eq!(get_time_str(86399), "23:59:59");
    assert_eq!(get_time_str(3723), "01:02:03");
    assert_eq!(get_time_str(25 * 3600 + 61), "25:01:01");
    assert_eq!(get_time_str(360000), "100:00:00");
    assert_eq!(get_time_str(u32::MAX), "1193046:28:15");
}

#[test]
fn time_survives_writing_and_reading() {
    let mut t: u32 = 0;
    while t < 24 * 3600 {
        assert_eq!(parse_time(&get_time_str(t)).unwrap(), t);
        t += 7;
    }
    for t in [86399, 86400, 90000, 360000, 1 << 31, u32::MAX - 1, u32::MAX] {
        assert_eq!(parse_time(&get_time_str(t)).unwrap(), t);
    }
}

#[test]
fn short_stop_name_ends_before_the_station_suffix() {
    assert_eq!(get_short_stop_name("Laburnum Railway Station (Blackburn)"), "Laburnum");
    assert_eq!(get_short_stop_name("Noble Park Railway Station (Noble Park)"), "Noble Park");
    assert_eq!(get_short_stop_name("Cheltenham Railway Station"), "Cheltenham");
    assert_eq!(get_short_stop_name("Cheltenham"), "Cheltenham");
    assert_eq!(get_short_stop_name(""), "");
    assert_eq!(get_short_stop_name(" Railway Station"), "");
    assert_eq!(get_short_stop_name("A Railway Station B Railway Station"), "A");
    assert_eq!(get_short_stop_name("Railway Station"), "Railway Station");
    assert_eq!(get_short_stop_name("Zoo Railway Statio"), "Zoo Railway Statio");
    assert_eq!(get_short_stop_name("Königstraße Railway Station (x)"), "Königstraße");
}

#[test]
fn stop_names_match_without_case_and_spaces() {
    assert!(Network::stop_name_cmp("Noble Park Railway Station (Noble Park)", "noblepark"));
    assert!(Network::stop_name_cmp("Noble Park Railway Station (Noble Park)", "NOBLE PARK"));
    assert!(Network::stop_name_cmp("Cheltenham", "cheltenham"));
    assert!(Network::stop_name_cmp("Cheltenham", " Chel ten ham "));
    assert!(!Network::stop_name_cmp("Cheltenham", "Cheltenham Railway Station"));
    assert!(!Network::stop_name_cmp("Cheltenham", "Atlantis"));
    assert!(!Network::stop_name_cmp("Cheltenham", "Cheltenha"));
    assert!(Network::stop_name_cmp("ÉCOLE Railway Station", "école"));
}

#[test]
fn spaces_are_stripped_and_the_rest_compared() {
    assert_eq!(strip_spaces(" a b  c "), vec!['a', 'b', 'c']);
    assert_eq!(strip_spaces(""), Vec::<char>::new());
    assert!(eq_ignoring_spaces("a b", "ab"));
    assert!(eq_ignoring_spaces("", "   "));
    assert!(!eq_ignoring_spaces("ab", "ba"));
    assert!(!eq_ignoring_spaces("a\tb", "ab"));
}

#[test]
fn is_zero_holds_of_buffers_without_a_flag() {
    assert!(is_zero(&[]));
    assert!(is_zero(&[false]));
    assert!(is_zero(&vec![false; 1000]));
    assert!(!is_zero(&[true]));
    for at in [0usize, 1, 15, 16, 17, 500, 999] {
        let mut buf = vec![false; 1000];
        buf[at] = true;
        assert!(!is_zero(&buf));
    }
}

#[test]
fn small_helpers() {
    assert_eq!(const_unwrap(Some(7u8)), 7);
    assert_eq!(get_size_bits::<u32>(), 32);
    assert_eq!(get_size_bits::<u8>(), 8);
    assert_eq!(get_size_bits::<[u64; 7]>(), 448);
    assert!(OptionExt::is_none_or(None::<u32>, |x: u32| x > 3));
    assert!(OptionExt::is_none_or(Some(5u32), |x: u32| x > 3));
    assert!(!OptionExt::is_none_or(Some(2u32), |x: u32| x > 3));
}

#[test]
fn example_scenario_values() {
    assert_eq!(get_example_transfer_time(), 180);
    assert_eq!(get_example_start_time(), 30600);
    assert_eq!(get_example_start_time(), parse_time("08:30:00").unwrap());
}
