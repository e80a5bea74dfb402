use virtual_display_driver_cli::decimal::{format_decimal, parse_positive};
use virtual_display_driver_cli::mode::{Mode, ParseError};
use virtual_display_driver_cli::rates::RateSet;

fn mode(text: &str) -> Mode {
    Mode::parse(text).unwrap()
}

#[test]
fn parses_resolution_without_rates() {
    let m = mode("1920x1080");
    assert_eq!(m.width(), 1920);
    assert_eq!(m.height(), 1080);
    assert!(m.refresh_rates().is_empty());
    assert_eq!(m.refresh_rates().to_vec(), Vec::<u32>::new());
}

#[test]
fn parses_single_rate() {
    let m = mode("3840x2160@120");
    assert_eq!(m.width(), 3840);
    assert_eq!(m.height(), 2160);
    assert_eq!(m.refresh_rates().to_vec(), vec![120]);
}

#[test]
fn parses_rate_list() {
    let m = mode("1280x720@60/120");
    assert_eq!(m.refresh_rates().to_vec(), vec![60, 120]);
}

#[test]
fn rate_list_is_a_set_in_ascending_order() {
    let m = mode("1280x720@120/60/60/75");
    assert_eq!(m.refresh_rates().to_vec(), vec![60, 75, 120]);
    assert_eq!(m, mode("1280x720@60/75/120"));
}

#[test]
fn parses_largest_values() {
    let m = mode("4294967295x1@4294967295");
    assert_eq!(m.width(), u32::MAX);
    assert_eq!(m.height(), 1);
    assert_eq!(m.refresh_rates().to_vec(), vec![u32::MAX]);
}

#[test]
fn parses_leading_zeros() {
    let m = mode("0019x01@060");
    assert_eq!(m.width(), 19);
    assert_eq!(m.height(), 1);
    assert_eq!(m.refresh_rates().to_vec(), vec![60]);
}

#[test]
fn rejects_missing_separator() {
    assert_eq!(Mode::parse("1920"), Err(ParseError::MissingSeparator));
    assert_eq!(Mode::parse(""), Err(ParseError::MissingSeparator));
    assert_eq!(Mode::parse("@60"), Err(ParseError::MissingSeparator));
    assert_eq!(Mode::parse("1920X1080"), Err(ParseError::MissingSeparator));
    assert_eq!(Mode::parse("1920@60x1080"), Err(ParseError::MissingSeparator));
}

#[test]
fn rejects_bad_width() {
    assert_eq!(Mode::parse("x1080"), Err(ParseError::InvalidWidth));
    assert_eq!(Mode::parse("abcx1080"), Err(ParseError::InvalidWidth));
    assert_eq!(Mode::parse("19 20x1080"), Err(ParseError::InvalidWidth));
    assert_eq!(Mode::parse("+1920x1080"), Err(ParseError::InvalidWidth));
    assert_eq!(Mode::parse("-1920x1080"), Err(ParseError::InvalidWidth));
    assert_eq!(Mode::parse("4294967296x1080"), Err(ParseError::InvalidWidth));
    assert_eq!(Mode::parse("99999999999999999999999x1080"), Err(ParseError::InvalidWidth));
    assert_eq!(Mode::parse("\u{ff11}920x1080"), Err(ParseError::InvalidWidth));
}

#[test]
fn rejects_bad_height() {
    assert_eq!(Mode::parse("1920x"), Err(ParseError::InvalidHeight));
    assert_eq!(Mode::parse("1920xabc"), Err(ParseError::InvalidHeight));
    assert_eq!(Mode::parse("1920x1080x3"), Err(ParseError::InvalidHeight));
    assert_eq!(Mode::parse("1920x1080 "), Err(ParseError::InvalidHeight));
    assert_eq!(Mode::parse("1920x@60"), Err(ParseError::InvalidHeight));
    assert_eq!(Mode::parse("1920x4294967296"), Err(ParseError::InvalidHeight));
}

#[test]
fn rejects_zero_values() {
    assert_eq!(Mode::parse("0x1080"), Err(ParseError::InvalidWidth));
    assert_eq!(Mode::parse("1920x0"), Err(ParseError::InvalidHeight));
    assert_eq!(Mode::parse("1920x1080@0"), Err(ParseError::InvalidRefreshRate));
    assert_eq!(Mode::parse("1920x1080@60/0"), Err(ParseError::InvalidRefreshRate));
    assert_eq!(Mode::parse("000x1080"), Err(ParseError::InvalidWidth));
}

#[test]
fn rejects_bad_rate_list() {
    assert_eq!(Mode::parse("1920x1080@"), Err(ParseError::InvalidRefreshRate));
    assert_eq!(Mode::parse("1920x1080@60/"), Err(ParseError::InvalidRefreshRate));
    assert_eq!(Mode::parse("1920x1080@/60"), Err(ParseError::InvalidRefreshRate));
    assert_eq!(Mode::parse("1920x1080@60//120"), Err(ParseError::InvalidRefreshRate));
    assert_eq!(Mode::parse("1920x1080@60@120"), Err(ParseError::InvalidRefreshRate));
    assert_eq!(Mode::parse("1920x1080@sixty"), Err(ParseError::InvalidRefreshRate));
    assert_eq!(Mode::parse("1920x1080@60,120"), Err(ParseError::InvalidRefreshRate));
    assert_eq!(Mode::parse("1920x1080@4294967296"), Err(ParseError::InvalidRefreshRate));
}

#[test]
fn width_error_comes_before_height_and_rate_errors() {
    assert_eq!(Mode::parse("ax@"), Err(ParseError::InvalidWidth));
    assert_eq!(Mode::parse("1xb@"), Err(ParseError::InvalidHeight));
}

#[test]
fn formats_without_rates() {
    assert_eq!(mode("1920x1080").to_text(), "1920x1080");
}

#[test]
fn formats_rates_joined_by_slashes() {
    assert_eq!(mode("1280x720@120/60").to_text(), "1280x720@60/120");
    assert_eq!(mode("3840x2160@120").to_text(), "3840x2160@120");
    assert_eq!(mode("1x1@3/2/1/10").to_text(), "1x1@1/2/3/10");
}

#[test]
fn formats_canonically() {
    assert_eq!(mode("0019x01@060").to_text(), "19x1@60");
    assert_eq!(mode("4294967295x4294967295").to_text(), "4294967295x4294967295");
}

#[test]
fn text_round_trip() {
    for text in ["1920x1080", "3840x2160@120", "1280x720@60/120", "1x1@1/2/3", "800x600@4294967295"] {
        let m = mode(text);
        assert_eq!(m.to_text(), text);
        assert_eq!(Mode::parse(&m.to_text()), Ok(m));
    }
}

#[test]
fn builds_mode_from_parts() {
    let built = Mode::new(1920, 1080, RateSet::from_vec(&vec![120, 60, 60])).unwrap();
    assert_eq!(built, mode("1920x1080@60/120"));
    assert_eq!(built.clone(), built);
}

#[test]
fn refuses_zero_parts() {
    assert_eq!(Mode::new(0, 1080, RateSet::new()), None);
    assert_eq!(Mode::new(1920, 0, RateSet::new()), None);
    assert_eq!(Mode::new(1920, 1080, RateSet::from_vec(&vec![60, 0])), None);
}

#[test]
fn same_resolution_ignores_rates() {
    assert!(mode("1920x1080@60").same_resolution(&mode("1920x1080")));
    assert!(!mode("1920x1080").same_resolution(&mode("1080x1920")));
}

#[test]
fn combines_and_strips_rates() {
    let both = mode("1920x1080@60").with_rates_of(&mode("1920x1080@30/120"));
    assert_eq!(both, mode("1920x1080@30/60/120"));
    let fewer = both.without_rates(&RateSet::from_vec(&vec![60, 75]));
    assert_eq!(fewer, mode("1920x1080@30/120"));
}

#[test]
fn formats_decimal_numbers() {
    assert_eq!(format_decimal(0), "0");
    assert_eq!(format_decimal(7), "7");
    assert_eq!(format_decimal(10), "10");
    assert_eq!(format_decimal(1080), "1080");
    assert_eq!(format_decimal(u32::MAX), "4294967295");
}

#[test]
fn reads_positive_numbers() {
    let text: Vec<char> = "12x0034".chars().collect();
    assert_eq!(parse_positive(&text, 0, 2), Some(12));
    assert_eq!(parse_positive(&text, 3, 7), Some(34));
    assert_eq!(parse_positive(&text, 3, 5), None);
    assert_eq!(parse_positive(&text, 0, 3), None);
    assert_eq!(parse_positive(&text, 2, 2), None);
}

#[test]
fn rate_set_operations() {
    let mut set = RateSet::new();
    assert!(set.is_empty());
    set.insert(60);
    set.insert(30);
    set.insert(60);
    set.insert(144);
    assert_eq!(set.to_vec(), vec![30, 60, 144]);
    assert!(set.contains(30));
    assert!(!set.contains(31));
    let other = RateSet::from_vec(&vec![144, 75, 30]);
    assert_eq!(set.union(&other).to_vec(), vec![30, 60, 75, 144]);
    assert_eq!(set.difference(&other).to_vec(), vec![60]);
    assert_eq!(other.difference(&set).to_vec(), vec![75]);
    assert_eq!(set.clone(), set);
}
