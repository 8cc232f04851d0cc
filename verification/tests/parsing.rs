use zircuit_fetcher::decimal::Decimal;
use zircuit_fetcher::decimal::parse_decimal_text;
use zircuit_fetcher::records::FetchError;
use zircuit_fetcher::records::User;
use zircuit_fetcher::records::UserSeason1;
use zircuit_fetcher::records::UserSeason2;
use zircuit_fetcher::records::fetch_user_info;

fn dec(neg: bool, mant: u64, scale: usize) -> Decimal {
    Decimal { neg, mant, scale }
}

fn zero() -> Decimal {
    Decimal::zero()
}

fn zero_user(address: &str) -> User {
    User {
        address: address.to_string(),
        season1: UserSeason1 {
            address: address.to_string(),
            total_points: zero(),
            total_staking_points: zero(),
            total_ref_points: zero(),
            total_pendle_points: zero(),
            total_build_points: zero(),
        },
        season2: UserSeason2 {
            address: address.to_string(),
            total_points: zero(),
            total_staking_points: zero(),
            total_ref_points: zero(),
            total_build_points: zero(),
            total_ref_build_points: zero(),
            total_pendle_points: zero(),
        },
    }
}

#[test]
fn deserialize_points_response() {
    let s = r#"{"totalPoints":"0","season1Points":{"totalPoints":535.5548897963093,"totalStakingPoints":535.5548897963093,"totalRefPoints":0,"totalBuildPoints":0},"totalStakingPoints":"0","totalRefPoints":"0","totalBuildPoints":"0","totalRefBuildPoints":"0","totalPendlePoints":"0","totalInstadappPoints":"0","totalOKXPoints":"0","totalExtraPoints":"0","isPendleUser":false}"#;
    let user = fetch_user_info("0x123", s).unwrap();
    let expected_user = User {
        address: "0x123".to_string(),
        season1: UserSeason1 {
            address: "0x123".to_string(),
            total_points: dec(false, 5355548897963093, 13),
            total_staking_points: dec(false, 5355548897963093, 13),
            total_ref_points: zero(),
            total_pendle_points: zero(),
            total_build_points: zero(),
        },
        season2: UserSeason2 {
            address: "0x123".to_string(),
            total_points: zero(),
            total_staking_points: zero(),
            total_ref_points: zero(),
            total_build_points: zero(),
            total_ref_build_points: zero(),
            total_pendle_points: zero(),
        },
    };
    assert_eq!(user, expected_user);
}

#[test]
fn unparseable_body_yields_default_record() {
    let user = fetch_user_info("0xabc", "upstream had a bad day").unwrap();
    assert_eq!(user, zero_user("0xabc"));
}

#[test]
fn error_shaped_body_yields_zero_totals() {
    let user = fetch_user_info("0xabc", r#"{"error":"address not found"}"#).unwrap();
    assert_eq!(user, zero_user("0xabc"));
}

#[test]
fn empty_object_yields_zero_totals() {
    let user = fetch_user_info("0xabc", "{}").unwrap();
    assert_eq!(user, zero_user("0xabc"));
}

#[test]
fn unreadable_field_is_an_error() {
    let r = fetch_user_info("0xabc", r#"{"totalPoints":"not a number"}"#);
    assert_eq!(r, Err(FetchError::UnreadableField));
    let r2 = fetch_user_info("0xabc", r#"{"totalPoints":null}"#);
    assert_eq!(r2, Err(FetchError::UnreadableField));
    let r3 = fetch_user_info("0xabc", r#"{"season1Points":17}"#);
    assert_eq!(r3, Err(FetchError::UnreadableField));
}

#[test]
fn string_and_number_parse_alike() {
    let from_string = fetch_user_info("0xa", r#"{"totalPoints":"12.5"}"#).unwrap();
    let from_number = fetch_user_info("0xa", r#"{"totalPoints":12.5}"#).unwrap();
    assert_eq!(from_string, from_number);
    assert_eq!(from_string.season2.total_points, dec(false, 125, 1));

    let whole = fetch_user_info("0xa", r#"{"totalPoints":7.0}"#).unwrap();
    assert_eq!(whole.season2.total_points, dec(false, 7, 0));
}

#[test]
fn decimal_values_are_canonical() {
    assert_eq!(parse_decimal_text("12.50"), Some(dec(false, 125, 1)));
    assert_eq!(parse_decimal_text("12.5"), Some(dec(false, 125, 1)));
    assert_eq!(parse_decimal_text("7.0"), Some(dec(false, 7, 0)));
    assert_eq!(parse_decimal_text("-0.0"), Some(zero()));
    assert_eq!(parse_decimal_text("0"), Some(zero()));
    assert_eq!(parse_decimal_text("-3.25"), Some(dec(true, 325, 2)));
    assert_eq!(parse_decimal_text("100"), Some(dec(false, 100, 0)));
}

#[test]
fn decimal_parse_rejects_what_is_not_decimal() {
    assert_eq!(parse_decimal_text(""), None);
    assert_eq!(parse_decimal_text("abc"), None);
    assert_eq!(parse_decimal_text("1."), None);
    assert_eq!(parse_decimal_text(".5"), None);
    assert_eq!(parse_decimal_text("1.2.3"), None);
    assert_eq!(parse_decimal_text(" 1"), None);
    // more digits than the mantissa can hold
    assert_eq!(parse_decimal_text("123456789012345678901"), None);
}

#[test]
fn canonical_text_renders_the_value() {
    assert_eq!(dec(false, 125, 1).to_text(), "12.5");
    assert_eq!(dec(false, 7, 0).to_text(), "7");
    assert_eq!(dec(false, 1, 3).to_text(), "0.001");
    assert_eq!(dec(true, 325, 2).to_text(), "-3.25");
    assert_eq!(zero().to_text(), "0");
    assert_eq!(dec(false, 100, 0).to_text(), "100");
}

#[test]
fn text_written_is_text_read_back() {
    let values = [
        zero(),
        dec(false, 125, 1),
        dec(false, 7, 0),
        dec(false, 1, 3),
        dec(true, 325, 2),
        dec(false, 5355548897963093, 13),
        dec(false, u64::MAX, 0),
    ];
    for v in values {
        assert_eq!(parse_decimal_text(&v.to_text()), Some(v));
    }
}

#[test]
fn unknown_members_are_skipped() {
    let s = r#"{"meta":{"tags":["a","}","{"],"inner":{"x":1}},"totalPoints":5,"alsoIgnored":null}"#;
    let user = fetch_user_info("0xa", s).unwrap();
    assert_eq!(user.season2.total_points, dec(false, 5, 0));
    assert_eq!(user.season1.total_points, zero());
}

#[test]
fn missing_season_defaults_to_zero() {
    let s = r#"{"totalPoints":"3","totalStakingPoints":2}"#;
    let user = fetch_user_info("0xa", s).unwrap();
    assert_eq!(user.season2.total_points, dec(false, 3, 0));
    assert_eq!(user.season2.total_staking_points, dec(false, 2, 0));
    assert_eq!(user.season1.total_points, zero());
    assert_eq!(user.season1.total_build_points, zero());
}

#[test]
fn season_members_parse_with_whitespace() {
    let s = "{ \"season1Points\" : { \"totalPoints\" : \"1.5\" , \"totalRefPoints\" : 2 } , \"totalPoints\" : 9 }";
    let user = fetch_user_info("0xa", s).unwrap();
    assert_eq!(user.season1.total_points, dec(false, 15, 1));
    assert_eq!(user.season1.total_ref_points, dec(false, 2, 0));
    assert_eq!(user.season2.total_points, dec(false, 9, 0));
}

#[test]
fn trailing_text_is_not_a_points_object() {
    let user = fetch_user_info("0xa", r#"{"totalPoints":5} extra"#).unwrap();
    assert_eq!(user, zero_user("0xa"));
}
