use tailr::cal::{last_day_in_month, parse_month, CalDate};

#[test]
fn test_parse_month() {
    let res = parse_month("1".to_string());
    assert!(res.is_ok());
    assert_eq!(res.unwrap(), 1u32);

    let res = parse_month("12".to_string());
    assert!(res.is_ok());
    assert_eq!(res.unwrap(), 12u32);

    let res = parse_month("jan".to_string());
    assert!(res.is_ok());
    assert_eq!(res.unwrap(), 1u32);

    let res = parse_month("0".to_string());
    assert!(res.is_err());
    assert_eq!(
        res.unwrap_err().message(),
        r#"month "0" not in the range 1 through 12"#
    );

    let res = parse_month("13".to_string());
    assert!(res.is_err());
    assert_eq!(
        res.unwrap_err().message(),
        r#"month "13" not in the range 1 through 12"#
    );

    let res = parse_month("foo".to_string());
    assert!(res.is_err());
    assert_eq!(res.unwrap_err().message(), r#"Invalid month "foo""#);
}

#[test]
fn parse_month_edge_cases() {
    assert_eq!(parse_month("+7".to_string()).unwrap(), 7);
    assert_eq!(parse_month("007".to_string()).unwrap(), 7);
    assert_eq!(parse_month("ju".to_string()).unwrap(), 6);
    assert_eq!(parse_month("december".to_string()).unwrap(), 12);
    assert_eq!(parse_month("".to_string()).unwrap(), 1);
    assert_eq!(
        parse_month("4294967295".to_string()).unwrap_err().message(),
        r#"month "4294967295" not in the range 1 through 12"#
    );
    assert_eq!(
        parse_month("4294967296".to_string()).unwrap_err().message(),
        r#"Invalid month "4294967296""#
    );
    assert_eq!(parse_month("Jan".to_string()).unwrap_err().message(), r#"Invalid month "Jan""#);
    assert_eq!(parse_month("-1".to_string()).unwrap_err().message(), r#"Invalid month "-1""#);
}

#[test]
fn test_last_day_in_month() {
    assert_eq!(
        last_day_in_month(2020, 1),
        CalDate { year: 2020, month: 1, day: 31 }
    );
    assert_eq!(
        last_day_in_month(2020, 2),
        CalDate { year: 2020, month: 2, day: 29 }
    );
    assert_eq!(
        last_day_in_month(2020, 4),
        CalDate { year: 2020, month: 4, day: 30 }
    );
}

#[test]
fn last_day_follows_leap_rules() {
    assert_eq!(last_day_in_month(1900, 2).day, 28);
    assert_eq!(last_day_in_month(2000, 2).day, 29);
    assert_eq!(last_day_in_month(2021, 2).day, 28);
    assert_eq!(last_day_in_month(2021, 12), CalDate { year: 2021, month: 12, day: 31 });
    assert_eq!(last_day_in_month(-4, 2).day, 29);
}
