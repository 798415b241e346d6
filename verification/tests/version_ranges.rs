use semver::VersionReq;
use yarn_lock::npm_semver::{
    bound_predicate, prefix_to_op, range2req, range_predicates, semver_bound, semver_range,
    semver_range_list, tagged_semver, version_reqs, Component, Operator, Predicate, VersionBound,
    VersionRange,
};

fn bound(op: Operator, major: u64, minor: Option<&str>, patch: Option<&str>) -> VersionBound {
    VersionBound { op, major, minor: minor.map(component), patch: patch.map(component) }
}

fn component(text: &str) -> Component {
    if text == "x" || text == "X" {
        Component::Wildcard
    } else {
        Component::Number(text.parse().unwrap())
    }
}

fn done<T>(value: T) -> Option<(&'static [u8], T)> {
    Some((&[][..], value))
}

#[test]
fn parse_semver() {
    assert_eq!(semver_bound(b"2.3.4"), done(bound(Operator::Ex, 2, Some("3"), Some("4"))));
    assert_eq!(semver_bound(b"<=2.3.4"), done(bound(Operator::LtEq, 2, Some("3"), Some("4"))));
    assert_eq!(semver_bound(b">=2.3.4"), done(bound(Operator::GtEq, 2, Some("3"), Some("4"))));
    assert_eq!(semver_bound(b"=2.3.4"), done(bound(Operator::Ex, 2, Some("3"), Some("4"))));
    assert_eq!(semver_bound(b">2.3.4"), done(bound(Operator::Gt, 2, Some("3"), Some("4"))));
    assert_eq!(semver_bound(b"^2.3.4"), done(bound(Operator::Compatible, 2, Some("3"), Some("4"))));
    assert_eq!(semver_bound(b"^ 2.3.4"), done(bound(Operator::Compatible, 2, Some("3"), Some("4"))));
    assert_eq!(semver_bound(b"~2.3.4"), done(bound(Operator::Tilde, 2, Some("3"), Some("4"))));
    assert_eq!(semver_bound(b"~ 2.3.4"), done(bound(Operator::Tilde, 2, Some("3"), Some("4"))));
    assert_eq!(semver_bound(b" >= 2.3.4"), done(bound(Operator::GtEq, 2, Some("3"), Some("4"))));
    assert_eq!(semver_bound(b"2.3.4"), done(bound(Operator::Ex, 2, Some("3"), Some("4"))));
    assert_eq!(semver_bound(b"2.3.4"), done(bound(Operator::Ex, 2, Some("3"), Some("4"))));

    assert_eq!(semver_bound(b">= 2.3"), done(bound(Operator::GtEq, 2, Some("3"), None)));
    assert_eq!(semver_bound(b"2.x"), done(bound(Operator::Ex, 2, Some("x"), None)));

    assert_eq!(semver_bound(b"2.3"), done(bound(Operator::Ex, 2, Some("3"), None)));
    assert_eq!(semver_bound(b"2"), done(bound(Operator::Ex, 2, None, None)));
    assert_eq!(semver_bound(b" 2.3 "), done(bound(Operator::Ex, 2, Some("3"), None)));
    assert_eq!(semver_bound(b" 2 "), done(bound(Operator::Ex, 2, None, None)));
}

#[test]
fn parse_semver_range() {
    assert_eq!(
        semver_range(b">=2.3.4 < 3"),
        done(VersionRange {
            lower: bound(Operator::GtEq, 2, Some("3"), Some("4")),
            upper: Some(bound(Operator::Lt, 3, None, None)),
        })
    );

    let expected = VersionRange {
        lower: bound(Operator::GtEq, 2, Some("3"), Some("4")),
        upper: Some(bound(Operator::Lt, 3, Some("2"), None)),
    };

    assert_eq!(semver_range(b">=2.3.4 < 3.2"), done(expected));

    assert_eq!(
        semver_range(b">=2.3.4<3.2.1"),
        done(VersionRange {
            lower: bound(Operator::GtEq, 2, Some("3"), Some("4")),
            upper: Some(bound(Operator::Lt, 3, Some("2"), Some("1"))),
        })
    );

    assert_eq!(
        semver_range(b">=2.3.4 < 3.2.1"),
        done(VersionRange {
            lower: bound(Operator::GtEq, 2, Some("3"), Some("4")),
            upper: Some(bound(Operator::Lt, 3, Some("2"), Some("1"))),
        })
    );
}

#[test]
fn parse_npm_semver_range_list() {
    let samples = [
        r#"">=2.2.7 <3""#,
        r#""^2.0.0 || ^1.1.13""#,
        r#""> 1.0.0 < 3.0.0""#,
        r#"">=0.3.0 <0.4""#,
        r#""1 || 2""#,
        r#"">=0.5 0""#,
        r#""2 || 3""#,
        r#"">= 1.3.1 < 2""#,
        r#""^4.0.0 || ^5.0.0""#,
        r#""1 || 2""#,
        r#""2.x || 3.x || 4 || 5""#,
        r#""2 || 3""#,
        r#""0 || 1 || 2 || 3 || 4""#,
        r#""2 || 3 || 4 || 5""#,
        r#""^2.3.0 || 3.x || 4 || 5""#,
        r#""~1.0.1 || ^2.0.0""#,
        r#""^3.0.0 || ^4.0.0 || ^5.0.0""#,
        r#""2 >=2.2.1 || 3.x || 4 || 5""#,
        r#""2 || 3 || 4""#,
        r#"">= 0.0.5 < 1""#,
        r#"">= 1.0.2 < 2""#,
        r#"">= 1.0.0 < 2""#,
        r#""2 || 3 || 4 || 5""#,
        r#"">=0.10.3 <1""#,
        r#"">= 3.1.0 < 4""#,
        r#"">= 0.3.0 < 1""#,
        r#"">= 0.1.30 < 1""#,
        r#"">= 0.0.2 < 1""#,
        r#"">= 0.4.1 < 1""#,
        r#"">= 1.0.1 < 2""#,
    ];
    for sample in &samples {
        println!("{:?}", semver_range_list(sample.as_bytes()).unwrap());
    }
}

#[test]
fn range_list_of_lower_and_upper_bound() {
    assert_eq!(
        semver_range_list(br#"">=2.2.7 <3""#),
        done(vec![VersionRange {
            lower: bound(Operator::GtEq, 2, Some("2"), Some("7")),
            upper: Some(bound(Operator::Lt, 3, None, None)),
        }])
    );
}

#[test]
fn range_list_of_two_alternatives() {
    assert_eq!(
        semver_range_list(br#""^2.0.0 || ^1.1.13""#),
        done(vec![
            VersionRange { lower: bound(Operator::Compatible, 2, Some("0"), Some("0")), upper: None },
            VersionRange { lower: bound(Operator::Compatible, 1, Some("1"), Some("13")), upper: None },
        ])
    );
}

#[test]
fn range_list_with_wildcard_minor() {
    let parsed = semver_range_list(br#""2.x""#).unwrap();
    assert_eq!(parsed.0, b"");
    assert_eq!(parsed.1.len(), 1);
    assert_eq!(parsed.1[0].lower.minor, Some(Component::Wildcard));
    assert_eq!(parsed.1[0].upper, None);
    assert_eq!(bound_predicate(&parsed.1[0].lower).op, Operator::WildcardMinor);
}

#[test]
fn range_list_leaves_what_follows_the_closing_quote() {
    let parsed = semver_range_list(br#""1 || 2" and more"#).unwrap();
    assert_eq!(parsed.0, b" and more");
    assert_eq!(parsed.1.len(), 2);
}

#[test]
fn range_list_fails_on_invalid_structure() {
    assert_eq!(semver_range_list(b""), None);
    assert_eq!(semver_range_list(br#"1 || 2"#), None);
    assert_eq!(semver_range_list(br#""1 || 2"#), None);
    assert_eq!(semver_range_list(br#""""#), None);
    assert_eq!(semver_range_list(br#""^""#), None);
    assert_eq!(semver_range_list(br#""1 || ""#), None);
    assert_eq!(semver_range_list(br#""|| 1""#), None);
    assert_eq!(semver_range_list(br#""1 | 2""#), None);
    assert_eq!(semver_range_list(br#""1.""#), None);
    assert_eq!(semver_range_list(br#""1.y""#), None);
    assert_eq!(semver_range_list(br#""x""#), None);
    assert_eq!(semver_range_list(br#" "1""#), None);
}

#[test]
fn bound_with_whitespace_around_dots() {
    assert_eq!(semver_bound(b"2 . 3 . 4"), done(bound(Operator::Ex, 2, Some("3"), Some("4"))));
}

#[test]
fn bound_with_upper_case_wildcard() {
    assert_eq!(semver_bound(b"~2.X.x"), done(bound(Operator::Tilde, 2, Some("X"), Some("x"))));
}

#[test]
fn bound_fails_without_major_number() {
    assert_eq!(semver_bound(b""), None);
    assert_eq!(semver_bound(b">="), None);
    assert_eq!(semver_bound(b"x"), None);
    assert_eq!(semver_bound(b"abc"), None);
    assert_eq!(semver_bound(b"2abc"), None);
    assert_eq!(semver_bound(b".1"), None);
}

#[test]
fn bound_leaves_what_is_no_component() {
    assert_eq!(semver_bound(b"2.3.4-pre"), Some((&b"-pre"[..], bound(Operator::Ex, 2, Some("3"), Some("4")))));
    assert_eq!(semver_bound(b"2.3.4.5"), Some((&b".5"[..], bound(Operator::Ex, 2, Some("3"), Some("4")))));
    assert_eq!(semver_bound(b"2.abc"), Some((&b".abc"[..], bound(Operator::Ex, 2, None, None))));
    assert_eq!(semver_bound(b"2 ."), Some((&b"."[..], bound(Operator::Ex, 2, None, None))));
}

#[test]
fn bound_numbers_within_64_bits() {
    assert_eq!(
        semver_bound(b"18446744073709551615.007"),
        done(VersionBound {
            op: Operator::Ex,
            major: u64::MAX,
            minor: Some(Component::Number(7)),
            patch: None,
        })
    );
    assert_eq!(semver_bound(b"18446744073709551616"), None);
    assert_eq!(semver_bound(b"99999999999999999999999"), None);
}

#[test]
fn further_number_beyond_64_bits_is_absent() {
    assert_eq!(
        semver_bound(b"1.18446744073709551616"),
        done(bound(Operator::Ex, 1, None, None))
    );
    assert_eq!(
        semver_bound(b">=1.18446744073709551616.3"),
        done(bound(Operator::GtEq, 1, None, Some("3")))
    );
    assert_eq!(
        semver_bound(b"1.2.99999999999999999999 "),
        done(bound(Operator::Ex, 1, Some("2"), None))
    );
    assert_eq!(
        semver_range_list(br#""1.99999999999999999999 || 2""#),
        done(vec![
            VersionRange { lower: bound(Operator::Ex, 1, None, None), upper: None },
            VersionRange { lower: bound(Operator::Ex, 2, None, None), upper: None },
        ])
    );
}

#[test]
fn parse_tagged_semver() {
    assert_eq!(
        tagged_semver(b"2.3.4-pre"),
        done((bound(Operator::Ex, 2, Some("3"), Some("4")), "pre"))
    );
}

#[test]
fn tagged_bound_takes_all_that_follows() {
    assert_eq!(
        tagged_semver(b"^2.3 beta.1 "),
        done((bound(Operator::Compatible, 2, Some("3"), None), "beta.1 "))
    );
    assert_eq!(
        tagged_semver(b"2.3.4--pre"),
        done((bound(Operator::Ex, 2, Some("3"), Some("4")), "-pre"))
    );
    assert_eq!(
        tagged_semver(b"2.3.4-"),
        done((bound(Operator::Ex, 2, Some("3"), Some("4")), ""))
    );
    assert_eq!(
        tagged_semver("1-\u{e9}".as_bytes()),
        done((bound(Operator::Ex, 1, None, None), "\u{e9}"))
    );
}

#[test]
fn tagged_bound_fails_without_bound_or_tag() {
    assert_eq!(tagged_semver(b""), None);
    assert_eq!(tagged_semver(b"-pre"), None);
    assert_eq!(tagged_semver(b"2.3.4"), None);
    assert_eq!(tagged_semver(b"2.3.4 "), None);
    assert_eq!(tagged_semver(b"2.3.4-\xff"), None);
}

#[test]
fn prefixes_and_their_operators() {
    assert_eq!(prefix_to_op(Some(b"=")), Operator::Ex);
    assert_eq!(prefix_to_op(Some(b">")), Operator::Gt);
    assert_eq!(prefix_to_op(Some(b">=")), Operator::GtEq);
    assert_eq!(prefix_to_op(Some(b"<")), Operator::Lt);
    assert_eq!(prefix_to_op(Some(b"<=")), Operator::LtEq);
    assert_eq!(prefix_to_op(Some(b"~")), Operator::Tilde);
    assert_eq!(prefix_to_op(Some(b"^")), Operator::Compatible);
    assert_eq!(prefix_to_op(None), Operator::Ex);
}

#[test]
fn predicates_of_a_closed_range() {
    let range = VersionRange {
        lower: bound(Operator::GtEq, 2, Some("2"), Some("7")),
        upper: Some(bound(Operator::Lt, 3, None, None)),
    };
    assert_eq!(
        range_predicates(&range),
        vec![
            Predicate { op: Operator::GtEq, major: 2, minor: Some(2), patch: Some(7) },
            Predicate { op: Operator::Lt, major: 3, minor: None, patch: None },
        ]
    );
}

#[test]
fn predicate_of_a_wildcard_bound() {
    assert_eq!(
        bound_predicate(&bound(Operator::GtEq, 2, Some("x"), None)),
        Predicate { op: Operator::WildcardMinor, major: 2, minor: None, patch: None }
    );
    assert_eq!(
        bound_predicate(&bound(Operator::Tilde, 2, Some("1"), Some("x"))),
        Predicate { op: Operator::Tilde, major: 2, minor: Some(1), patch: None }
    );
}

#[test]
fn requirement_of_a_range() {
    let range = VersionRange {
        lower: bound(Operator::GtEq, 2, Some("2"), Some("7")),
        upper: Some(bound(Operator::Lt, 3, None, None)),
    };
    assert_eq!(range2req(&range), VersionReq::parse(">=2.2.7, <3").unwrap());
    let caret = VersionRange { lower: bound(Operator::Compatible, 1, Some("1"), Some("13")), upper: None };
    assert_eq!(range2req(&caret), VersionReq::parse("^1.1.13").unwrap());
    let wild = VersionRange { lower: bound(Operator::Ex, 2, Some("x"), None), upper: None };
    assert_eq!(range2req(&wild), VersionReq::parse("2.x").unwrap());
}

#[test]
fn requirements_of_a_range_list() {
    let (rest, reqs) = version_reqs(br#""^2.0.0 || >= 1.1.13 < 2""#).unwrap();
    assert_eq!(rest, b"");
    assert_eq!(
        reqs,
        vec![VersionReq::parse("^2.0.0").unwrap(), VersionReq::parse(">=1.1.13, <2").unwrap()]
    );
    assert!(version_reqs(br#""^2.0.0 ||""#).is_none());
}
