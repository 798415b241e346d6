use semver::{Version, VersionReq};
use url::Url;
use yarn_lock::lines::{
    dependency_line, headline_parts, key_value_line, light_enough, read_location,
    read_requirement, read_version, resolved_line, tagged_line, version_line, versionreq_line,
};
use yarn_lock::specifier::split_at_last_at;

#[test]
fn parses_version_lines() {
    assert_eq!(
        version_line(r#"version 3.0.0"#),
        Some(("", Version::parse("3.0.0").unwrap()))
    );
    assert_eq!(
        version_line(r#"version "3.0.0""#),
        Some(("", Version::parse("3.0.0").unwrap()))
    );
}

#[test]
fn parses_head_lines() {
    assert_eq!(
        headline_parts(r#""@protobufjs/aspromise@^1.1.1","@protobufjs/aspromise@^1.1.2""#),
        Some((
            "",
            vec![
                (Some("^1.1.1"), Some("@protobufjs/aspromise")),
                (Some("^1.1.2"), Some("@protobufjs/aspromise")),
            ]
        ))
    );

    assert_eq!(
        headline_parts(r#""@ava/babel-plugin-throws-helper@^2.0.0""#),
        Some(("", vec![(Some("^2.0.0"), Some("@ava/babel-plugin-throws-helper"))]))
    );

    assert_eq!(
        headline_parts(
            r#""@ava/babe,-plugin-throws-helper@^2.0.0", "@ava/babel-plugin-throws-helper@^2.0.0""#
        ),
        Some((
            "",
            vec![
                (Some("^2.0.0"), Some("@ava/babe,-plugin-throws-helper")),
                (Some("^2.0.0"), Some("@ava/babel-plugin-throws-helper")),
            ]
        ))
    );

    assert_eq!(
        headline_parts(r#"assertion-error@^1.0.1, assertion-error@^1.0.1"#),
        Some((
            "",
            vec![
                (Some("^1.0.1"), Some("assertion-error")),
                (Some("^1.0.1"), Some("assertion-error")),
            ]
        ))
    );
}

#[test]
fn parses_head_lines_deep() {
    assert_eq!(
        headline_parts("fstream@>= 0.1.30 < 1"),
        Some(("", vec![(Some(">= 0.1.30 < 1"), Some("fstream"))]))
    );
}

#[test]
fn parses_dependency_lines() {
    assert_eq!(
        dependency_line(r#"version "1.4.0""#),
        Some(("", ("version", VersionReq::parse("1.4.0").unwrap())))
    );
    assert_eq!(
        dependency_line(r#"camelcase "^1.0.2""#),
        Some(("", ("camelcase", VersionReq::parse("^1.0.2").unwrap())))
    );
    assert_eq!(
        dependency_line(r#"cliui "^2.1.0""#),
        Some(("", ("cliui", VersionReq::parse("^2.1.0").unwrap())))
    );
    assert_eq!(
        dependency_line(r#"decamelize "^1.0.0""#),
        Some(("", ("decamelize", VersionReq::parse("^1.0.0").unwrap())))
    );
    assert_eq!(
        dependency_line(r#"window-size "0.1.0""#),
        Some(("", ("window-size", VersionReq::parse("0.1.0").unwrap())))
    );
    assert_eq!(
        dependency_line(r#""window-size" "0.1.0""#),
        Some(("", ("window-size", VersionReq::parse("0.1.0").unwrap())))
    );
}

#[test]
fn splits_scoped_specifier_at_last_at() {
    assert_eq!(
        split_at_last_at("@scope/pkg@^1.2.3"),
        (Some("^1.2.3"), Some("@scope/pkg"))
    );
}

#[test]
fn splits_plain_specifier() {
    assert_eq!(split_at_last_at("left-pad@1.3.0"), (Some("1.3.0"), Some("left-pad")));
}

#[test]
fn specifier_without_at_is_all_name() {
    assert_eq!(split_at_last_at("left-pad"), (None, Some("left-pad")));
    assert_eq!(split_at_last_at(""), (None, Some("")));
}

#[test]
fn specifier_with_only_a_leading_at() {
    assert_eq!(split_at_last_at("@scope/pkg"), (Some("scope/pkg"), Some("")));
    assert_eq!(split_at_last_at("pkg@"), (Some(""), Some("pkg")));
}

#[test]
fn split_halves_join_to_the_specifier() {
    for s in ["a@1", "@a/b@^1.1.1", "@@", "x@y@z", "héllo@wörld", "@"] {
        let (req, name) = split_at_last_at(s);
        let req = req.unwrap();
        assert!(!req.contains('@'));
        assert_eq!(format!("{}@{}", name.unwrap(), req), s);
    }
}

#[test]
fn head_line_stops_at_colon() {
    assert_eq!(
        headline_parts("assertion-error@^1.0.1:"),
        Some((":", vec![(Some("^1.0.1"), Some("assertion-error"))]))
    );
    assert_eq!(
        headline_parts(r#""@a/b@^1.1.1", "@a/b@^1.1.2":"#),
        Some((":", vec![(Some("^1.1.1"), Some("@a/b")), (Some("^1.1.2"), Some("@a/b"))]))
    );
}

#[test]
fn quoted_specifier_may_hold_commas_and_colons() {
    assert_eq!(
        headline_parts(r#""a@npm:b@1, 2""#),
        Some(("", vec![(Some("1, 2"), Some("a@npm:b"))]))
    );
}

#[test]
fn empty_head_line_fails() {
    assert_eq!(headline_parts(""), None);
}

#[test]
fn head_line_that_starts_with_no_specifier_fails() {
    assert_eq!(headline_parts(",a@1"), None);
    assert_eq!(headline_parts(":"), None);
    assert_eq!(headline_parts(r#""""#), None);
    assert_eq!(headline_parts(r#""a@1"#), None);
}

#[test]
fn head_line_with_a_comma_that_no_specifier_follows_fails() {
    assert_eq!(headline_parts("a@1, "), None);
    assert_eq!(headline_parts("a@1,"), None);
    assert_eq!(headline_parts(r#""a@1", "b@2"#), None);
    assert_eq!(headline_parts("a@1, :"), None);
}

#[test]
fn head_line_leaves_what_follows_the_list() {
    assert_eq!(headline_parts("a@1 :"), Some((":", vec![(Some("1 "), Some("a"))])));
    assert_eq!(headline_parts(r#""a@1" rest"#), Some((" rest", vec![(Some("1"), Some("a"))])));
    assert_eq!(
        headline_parts("a@1 , b@2"),
        Some(("", vec![(Some("1 "), Some("a")), (Some("2"), Some("b"))]))
    );
}

#[test]
fn key_value_with_bare_and_quoted_key() {
    assert_eq!(key_value_line(r#"window-size "0.1.0""#), Some(("", ("window-size", "0.1.0"))));
    assert_eq!(key_value_line(r#""window-size" "0.1.0""#), Some(("", ("window-size", "0.1.0"))));
    assert_eq!(
        key_value_line("  through   \">=2.2.7 <3\"  # tail"),
        Some(("# tail", ("through", ">=2.2.7 <3")))
    );
}

#[test]
fn key_value_needs_a_quoted_value() {
    assert_eq!(key_value_line("version 3.0.0"), None);
    assert_eq!(key_value_line(r#"version "3.0.0"#), None);
    assert_eq!(key_value_line(r#"version """#), None);
    assert_eq!(key_value_line(r#"version "1,2""#), None);
    assert_eq!(key_value_line("version"), None);
    assert_eq!(key_value_line(""), None);
    assert_eq!(key_value_line("   "), None);
}

#[test]
fn key_that_is_cut_short_fails() {
    assert_eq!(key_value_line(r#""abc"#), None);
    assert_eq!(key_value_line(r#"""#), None);
}

#[test]
fn key_with_a_comma_in_quotes_is_read_bare() {
    assert_eq!(key_value_line(r#""a,b" "1""#), Some(("", (r#""a,b""#, "1"))));
}

#[test]
fn tagged_line_reads_bare_and_quoted_values() {
    assert_eq!(tagged_line("version 3.0.0", "version"), Some(("", "3.0.0")));
    assert_eq!(tagged_line("  version \"3.0.0\" rest", "version"), Some(("rest", "3.0.0")));
    assert_eq!(tagged_line("versions", "version"), Some(("", "s")));
    assert_eq!(tagged_line("version", "version"), None);
    assert_eq!(tagged_line("resolved x", "version"), None);
    assert_eq!(tagged_line("vers", "version"), None);
}

#[test]
fn version_line_rejects_what_is_no_version() {
    assert_eq!(version_line(r#"version "^1.0""#), None);
    assert_eq!(version_line(r#"resolved "1.0.0""#), None);
    assert_eq!(version_line(r#"version "1.0.0"#), None);
}

#[test]
fn versionreq_line_reads_a_requirement() {
    assert_eq!(
        versionreq_line(r#"version "^1.0""#),
        Some(("", VersionReq::parse("^1.0").unwrap()))
    );
    assert_eq!(versionreq_line(r#"version "not a requirement""#), None);
}

#[test]
fn resolved_line_reads_a_location() {
    let text = "https://registry.yarnpkg.com/left-pad/-/left-pad-1.3.0.tgz#5b8a";
    assert_eq!(
        resolved_line(&format!("resolved \"{}\"", text)),
        Some(("", Url::parse(text).unwrap()))
    );
    assert_eq!(resolved_line(r#"resolved "not a location""#), None);
    assert_eq!(resolved_line(r#"version "1.0.0""#), None);
}

#[test]
fn dependency_line_rejects_what_is_no_requirement() {
    assert_eq!(dependency_line(r#"through ">=2.2.7 <3""#), None);
    assert_eq!(dependency_line(r#"through"#), None);
}

#[test]
fn values_are_read_by_their_kind() {
    assert_eq!(read_version("1.2.3"), Some(Version::parse("1.2.3").unwrap()));
    assert_eq!(read_version("1.2"), None);
    assert_eq!(read_requirement("^1.2"), Some(VersionReq::parse("^1.2").unwrap()));
    assert_eq!(read_requirement(">=2.2.7 <3"), None);
    assert_eq!(
        read_location("https://example.com/a%2fb"),
        Some(Url::parse("https://example.com/a%2fb").unwrap())
    );
    assert_eq!(read_location("no location"), None);
}

#[test]
fn weight_of_a_location() {
    assert!(light_enough(""));
    assert!(light_enough(&"a".repeat(3800)));
    assert!(!light_enough(&"a".repeat(3801)));
    assert!(light_enough(&"%".repeat(38)));
    assert!(!light_enough(&"%".repeat(38).replace("%%", "%%a")));
    assert!(light_enough(&"\u{e9}".repeat(38)));
    assert!(!light_enough(&"\u{e9}".repeat(39)));
    assert!(light_enough(&format!("{}{}", "a".repeat(3700), "%")));
    assert!(!light_enough(&format!("{}{}", "a".repeat(3701), "%")));
}

#[test]
fn location_beyond_the_weight_is_not_read() {
    let heavy = format!("http://{}\u{f02c}/", "a".repeat(69_999));
    assert_eq!(read_location(&heavy), None);
    assert_eq!(resolved_line(&format!("resolved \"{}\"", heavy)), None);
    let long = format!("https://example.com/{}", "a".repeat(3781));
    assert_eq!(read_location(&long), None);
    let fits = format!("https://example.com/{}", "a".repeat(3780));
    assert_eq!(read_location(&fits), Some(Url::parse(&fits).unwrap()));
}
