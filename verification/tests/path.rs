use shapez::path::{ParseError, ParseErrorKind, Path, PathPattern, PathPatternStep, PathStep};

fn rt_path(s: &str, expected: Path) {
    let got: Path = s.parse().unwrap();
    assert_eq!(got, expected);
    assert_eq!(got.to_string(), s);
}

fn rt_pat(s: &str, expected: PathPattern) {
    let got: PathPattern = s.parse().unwrap();
    assert_eq!(got, expected);
    assert_eq!(got.to_string(), s);
}

#[test]
fn root_only() {
    rt_path(".", Path(vec![]));
}

#[test]
fn single_field() {
    rt_path(".foo", Path(vec![PathStep::Field("foo".into())]));
}

#[test]
fn nested_fields() {
    rt_path(
        ".user.profile.name",
        Path(vec![
            PathStep::Field("user".into()),
            PathStep::Field("profile".into()),
            PathStep::Field("name".into()),
        ]),
    );
}

#[test]
fn index_at_root() {
    rt_path(".[0]", Path(vec![PathStep::Index(0)]));
}

#[test]
fn field_index_field() {
    rt_path(
        ".users[3].name",
        Path(vec![
            PathStep::Field("users".into()),
            PathStep::Index(3),
            PathStep::Field("name".into()),
        ]),
    );
}

#[test]
fn quoted_uuid_field() {
    rt_path(
        ".cache.\"6f9619ff-8b86-d011-b42d-00c04fc964ff\"",
        Path(vec![
            PathStep::Field("cache".into()),
            PathStep::Field("6f9619ff-8b86-d011-b42d-00c04fc964ff".into()),
        ]),
    );
}

#[test]
fn quoted_field_with_space() {
    rt_path(
        ".user.\"display name\"",
        Path(vec![
            PathStep::Field("user".into()),
            PathStep::Field("display name".into()),
        ]),
    );
}

#[test]
fn wildcards_in_pattern() {
    rt_pat(
        ".users[*].name",
        PathPattern(vec![
            PathPatternStep::Field("users".into()),
            PathPatternStep::AnyIndex,
            PathPatternStep::Field("name".into()),
        ]),
    );
    rt_pat(
        ".events[*].properties.*",
        PathPattern(vec![
            PathPatternStep::Field("events".into()),
            PathPatternStep::AnyIndex,
            PathPatternStep::Field("properties".into()),
            PathPatternStep::AnyField,
        ]),
    );
    rt_pat(
        ".*.name",
        PathPattern(vec![PathPatternStep::AnyField, PathPatternStep::Field("name".into())]),
    );
}

#[test]
fn wildcard_rejected_in_path() {
    let err = ".users[*].name".parse::<Path>().unwrap_err();
    assert!(matches!(err.kind, ParseErrorKind::WildcardInPath));
}

#[test]
fn empty_is_error() {
    assert!(matches!("".parse::<Path>(), Err(ParseError { kind: ParseErrorKind::Empty, .. })));
}

#[test]
fn double_dot_is_error() {
    let err = "..foo".parse::<Path>().unwrap_err();
    assert!(matches!(err.kind, ParseErrorKind::UnexpectedChar('.')));
}

#[test]
fn missing_root_is_error() {
    assert!(matches!(
        "foo".parse::<Path>(),
        Err(ParseError { kind: ParseErrorKind::ExpectedRoot, .. })
    ));
}

#[test]
fn escape_sequences() {
    let p: Path = ".\"a\\nb\\tc\\\"d\"".parse().unwrap();
    assert_eq!(p.0[0], PathStep::Field("a\nb\tc\"d".into()));
}

#[test]
fn unicode_escape() {
    let p: Path = ".\"\\u{1f600}\"".parse().unwrap();
    assert_eq!(p.0[0], PathStep::Field("\u{1f600}".into()));
}
