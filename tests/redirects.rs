use redirect_engine::config::{
    config_from_fields, count_nesting_marks, parse_config, resolve, Config, ConfigError, ConfigField,
    MAX_NESTING_MARKS,
};
use redirect_engine::document::render;
use redirect_engine::mapping::{create_map, split_line, MalformedLine, RedirectMap};
use redirect_engine::text::{find_from, get_lines, strip_all};

fn s(x: &str) -> String {
    x.to_string()
}

fn chars(x: &str) -> Vec<char> {
    x.chars().collect()
}

fn lines(x: &str) -> Vec<String> {
    get_lines(s(x))
}

const HEADER: &str =
    "<httpRedirect enabled=\"true\" exactDestination=\"true\" httpResponseStatus=\"Permanent\">\n";
const FOOTER: &str = "</httpRedirect>\n";

#[test]
fn resolve_without_config_gives_defaults() {
    let r = resolve(None);
    assert_eq!(r.delimiter, ",");
    assert_eq!(r.url, "https://example.org");
}

#[test]
fn default_config_holds_both_defaults() {
    let c = Config::default();
    assert_eq!(c.delimiter, Some(s(",")));
    assert_eq!(c.url, Some(s("https://example.org")));
    let r = resolve(Some(c));
    assert_eq!(r.delimiter, ",");
    assert_eq!(r.url, "https://example.org");
}

#[test]
fn config_with_delimiter_only_keeps_default_url() {
    let c = parse_config("delimiter = \";\"\n").unwrap();
    assert_eq!(c.delimiter, Some(s(";")));
    assert_eq!(c.url, None);
    let r = resolve(Some(c));
    assert_eq!(r.delimiter, ";");
    assert_eq!(r.url, "https://example.org");
}

#[test]
fn config_with_url_only_keeps_default_delimiter() {
    let c = parse_config("url = \"http://internal/\"\n").unwrap();
    let r = resolve(Some(c));
    assert_eq!(r.delimiter, ",");
    assert_eq!(r.url, "http://internal/");
}

#[test]
fn empty_config_gives_defaults() {
    let r = resolve(Some(parse_config("").unwrap()));
    assert_eq!(r.delimiter, ",");
    assert_eq!(r.url, "https://example.org");
}

#[test]
fn config_that_is_not_toml_fails() {
    assert_eq!(parse_config("delimiter = ").err(), Some(ConfigError::Syntax));
    assert_eq!(parse_config("[[[").err(), Some(ConfigError::Syntax));
}

#[test]
fn config_field_that_is_not_text_fails() {
    assert_eq!(
        parse_config("delimiter = 5\n").err(),
        Some(ConfigError::NotText(ConfigField::Delimiter))
    );
    assert_eq!(
        parse_config("url = true\n").err(),
        Some(ConfigError::NotText(ConfigField::Url))
    );
}

#[test]
fn config_from_fields_cases() {
    let c = config_from_fields(Some(Some(s("|"))), None).unwrap();
    assert_eq!(c.delimiter, Some(s("|")));
    assert_eq!(c.url, None);
    assert_eq!(
        config_from_fields(Some(None), Some(None)).err(),
        Some(ConfigError::NotText(ConfigField::Delimiter))
    );
    assert_eq!(
        config_from_fields(None, Some(None)).err(),
        Some(ConfigError::NotText(ConfigField::Url))
    );
}

#[test]
fn lines_split_on_newlines_and_crlf() {
    assert_eq!(lines("a\nb\r\nc"), vec![s("a"), s("b"), s("c")]);
    assert_eq!(lines("a\n\nb\n"), vec![s("a"), s(""), s("b")]);
    assert_eq!(lines(""), Vec::<String>::new());
    assert_eq!(lines("x\r"), vec![s("x\r")]);
}

#[test]
fn find_and_strip() {
    assert_eq!(find_from(&chars("a--b--c"), &chars("--"), 0), Some(1));
    assert_eq!(find_from(&chars("a--b--c"), &chars("--"), 3), Some(4));
    assert_eq!(find_from(&chars("abc"), &chars("x"), 0), None);
    assert_eq!(strip_all(&chars("aXbXXc"), &chars("X")), chars("abc"));
    assert_eq!(strip_all(&chars("aaa"), &chars("aa")), chars("a"));
    assert_eq!(strip_all(&chars("abc"), &chars("")), chars("abc"));
}

#[test]
fn split_line_fields() {
    assert_eq!(split_line(&chars("a,b,c"), &chars(",")), Some((chars("a"), chars("b"))));
    assert_eq!(split_line(&chars("a,"), &chars(",")), Some((chars("a"), chars(""))));
    assert_eq!(split_line(&chars("ab"), &chars(",")), None);
    assert_eq!(split_line(&chars("ab"), &chars("")), Some((chars(""), chars("a"))));
}

#[test]
fn distinct_lines_give_one_entry_each() {
    let m = create_map(lines("/a,/b\n/c,/d\n/e,/f\n"), Config::default()).unwrap();
    assert_eq!(m.len(), 3);
}

#[test]
fn duplicate_key_last_value_wins() {
    let m = create_map(lines("/a,/first\n/b,/x\n/a,/second"), Config::default()).unwrap();
    assert_eq!(m.len(), 2);
    assert_eq!(m.get(&s("/a")), Some(&s("/second")));
    assert_eq!(m.get(&s("/b")), Some(&s("/x")));
}

#[test]
fn url_is_removed_everywhere() {
    let m = create_map(
        lines("https://example.org/a,https://example.org/b"),
        Config::default(),
    )
    .unwrap();
    assert_eq!(m.len(), 1);
    assert_eq!(m.get(&s("/a")), Some(&s("/b")));
    let m = create_map(
        lines("https://example.org/xhttps://example.org/y,/z"),
        Config::default(),
    )
    .unwrap();
    assert_eq!(m.get(&s("/x/y")), Some(&s("/z")));
}

#[test]
fn round_trip_two_rules() {
    let m = create_map(lines("/foo,/bar\n/baz,/qux"), Config::default()).unwrap();
    assert_eq!(m.len(), 2);
    assert_eq!(m.get(&s("/foo")), Some(&s("/bar")));
    assert_eq!(m.get(&s("/baz")), Some(&s("/qux")));
    let doc = render(&m);
    let expected = format!(
        "{}\t<add wildcard=\"/foo\" destination=\"/bar\" />\n\t<add wildcard=\"/baz\" destination=\"/qux\" />\n{}",
        HEADER, FOOTER
    );
    assert_eq!(doc, expected);
    assert_eq!(doc.matches("<add ").count(), 2);
}

#[test]
fn empty_input_gives_envelope_only() {
    let m = create_map(lines(""), Config::default()).unwrap();
    assert_eq!(m.len(), 0);
    let doc = render(&m);
    assert_eq!(doc, format!("{}{}", HEADER, FOOTER));
    assert!(!doc.contains("<add"));
    assert_eq!(render(&RedirectMap::new()), doc);
}

#[test]
fn empty_lines_are_skipped() {
    let m = create_map(lines("\n/a,/b\n\n"), Config::default()).unwrap();
    assert_eq!(m.len(), 1);
}

#[test]
fn line_without_delimiter_is_malformed() {
    let r = create_map(lines("/a,/b\n/only\n/c,/d"), Config::default());
    assert_eq!(r.err(), Some(MalformedLine { line: 2 }));
    let r = create_map(lines("/only"), Config::default());
    assert_eq!(r.err(), Some(MalformedLine { line: 1 }));
}

#[test]
fn custom_delimiter_and_url() {
    let config = Config { delimiter: Some(s(";")), url: Some(s("http://internal/")) };
    let m = create_map(lines("http://internal/a;http://internal/b\nc,d;e"), config).unwrap();
    assert_eq!(m.len(), 2);
    assert_eq!(m.get(&s("a")), Some(&s("b")));
    assert_eq!(m.get(&s("c,d")), Some(&s("e")));
    let config = Config { delimiter: Some(s(";")), url: None };
    let r = create_map(lines("a,b"), config);
    assert_eq!(r.err(), Some(MalformedLine { line: 1 }));
}

#[test]
fn insert_replaces_in_place() {
    let mut m = RedirectMap::new();
    m.insert(s("k"), s("v1"));
    m.insert(s("j"), s("w"));
    m.insert(s("k"), s("v2"));
    assert_eq!(m.entries(), &vec![(s("k"), s("v2")), (s("j"), s("w"))]);
    assert_eq!(m.get(&s("missing")), None);
}

#[test]
fn deeply_nested_config_is_refused() {
    let text = format!("a = {}", "[".repeat(50_000));
    assert_eq!(parse_config(&text).err(), Some(ConfigError::TooNested));
    let text = format!("{} = 1", vec!["k"; 100].join("."));
    assert_eq!(parse_config(&text).err(), Some(ConfigError::TooNested));
}

#[test]
fn config_within_nesting_bound_is_parsed() {
    let c = parse_config("url = \"https://a.b.c/\"\n[extra]\nlist = [[1], [2]]\n").unwrap();
    assert_eq!(c.url, Some(s("https://a.b.c/")));
    assert_eq!(c.delimiter, None);
    let text = format!("a = {}{}", "[".repeat(MAX_NESTING_MARKS), "]".repeat(MAX_NESTING_MARKS));
    assert!(parse_config(&text).is_ok());
}

#[test]
fn nesting_marks_are_counted() {
    assert_eq!(count_nesting_marks(""), 0);
    assert_eq!(count_nesting_marks("a.b = [{x = 1}]"), 3);
}

#[test]
fn distinct_lines_with_blank_lines_between() {
    let m = create_map(lines("\n/a,/b\n\n\n/c,/d\r\n\n/e,/f\n\n"), Config::default()).unwrap();
    assert_eq!(m.len(), 3);
    assert_eq!(m.get(&s("/c")), Some(&s("/d")));
}
