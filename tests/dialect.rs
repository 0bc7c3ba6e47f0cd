use orin_sql::dialect::{example_sql, OrinDialect};
use sqlparser::dialect::Dialect;
use sqlparser::parser::Parser;

#[derive(Debug)]
struct UrlDialect(OrinDialect);

impl Dialect for UrlDialect {
    fn is_identifier_start(&self, ch: char) -> bool {
        self.0.is_identifier_start(ch)
    }

    fn is_identifier_part(&self, ch: char) -> bool {
        self.0.is_identifier_part(ch)
    }
}

#[test]
fn it_works() {
    let sql = example_sql();
    let parsed = Parser::parse_sql(&UrlDialect(OrinDialect::default()), &sql);
    println!("{:#?}", parsed);
    assert!(parsed.is_ok());
    assert_eq!(parsed.unwrap().len(), 1);
}

#[test]
fn example_sql_names_the_url_unquoted() {
    let sql = example_sql();
    assert!(sql.starts_with("select location name, total_cases"));
    assert!(sql.contains(" from https://raw.githubusercontent.com/owid/covid-19-data/master/public/data/latest/owid-covid-latest.csv where "));
    assert!(sql.ends_with("limit 6 offset 5"));
}

#[test]
fn identifier_start_set() {
    let d = OrinDialect::default();
    for ch in ['a', 'z', 'A', 'Z', '_', '.'] {
        assert!(d.is_identifier_start(ch), "{}", ch);
    }
    for ch in ['0', '9', ':', '/', '-', ' ', '"', 'é', '中'] {
        assert!(!d.is_identifier_start(ch), "{}", ch);
    }
}

#[test]
fn identifier_part_set() {
    let d = OrinDialect::default();
    for ch in ['a', 'Z', '0', '9', ':', '<', '>', '/', '?', '&', '=', '_', '.', '-'] {
        assert!(d.is_identifier_part(ch), "{}", ch);
    }
    for ch in [' ', ',', ';', '(', ')', '\'', '"', '*', '+', 'é', 'ß'] {
        assert!(!d.is_identifier_part(ch), "{}", ch);
    }
}

#[test]
fn url_with_reserved_characters_is_one_token() {
    let d = OrinDialect::default();
    let url = "https://example.com/data.csv?key=a&format=csv";
    assert_eq!(d.identifier_len(url), url.chars().count());
    assert!(d.is_bare_identifier(url));
    assert!(d.is_bare_identifier("file:///tmp/covid-latest.csv"));
    assert!(d.is_bare_identifier("./data/local_file.csv"));
}

#[test]
fn identifier_token_stops_at_separator() {
    let d = OrinDialect::default();
    assert_eq!(d.identifier_len("http://a/b.csv where x > 1"), 14);
    assert_eq!(d.identifier_len("1abc"), 0);
    assert_eq!(d.identifier_len(""), 0);
    assert_eq!(d.identifier_len("a"), 1);
    assert!(!d.is_bare_identifier("two words"));
    assert!(!d.is_bare_identifier(""));
}

#[test]
fn url_table_name_parses_without_quotes() {
    let sql = "select a from https://example.com/x.csv?k=v&x=1 where b > 5";
    let parsed = Parser::parse_sql(&UrlDialect(OrinDialect), sql).unwrap();
    assert_eq!(parsed.len(), 1);
    assert!(format!("{}", parsed[0]).contains("https://example.com/x.csv?k=v&x=1"));
}
