use orin_sql::fetcher::{fetcher_for, FetchError, Fetcher};

#[test]
fn unsupported_scheme_is_refused() {
    assert_eq!(fetcher_for("ftp://example.com/data.csv"), Err(FetchError::UnsupportedScheme));
    assert_eq!(
        FetchError::UnsupportedScheme.message(),
        "unsupported scheme, only http/https/file are supported"
    );
}

#[test]
fn short_locator_is_refused() {
    assert_eq!(fetcher_for("ab"), Err(FetchError::UnsupportedScheme));
    assert_eq!(fetcher_for(""), Err(FetchError::UnsupportedScheme));
}

#[test]
fn http_and_https_fetch_the_url() {
    assert_eq!(
        fetcher_for("http://example.com/a.csv"),
        Ok(Fetcher::Url("http://example.com/a.csv".to_string()))
    );
    assert_eq!(
        fetcher_for("https://example.com/a.csv?x=1"),
        Ok(Fetcher::Url("https://example.com/a.csv?x=1".to_string()))
    );
}

#[test]
fn file_strips_the_scheme() {
    assert_eq!(
        fetcher_for("file:///tmp/covid.csv"),
        Ok(Fetcher::File("/tmp/covid.csv".to_string()))
    );
    assert_eq!(fetcher_for("file://"), Ok(Fetcher::File(String::new())));
    assert_eq!(fetcher_for("file:/"), Err(FetchError::MissingPath));
}
