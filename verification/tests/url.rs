use rhai_url::url::Url;

/**
 * Tests Url()
 */
#[test]
fn test_constructors() {
    assert!(Url::new("").is_err(), "it should be an error on empty url");

    assert!(
        Url::new("http://test.dev/").is_ok(),
        "it should be ok on a valid url"
    );

    assert!(
        Url::new("http://127.0.0.1/").is_ok(),
        "it should be ok on a valid IPv4 url"
    );

    assert!(
        Url::new("http://[::1]/").is_ok(),
        "it should be ok on a valid IPv6 url"
    );
}

/**
 * Tests .href, .to_string(), .to_debug()
 */
#[test]
fn test_href_to_string_to_debug() {
    assert_eq!(
        Url::new("http://test.dev/").unwrap().href(),
        "http://test.dev/",
        "it should return the absolute url"
    );

    assert_eq!(
        Url::new("http://test.dev/").unwrap().to_string(),
        "http://test.dev/",
        "it should return the absolute url"
    );

    assert_eq!(
        Url::new("http://test.dev/").unwrap().to_debug(),
        "http://test.dev/",
        "it should return the absolute url"
    );
}

/**
 * Tests scheme getter and setter
 */
#[test]
fn test_scheme_getter_setter() {
    assert_eq!(
        Url::new("http://test.dev").unwrap().scheme(),
        "http",
        "it should return 'http'"
    );

    assert_eq!(
        Url::new("custom-scheme://test.dev/").unwrap().scheme(),
        "custom-scheme",
        "it should return 'custom-scheme'"
    );

    let mut url = Url::new("http://test.dev/").unwrap();
    url.set_scheme("https");
    assert_eq!(url.scheme(), "https", "it should set the scheme to 'https'");

    let mut url = Url::new("http://test.dev/").unwrap();
    url.set_scheme("custom-scheme");
    assert_eq!(
        url.scheme(),
        "http",
        "it should refuse to set a 'custom-scheme' when the current scheme is 'http'"
    );
}

/**
 * Tests domain getter
 */
#[test]
fn test_domain_getter_as_domain_has_no_setter() {
    assert_eq!(
        Url::new("http://test.dev").unwrap().domain(),
        "test.dev",
        "it should return a the domain"
    );

    assert_eq!(
        Url::new("http://127.0.0.1").unwrap().domain(),
        "",
        "it should return an empty string when the domain is an IPv4"
    );

    assert_eq!(
        Url::new("http://test.dev:1234").unwrap().domain(),
        "test.dev",
        "it should not include the port"
    );
}

/**
 * Tests path getter and setter
 */
#[test]
fn test_path_getter_setter() {
    assert_eq!(
        Url::new("http://test.dev").unwrap().path(),
        "/",
        "it should return a forward slash on url without end slash"
    );

    assert_eq!(
        Url::new("http://test.dev/").unwrap().path(),
        "/",
        "it should return a forward slash on url with no path"
    );

    assert_eq!(
        Url::new("http://test.dev/test_path").unwrap().path(),
        "/test_path",
        "it should return the path with a leading forward slash"
    );

    let mut url = Url::new("http://test.dev/test_path").unwrap();
    url.set_path("new-path");
    assert_eq!(
        url.path(),
        "/new-path",
        "it should return the newly assigned path"
    );

    let mut url = Url::new("http://test.dev/test_path").unwrap();
    url.set_path("");
    assert_eq!(
        url.path(),
        "/",
        "it should return the newly assigned path empty path as a forward slash"
    );
}

/**
 * Tests query getter and setter
 */
#[test]
fn test_query_getter_setter() {
    assert_eq!(
        Url::new("http://test.dev").unwrap().query(),
        "",
        "it should return an empty string when there is no query string"
    );

    assert_eq!(
        Url::new("http://test.dev?").unwrap().query(),
        "",
        "it should return an empty string when there is no query string but '?' is present"
    );

    assert_eq!(
        Url::new("http://test.dev?test_query").unwrap().query(),
        "test_query",
        "it should return the query without the leading '?'"
    );

    let mut url = Url::new("http://test.dev/path").unwrap();
    url.set_query("q=test");
    assert_eq!(
        url.query(),
        "q=test",
        "it should return the newly assigned query"
    );

    let mut url = Url::new("http://test.dev/test_query").unwrap();
    url.set_query("");
    assert_eq!(
        url.query(),
        "",
        "it should return the newly assigned empty query"
    );

    let mut url = Url::new("http://test.dev/path").unwrap();
    url.set_query("");
    assert_eq!(
        url.href(),
        "http://test.dev/path",
        "it should not add the '?' when the new query is empty"
    );

    let mut url = Url::new("http://test.dev/path").unwrap();
    url.set_query("q=test");
    assert_eq!(
        url.href(),
        "http://test.dev/path?q=test",
        "it should only set the query string"
    );
}

/**
 * Tests query clearing (delete/remove without a key clear the whole query)
 */
#[test]
fn test_query_clear_delete_remove() {
    let mut url = Url::new("http://test.dev/?query").unwrap();
    url.query_clear();
    assert_eq!(url.query(), "", "it should clear the query");

    let mut url = Url::new("http://test.dev/?query").unwrap();
    url.query_clear();
    assert_eq!(url.href(), "http://test.dev/", "it should remove the '?'");

    let mut url = Url::new("http://test.dev/?query").unwrap();
    url.query_clear();
    assert_eq!(
        url.query(),
        "",
        "it should delete the query when no argument is passed"
    );

    // query_remove is an alias of query_delete

    let mut url = Url::new("http://test.dev/?query").unwrap();
    url.query_clear();
    assert_eq!(
        url.query(),
        "",
        "it should delete the query when no argument is passed"
    );

    let mut url = Url::new("http://test.dev/?q=test&b=preserve").unwrap();
    url.query_delete("q");
    assert_eq!(
        url.query(),
        "b=preserve",
        "it should only delete the specified query key"
    );
}

/**
 * Tests fragment getter and setter
 */
#[test]
fn test_fragment_getter_setter() {
    assert_eq!(
        Url::new("http://test.dev").unwrap().fragment(),
        "",
        "it should return an empty string when there is no fragment string"
    );

    assert_eq!(
        Url::new("http://test.dev#").unwrap().fragment(),
        "",
        "it should return an empty string when there is no fragment string but '#' is present"
    );

    assert_eq!(
        Url::new("http://test.dev#test_fragment").unwrap().fragment(),
        "test_fragment",
        "it should return the fragment without the leading '#'"
    );

    let mut url = Url::new("http://test.dev/path").unwrap();
    url.set_fragment("test");
    assert_eq!(
        url.fragment(),
        "test",
        "it should return the newly assigned fragment"
    );

    let mut url = Url::new("http://test.dev/").unwrap();
    url.set_fragment("");
    assert_eq!(
        url.fragment(),
        "",
        "it should return the newly assigned empty fragment"
    );

    let mut url = Url::new("http://test.dev/path").unwrap();
    url.set_fragment("");
    assert_eq!(
        url.href(),
        "http://test.dev/path",
        "it should not add the '#' when the new fragment is empty"
    );

    let mut url = Url::new("http://test.dev/path").unwrap();
    url.set_fragment("test");
    assert_eq!(
        url.href(),
        "http://test.dev/path#test",
        "it should only set the fragment string"
    );
}

/**
 * Tests hash getter and setter, hash and fragment should behave identically
 */
#[test]
fn test_hash_getter_setter_as_fragment_alias() {
    assert_eq!(
        Url::new("http://test.dev").unwrap().hash(),
        "",
        "it should return an empty string when there is no fragment string"
    );

    assert_eq!(
        Url::new("http://test.dev#").unwrap().hash(),
        "",
        "it should return an empty string when there is no fragment string but '#' is present"
    );

    assert_eq!(
        Url::new("http://test.dev#test_fragment").unwrap().hash(),
        "test_fragment",
        "it should return the fragment without the leading '#'"
    );

    let mut url = Url::new("http://test.dev/path").unwrap();
    url.set_hash("test");
    assert_eq!(
        url.hash(),
        "test",
        "it should return the newly assigned fragment"
    );

    let mut url = Url::new("http://test.dev/").unwrap();
    url.set_hash("");
    assert_eq!(
        url.hash(),
        "",
        "it should return the newly assigned empty fragment"
    );

    let mut url = Url::new("http://test.dev/path").unwrap();
    url.set_hash("");
    assert_eq!(
        url.href(),
        "http://test.dev/path",
        "it should not add the '#' when the new fragment is empty"
    );

    let mut url = Url::new("http://test.dev/path").unwrap();
    url.set_hash("test");
    assert_eq!(
        url.href(),
        "http://test.dev/path#test",
        "it should only set the fragment string"
    );
}
