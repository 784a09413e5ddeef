use helios::target::Target;

#[test]
fn test_target_from_str() {
    // Simple test
    let target: Target = Target::from_str("/index.php").unwrap();
    assert_eq!(target.path, "index.php");
    assert_eq!(target.query_str, "");

    // No leading backslash test
    let target: Target = Target::from_str("index.php").unwrap();
    assert_eq!(target.path, "index.php");
    assert_eq!(target.query_str, "");

    // Query string test
    let target: Target = Target::from_str("/index.php?msg=Hack the planet!&foo=bar").unwrap();
    assert_eq!(target.path, "index.php");
    assert_eq!(target.query_str, "msg=Hack%20the%20planet!&foo=bar");

    // Thwart hacker test
    let target: Target = Target::from_str("../../../secrets.lol").unwrap();
    assert_eq!(target.path, "secrets.lol");
    assert_eq!(target.query_str, "");

    // Thwart weird hacker test
    let target: Target = Target::from_str("/some/folder/../../../secrets.lol").unwrap();
    assert_eq!(target.path, "secrets.lol");
    assert_eq!(target.query_str, "");
}

#[test]
fn target_decodes_percent_escapes_in_path() {
    let target = Target::from_str("/%41%42/c%20d.txt").unwrap();
    assert_eq!(target.path, "AB/c d.txt");

    // an incomplete or invalid escape passes through unchanged
    let target = Target::from_str("/100%.html").unwrap();
    assert_eq!(target.path, "100%.html");
    let target = Target::from_str("/a%zz").unwrap();
    assert_eq!(target.path, "a%zz");
}

#[test]
fn target_decodes_utf8_escapes_and_rejects_invalid() {
    // a two-byte UTF-8 escape decodes to its character
    let target = Target::from_str("/caf%C3%A9").unwrap();
    assert_eq!(target.path, "caf\u{e9}");

    // a raw non-ASCII character passes through unchanged
    let target = Target::from_str("/na\u{ef}ve.html").unwrap();
    assert_eq!(target.path, "na\u{ef}ve.html");

    // bytes that are not valid UTF-8 are rejected
    assert!(Target::from_str("/%FF").is_err());
    assert!(Target::from_str("/a%C3").is_err());
}

#[test]
fn target_confines_encoded_dot_segments() {
    // encoded dots decode first, then collapse: they cannot escape either
    let target = Target::from_str("/%2e%2e/%2e%2e/secrets.lol").unwrap();
    assert_eq!(target.path, "secrets.lol");

    // single dots and doubled slashes vanish
    let target = Target::from_str("/a/./b//c/../d").unwrap();
    assert_eq!(target.path, "a/b/d");

    // climbing past the root never leaves it
    let target = Target::from_str("/a/../../../../b").unwrap();
    assert_eq!(target.path, "b");

    // everything collapsed away leaves the root itself
    let target = Target::from_str("/a/..").unwrap();
    assert_eq!(target.path, "");
}

#[test]
fn target_keeps_query_and_drops_fragment() {
    let target = Target::from_str("/page?x=1&y=2#section").unwrap();
    assert_eq!(target.path, "page");
    assert_eq!(target.query_str, "x=1&y=2");

    let target = Target::from_str("/page#only-fragment").unwrap();
    assert_eq!(target.path, "page");
    assert_eq!(target.query_str, "");

    // the query is re-encoded, existing escapes left alone
    let target = Target::from_str("/p?a=<b>&c=\"d\"&e=%20").unwrap();
    assert_eq!(target.query_str, "a=%3Cb%3E&c=%22d%22&e=%20");
}
