use reader_core::js_runtime::escape_js_string;

#[test]
fn escape_js_string_quotes_and_escapes() {
    assert_eq!(escape_js_string("plain"), "\"plain\"");
    assert_eq!(escape_js_string(""), "\"\"");
    assert_eq!(escape_js_string("a\"b"), "\"a\\\"b\"");
    assert_eq!(escape_js_string("back\\slash"), "\"back\\\\slash\"");
    assert_eq!(escape_js_string("l1\nl2\r\tx"), "\"l1\\nl2\\r\\tx\"");
    assert_eq!(escape_js_string("第一章"), "\"第一章\"");
}
