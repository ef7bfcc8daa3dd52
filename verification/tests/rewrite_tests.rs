use reverse_http_proxy::rewrite::rewrite_line;
use reverse_http_proxy::rewrite::rewrite_request_path;
use reverse_http_proxy::rewrite::strip_prefix;
use reverse_http_proxy::text::chars_of;
use reverse_http_proxy::text::is_whitespace;
use reverse_http_proxy::text::starts_with_at;
use reverse_http_proxy::text::word_ranges;

#[test]
fn stripping_a_prefix_from_itself_gives_root() {
    assert_eq!(strip_prefix("/api", "/api"), "/");
}

#[test]
fn stripping_a_prefix_keeps_the_rest() {
    assert_eq!(strip_prefix("/api/v1/x", "/api"), "/v1/x");
    assert_eq!(strip_prefix("/api/", "/api"), "/");
}

#[test]
fn stripping_puts_a_slash_before_a_bare_rest() {
    assert_eq!(strip_prefix("/apiv2", "/api"), "/v2");
    assert_eq!(strip_prefix("/api?x=1", "/api"), "/?x=1");
}

#[test]
fn stripping_a_prefix_that_does_not_match_changes_nothing() {
    assert_eq!(strip_prefix("/other/x", "/api"), "/other/x");
    assert_eq!(strip_prefix("/ap", "/api"), "/ap");
}

#[test]
fn empty_prefix_leaves_bytes_identical() {
    let data = b"GET   /api/x  HTTP/1.1\r\nHost: a\r\n\r\nbody";
    assert_eq!(rewrite_request_path(data, "/api/x", ""), data.to_vec());
    assert_eq!(rewrite_request_path(b"", "/", ""), Vec::<u8>::new());
}

#[test]
fn rewrite_strips_the_prefix_in_the_request_line() {
    let data = b"GET /api/users HTTP/1.1\r\nHost: example\r\n\r\n";
    assert_eq!(
        rewrite_request_path(data, "/api/users", "/api"),
        b"GET /users HTTP/1.1\r\nHost: example\r\n\r\n".to_vec()
    );
}

#[test]
fn rewrite_of_the_prefix_itself_gives_root() {
    let data = b"GET /api HTTP/1.1\r\n\r\n";
    assert_eq!(rewrite_request_path(data, "/api", "/api"), b"GET / HTTP/1.1\r\n\r\n".to_vec());
}

#[test]
fn rewrite_keeps_headers_and_body_byte_for_byte() {
    let data = b"POST /api/up HTTP/1.1\r\nhOsT:  a \r\nX-Raw: \xff\xfe\r\n\r\n\x00\x01\r\nGET /api";
    let out = rewrite_request_path(data, "/api/up", "/api");
    assert_eq!(out, b"POST /up HTTP/1.1\r\nhOsT:  a \r\nX-Raw: \xff\xfe\r\n\r\n\x00\x01\r\nGET /api".to_vec());
    assert_eq!(&out[out.len() - (data.len() - 21)..], &data[21..]);
}

#[test]
fn rewrite_keeps_a_bare_line_feed_terminator() {
    let data = b"GET /api/a HTTP/1.0\nHost: x\n\n";
    assert_eq!(rewrite_request_path(data, "/api/a", "/api"), b"GET /a HTTP/1.0\nHost: x\n\n".to_vec());
}

#[test]
fn rewrite_joins_the_words_with_single_blanks() {
    let data = b"  GET \t /api/a   HTTP/1.1 \r\n\r\n";
    assert_eq!(rewrite_request_path(data, "/api/a", "/api"), b"GET /a HTTP/1.1\r\n\r\n".to_vec());
}

#[test]
fn rewrite_leaves_a_line_without_three_words_alone() {
    let two = b"GET /api/a\r\n\r\n";
    assert_eq!(rewrite_request_path(two, "/api/a", "/api"), two.to_vec());
    let four = b"GET /api/a HTTP/1.1 extra\r\n\r\n";
    assert_eq!(rewrite_request_path(four, "/api/a", "/api"), four.to_vec());
    let none = b"\r\n\r\n";
    assert_eq!(rewrite_request_path(none, "/", "/api"), none.to_vec());
}

#[test]
fn rewrite_leaves_input_without_line_terminator_alone() {
    let data = b"GET /api/a HTTP/1.1";
    assert_eq!(rewrite_request_path(data, "/api/a", "/api"), data.to_vec());
    assert_eq!(rewrite_request_path(b"", "/", "/api"), Vec::<u8>::new());
}

#[test]
fn rewrite_ends_the_first_line_at_a_carriage_return() {
    let data = b"GET /api/a\rHTTP/1.1\r\n\r\n";
    assert_eq!(rewrite_request_path(data, "/api/a", "/api"), data.to_vec());
}

#[test]
fn rewrite_keeps_a_path_that_does_not_start_with_the_prefix() {
    let data = b"GET /other HTTP/1.1\r\nHost: x\r\n\r\n";
    assert_eq!(rewrite_request_path(data, "/other", "/api"), data.to_vec());
}

#[test]
fn rewrite_decodes_the_first_line_lossily() {
    let data = b"G\xffT /api/\xc3\xa9 HTTP/1.1\r\nHost: \xff\r\n\r\n";
    assert_eq!(
        rewrite_request_path(data, "/api/x", "/api"),
        b"G\xef\xbf\xbdT /\xc3\xa9 HTTP/1.1\r\nHost: \xff\r\n\r\n".to_vec()
    );
}

#[test]
fn rewrite_line_gives_the_new_line_or_nothing() {
    assert_eq!(rewrite_line("GET /api/users HTTP/1.1", "/api"), Some("GET /users HTTP/1.1".to_string()));
    assert_eq!(rewrite_line("GET\u{a0}/api\u{3000}HTTP/1.1", "/api"), Some("GET / HTTP/1.1".to_string()));
    assert_eq!(rewrite_line("GET /api", "/api"), None);
    assert_eq!(rewrite_line("", "/api"), None);
    assert_eq!(rewrite_line("a b c d", "/api"), None);
}

#[test]
fn whitespace_is_what_the_standard_library_calls_whitespace() {
    let mut c: u32 = 0;
    while c <= 0x10ffff {
        if let Some(ch) = char::from_u32(c) {
            assert_eq!(is_whitespace(ch), ch.is_whitespace());
        }
        c += 1;
    }
}

#[test]
fn word_ranges_are_the_runs_between_whitespace() {
    let text: Vec<char> = " ab  c\td ".chars().collect();
    assert_eq!(word_ranges(&text), vec![(1, 3), (5, 6), (7, 8)]);
    assert_eq!(word_ranges(&Vec::new()), Vec::<(usize, usize)>::new());
    let blank: Vec<char> = "  \r\n".chars().collect();
    assert_eq!(word_ranges(&blank), Vec::<(usize, usize)>::new());
    let one: Vec<char> = "word".chars().collect();
    assert_eq!(word_ranges(&one), vec![(0, 4)]);
}

#[test]
fn chars_of_gives_the_characters() {
    assert_eq!(chars_of("a\u{e9}z"), vec!['a', '\u{e9}', 'z']);
    assert_eq!(chars_of(""), Vec::<char>::new());
}

#[test]
fn starts_with_at_compares_from_an_offset() {
    let text = chars_of("GET /api/x");
    assert!(starts_with_at(&text, 4, &chars_of("/api")));
    assert!(!starts_with_at(&text, 5, &chars_of("/api")));
    assert!(starts_with_at(&text, 10, &chars_of("")));
    assert!(!starts_with_at(&text, 8, &chars_of("/xy")));
}
