use fastry::response::{decimal_text, format_response, signed_decimal_text};

#[test]
fn numbers_in_decimal() {
    assert_eq!(decimal_text(0), "0");
    assert_eq!(decimal_text(7), "7");
    assert_eq!(decimal_text(10), "10");
    assert_eq!(decimal_text(1234567890), "1234567890");
    assert_eq!(decimal_text(u128::MAX), "340282366920938463463374607431768211455");
    assert_eq!(signed_decimal_text(200), "200");
    assert_eq!(signed_decimal_text(0), "0");
    assert_eq!(signed_decimal_text(-1), "-1");
    assert_eq!(signed_decimal_text(i32::MIN), "-2147483648");
    assert_eq!(signed_decimal_text(i32::MAX), "2147483647");
}

#[test]
fn response_has_the_wire_form() {
    let response = format_response("1.1", 200, "today", "Someserver", "text/html", "<p>hi</p>");
    assert_eq!(
        response,
        "HTTP/1.1 200 OK\r\nDate: today\r\nServer: Someserver\r\nContent-Length: 11\r\nContent-Type: text/html\r\nConnection: close\r\n\r\n\r\n<p>hi</p>"
    );
}

#[test]
fn content_length_counts_bytes_and_the_extra_line_break() {
    let response = format_response("1.0", 404, "", "s", "text/plain", "");
    assert_eq!(
        response,
        "HTTP/1.0 404 OK\r\nDate: \r\nServer: s\r\nContent-Length: 2\r\nContent-Type: text/plain\r\nConnection: close\r\n\r\n\r\n"
    );
    let response = format_response("1.1", 200, "d", "s", "t", "é€");
    assert!(response.contains("Content-Length: 7\r\n"));
    assert!(response.ends_with("\r\n\r\n\r\né€"));
}
