//! The wire form of a response.

use vstd::prelude::*;
use vstd::string::StringExecFns;
use vstd::utf8::encode_utf8;

verus! {

/// The character that stands for a digit below ten.
pub open spec fn digit(d: int) -> char {
    if d == 0 {
        '0'
    } else if d == 1 {
        '1'
    } else if d == 2 {
        '2'
    } else if d == 3 {
        '3'
    } else if d == 4 {
        '4'
    } else if d == 5 {
        '5'
    } else if d == 6 {
        '6'
    } else if d == 7 {
        '7'
    } else if d == 8 {
        '8'
    } else {
        '9'
    }
}

/// A natural number in decimal, without leading zeros.
pub open spec fn decimal(n: nat) -> Seq<char>
    decreases n,
{
    if n < 10 {
        seq![digit(n as int)]
    } else {
        decimal(n / 10).push(digit((n % 10) as int))
    }
}

/// An integer in decimal, with `-` before a negative one.
pub open spec fn signed_decimal(n: int) -> Seq<char> {
    if n < 0 {
        seq!['-'] + decimal((-n) as nat)
    } else {
        decimal(n as nat)
    }
}

/// The response that is written to the connection: the status line, the
/// headers `Date`, `Server`, `Content-Length`, `Content-Type` and
/// `Connection`, a blank line, one more line break, and the body. The content
/// length is the number of bytes of the body and of that line break.
pub open spec fn response_text(
    version: Seq<char>,
    code: int,
    date: Seq<char>,
    server: Seq<char>,
    content_type: Seq<char>,
    body: Seq<char>,
) -> Seq<char> {
    "HTTP/"@ + version + " "@ + signed_decimal(code) + " OK\r\nDate: "@ + date + "\r\nServer: "@
        + server + "\r\nContent-Length: "@ + decimal(encode_utf8(body).len() + 2)
        + "\r\nContent-Type: "@ + content_type + "\r\nConnection: close\r\n\r\n\r\n"@ + body
}

/// The character that stands for a digit.
fn digit_char(d: u8) -> (c: char)
    requires
        d < 10,
    ensures
        c == digit(d as int),
{
    if d == 0 {
        '0'
    } else if d == 1 {
        '1'
    } else if d == 2 {
        '2'
    } else if d == 3 {
        '3'
    } else if d == 4 {
        '4'
    } else if d == 5 {
        '5'
    } else if d == 6 {
        '6'
    } else if d == 7 {
        '7'
    } else if d == 8 {
        '8'
    } else {
        '9'
    }
}

/// A number in decimal.
pub fn decimal_text(n: u128) -> (text: String)
    ensures
        text@ == decimal(n as nat),
    decreases n,
{
    if n < 10 {
        let mut text = String::new();
        text.push(digit_char(n as u8));
        assert(text@ =~= seq![digit(n as int)]);
        text
    } else {
        let mut text = decimal_text(n / 10);
        text.push(digit_char((n % 10) as u8));
        text
    }
}

/// An integer in decimal.
pub fn signed_decimal_text(n: i32) -> (text: String)
    ensures
        text@ == signed_decimal(n as int),
{
    if n < 0 {
        let magnitude: i64 = -(n as i64);
        let digits = decimal_text(magnitude as u128);
        let mut text = String::new();
        text.push('-');
        text.append(digits.as_str());
        assert(text@ =~= seq!['-'] + digits@);
        text
    } else {
        decimal_text(n as u128)
    }
}

/// Formats the result of a handler as the response that is written to the
/// connection.
pub fn format_response(
    version: &str,
    code: i32,
    date: &str,
    server: &str,
    content_type: &str,
    body: &str,
) -> (response: String)
    ensures
        response@ == response_text(version@, code as int, date@, server@, content_type@, body@),
{
    let length: u128 = body.as_bytes().len() as u128 + 2;
    let mut response = "HTTP/".to_owned();
    response.append(version);
    response.append(" ");
    response.append(signed_decimal_text(code).as_str());
    response.append(" OK\r\nDate: ");
    response.append(date);
    response.append("\r\nServer: ");
    response.append(server);
    response.append("\r\nContent-Length: ");
    response.append(decimal_text(length).as_str());
    response.append("\r\nContent-Type: ");
    response.append(content_type);
    response.append("\r\nConnection: close\r\n\r\n\r\n");
    response.append(body);
    response
}

} // verus!
