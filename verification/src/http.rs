//! The little of HTTP that the metrics port speaks.

use crate::redirects;
use crate::text;
use crate::text::{chars_of, has_head, push_decimal, same, split_words};
use vstd::prelude::*;

verus! {

/// Whether a request line asks for the metrics page: its path starts with
/// `/metrics`. A line without a path asks for the counters.
pub open spec fn asks_metrics(line: Seq<char>) -> bool {
    text::words(line).len() >= 2 && text::starts_with(text::words(line)[1], "/metrics"@)
}

/// Reads the request line.
pub fn wants_metrics(line: &str) -> (answer: bool)
    ensures
        answer == asks_metrics(line@),
{
    let chars: Vec<char> = chars_of(line);
    let words: Vec<Vec<char>> = split_words(chars.as_slice());
    assert(text::texts(words@).len() == words@.len());
    if words.len() < 2 {
        return false;
    }
    assert(text::texts(words@)[1] == words@[1]@);
    let head: Vec<char> = chars_of("/metrics");
    has_head(words[1].as_slice(), head.as_slice())
}

/// Whether the headers end with a line of which `read` bytes came: at the end of
/// the stream or at an empty line.
pub fn ends_headers(read: usize, line: &str) -> (answer: bool)
    ensures
        answer == (read == 0 || line@ == "\r\n"@ || line@ == "\n"@),
{
    let chars: Vec<char> = chars_of(line);
    let full: Vec<char> = chars_of("\r\n");
    let short: Vec<char> = chars_of("\n");
    read == 0 || same(chars.as_slice(), full.as_slice()) || same(
        chars.as_slice(),
        short.as_slice(),
    )
}

/// The content type of the metrics page and of the counters.
pub open spec fn content_type(metrics: bool) -> Seq<char> {
    if metrics {
        "text/plain; version=0.0.4"@
    } else {
        "application/json"@
    }
}

/// The response that carries `body`, with its length in bytes.
pub open spec fn response(metrics: bool, body: Seq<char>) -> Seq<char> {
    "HTTP/1.1 200 OK\r\nContent-Type: "@ + content_type(metrics) + "\r\nContent-Length: "@
        + text::decimal(redirects::byte_len(body)) + "\r\nConnection: close\r\n\r\n"@ + body
}

/// Writes the response.
pub fn http_response(metrics: bool, body: &str) -> (out: String)
    ensures
        out@ == response(metrics, body@),
{
    let mut out: String = String::new();
    out.append("HTTP/1.1 200 OK\r\nContent-Type: ");
    if metrics {
        out.append("text/plain; version=0.0.4");
    } else {
        out.append("application/json");
    }
    out.append("\r\nContent-Length: ");
    push_decimal(&mut out, body.as_bytes().len() as u64);
    out.append("\r\nConnection: close\r\n\r\n");
    out.append(body);
    assert(out@ =~= response(metrics, body@));
    out
}

} // verus!
