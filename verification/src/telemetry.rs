//! The reply of the metrics endpoint.
use crate::text;
use vstd::prelude::*;

verus! {

/// The head of the reply that carries `length` bytes of metrics.
pub open spec fn reply_head(length: nat) -> Seq<char> {
    "HTTP/1.1 200 OK\r\ncontent-type: text/plain; version=0.0.4\r\ncache-control: no-cache\r\nconnection: close\r\ncontent-length: "@
        + text::decimal(length) + "\r\n\r\n"@
}

/// The head of the reply that carries `length` bytes of metrics.
pub fn metrics_head(length: usize) -> (r: String)
    ensures
        r@ == reply_head(length as nat),
{
    let mut head = text::joined(
        "HTTP/1.1 200 OK\r\ncontent-type: text/plain; version=0.0.4\r\ncache-control: no-cache\r\nconnection: close\r\ncontent-length: ",
        text::to_decimal(length).as_str(),
    );
    head.append("\r\n\r\n");
    head
}

/// The head is the same for every length but for the digits, which stand for the
/// length, and ends with an empty line.
pub proof fn law_head_announces_the_length(length: nat, digits: Seq<char>)
    requires
        digits == text::decimal(length),
    ensures
        text::digits_value(digits) == length,
        reply_head(length) == reply_head(0).take(reply_head(0).len() - 5) + digits + seq![
            '\r',
            '\n',
            '\r',
            '\n',
        ],
        reply_head(length).take("HTTP/1.1 200 OK\r\n"@.len() as int) == "HTTP/1.1 200 OK\r\n"@,
{
    text::law_decimal_digits_stand_for_the_number(length);
    text::law_decimal_digits_stand_for_the_number(0);
    reveal_strlit("\r\n\r\n");
    reveal_strlit("HTTP/1.1 200 OK\r\n");
    reveal_strlit(
        "HTTP/1.1 200 OK\r\ncontent-type: text/plain; version=0.0.4\r\ncache-control: no-cache\r\nconnection: close\r\ncontent-length: ",
    );
    assert("\r\n\r\n"@ =~= seq!['\r', '\n', '\r', '\n']);
    let lead =
        "HTTP/1.1 200 OK\r\ncontent-type: text/plain; version=0.0.4\r\ncache-control: no-cache\r\nconnection: close\r\ncontent-length: "@;
    assert(reply_head(0).take(reply_head(0).len() - 5) =~= lead);
    assert(reply_head(length).take("HTTP/1.1 200 OK\r\n"@.len() as int)
        =~= "HTTP/1.1 200 OK\r\n"@);
}

} // verus!
