//! What the client of a cancelled request is told.
use crate::executor::CleanupReason;
use crate::text;
use vstd::prelude::*;
use vstd::string::StrSliceExecFns;
use vstd::string::StringExecFns;
use vstd::utf8;

verus! {

/// The reason in words.
pub open spec fn reason_text(reason: CleanupReason) -> Seq<char> {
    match reason {
        CleanupReason::OutOfMemory => "Internal Server Error: Out of Memory\r\n"@,
        CleanupReason::Panic => "Internal Server Error: Panic\r\n"@,
    }
}

/// The response to a cancelled request: a proper error, with the reason as its body. It gives no
/// length, because the connection is shut down behind it.
pub open spec fn error_text(reason: CleanupReason) -> Seq<char> {
    "HTTP/1.1 500 Internal Server Error\r\n"@ + "Content-Type: text/plain\r\n"@ + "\r\n"@
        + reason_text(reason)
}

/// The response to a cancelled request.
pub fn error_response(reason: CleanupReason) -> (response: Vec<u8>)
    ensures
        response@ == utf8::encode_utf8(error_text(reason)),
{
    let mut response = String::new();
    response.append("HTTP/1.1 500 Internal Server Error\r\n");
    response.append("Content-Type: text/plain\r\n");
    response.append("\r\n");
    match reason {
        CleanupReason::OutOfMemory => response.append("Internal Server Error: Out of Memory\r\n"),
        CleanupReason::Panic => response.append("Internal Server Error: Panic\r\n"),
    }
    assert(response@ =~= error_text(reason));
    response.as_str().as_bytes_vec()
}

/// A cancelled request is answered with a proper error: the status, the content type, an empty line
/// and the reason, each on a line of its own. The reason tells the two causes apart.
pub proof fn law_cancelled_requests_get_a_proper_error(reason: CleanupReason)
    ensures
        text::lines_of(error_text(reason)) == seq![
            "HTTP/1.1 500 Internal Server Error"@,
            "Content-Type: text/plain"@,
            Seq::<char>::empty(),
            match reason {
                CleanupReason::OutOfMemory => "Internal Server Error: Out of Memory"@,
                CleanupReason::Panic => "Internal Server Error: Panic"@,
            },
        ],
        error_text(reason).skip(error_text(reason).len() - 2) == seq!['\r', '\n'],
        error_text(reason).len() == 66 + (match reason {
            CleanupReason::OutOfMemory => "Internal Server Error: Out of Memory"@,
            CleanupReason::Panic => "Internal Server Error: Panic"@,
        }).len(),
{
    reveal_strlit("HTTP/1.1 500 Internal Server Error\r\n");
    reveal_strlit("HTTP/1.1 500 Internal Server Error");
    reveal_strlit("Content-Type: text/plain\r\n");
    reveal_strlit("Content-Type: text/plain");
    reveal_strlit("\r\n");
    reveal_strlit("Internal Server Error: Out of Memory\r\n");
    reveal_strlit("Internal Server Error: Out of Memory");
    reveal_strlit("Internal Server Error: Panic\r\n");
    reveal_strlit("Internal Server Error: Panic");
    let ending = seq!['\r', '\n'];
    let none = Seq::<char>::empty();
    let (first, second) = ("HTTP/1.1 500 Internal Server Error"@, "Content-Type: text/plain"@);
    let fourth = match reason {
        CleanupReason::OutOfMemory => "Internal Server Error: Out of Memory"@,
        CleanupReason::Panic => "Internal Server Error: Panic"@,
    };
    let last = fourth + ending + none;
    let third = none + ending + last;
    assert(reason_text(reason) =~= last);
    assert(error_text(reason) =~= first + ending + (second + ending + third));
    assert(error_text(reason).skip(error_text(reason).len() - 2) =~= ending);
    assert(!first.contains('\n') && !second.contains('\n') && !fourth.contains('\n'));
    text::law_lines_end_at_line_feeds(first, second + ending + third);
    text::law_lines_end_at_line_feeds(second, third);
    text::law_lines_end_at_line_feeds(none, last);
    text::law_lines_end_at_line_feeds(fourth, none);
    text::law_a_text_without_line_feeds_is_one_line(none);
    assert(text::lines_of(error_text(reason)) =~= seq![first, second, none, fourth]);
}

} // verus!
