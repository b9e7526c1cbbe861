//! Responses with a status, a content type and a length.
use crate::text;
use vstd::prelude::*;
use vstd::string::StringExecFns;
use vstd::utf8;

verus! {

#[derive(Debug)]
pub struct Response {
    pub content_type: ContentType,
    pub body: String,
    pub status: StatusCode,
}

/// What kind of content a body holds.
#[derive(Debug)]
pub struct ContentType(&'static str);

impl View for ContentType {
    type V = Seq<char>;

    closed spec fn view(&self) -> Seq<char> {
        self.0@
    }
}

impl ContentType {
    pub fn text_plain() -> (content_type: ContentType)
        ensures
            content_type@ == "text/plain"@,
    {
        ContentType("text/plain")
    }

    pub fn image_svg() -> (content_type: ContentType)
        ensures
            content_type@ == "image/svg+xml"@,
    {
        ContentType("image/svg+xml")
    }

    pub fn to_string(&self) -> (text: &'static str)
        ensures
            text@ == self@,
    {
        self.0
    }
}

/// A status code. It is never zero.
#[derive(Debug)]
pub struct StatusCode(u16);

impl View for StatusCode {
    type V = nat;

    closed spec fn view(&self) -> nat {
        self.0 as nat
    }
}

/// A status code in words.
pub open spec fn description(code: nat) -> Seq<char> {
    if code == 200 {
        "OK"@
    } else {
        "Unknown"@
    }
}

/// A status code as a number and in words.
pub open spec fn status_text(code: nat) -> Seq<char> {
    text::decimal(code) + " "@ + description(code)
}

impl StatusCode {
    pub fn ok() -> (status: StatusCode)
        ensures
            status@ == 200,
    {
        StatusCode(200)
    }

    /// The status with the given number. Zero is no status.
    pub fn new(code: u16) -> (status: Option<StatusCode>)
        ensures
            status is Some <==> code != 0,
            status matches Some(status) ==> status@ == code,
    {
        if code == 0 {
            None
        } else {
            Some(StatusCode(code))
        }
    }

    fn desc(&self) -> (words: &'static str)
        ensures
            words@ == description(self@),
    {
        match self.0 {
            200 => "OK",
            _ => "Unknown",
        }
    }

    pub fn to_string(&self) -> (text: String)
        ensures
            text@ == status_text(self@),
    {
        let mut text = String::new();
        text::push_decimal(&mut text, self.0 as u64);
        text.append(" ");
        text.append(self.desc());
        assert(text@ =~= status_text(self@));
        text
    }
}

/// The text of a response. The length that it gives is that of the body in bytes.
pub open spec fn response_text(code: nat, content_type: Seq<char>, body: Seq<char>) -> Seq<char> {
    "HTTP/1.1 "@ + status_text(code) + "\r\n"@ + "Content-Type: "@ + content_type
        + "; charset=utf-8\r\n"@ + "Content-Length: "@ + text::decimal(
        utf8::encode_utf8(body).len(),
    ) + "\r\n"@ + "\r\n"@ + body
}

impl Response {
    pub fn to_string(&self) -> (text: String)
        ensures
            text@ == response_text(self.status@, self.content_type@, self.body@),
    {
        let mut text = String::new();
        text.append("HTTP/1.1 ");
        text.append(self.status.to_string().as_str());
        text.append("\r\n");
        text.append("Content-Type: ");
        text.append(self.content_type.to_string());
        text.append("; charset=utf-8\r\n");
        text.append("Content-Length: ");
        let length: usize = self.body.as_str().as_bytes().len();
        text::push_decimal(&mut text, length as u64);
        text.append("\r\n");
        text.append("\r\n");
        text.append(self.body.as_str());
        assert(text@ =~= response_text(self.status@, self.content_type@, self.body@));
        text
    }
}

impl From<String> for Response {
    fn from(value: String) -> (response: Self)
        ensures
            response.body@ == value@,
            response.content_type@ == "text/plain"@,
            response.status@ == 200,
    {
        Response { content_type: ContentType::text_plain(), body: value, status: StatusCode::ok() }
    }
}

impl vstd::std_specs::convert::FromSpecImpl<String> for Response {
    open spec fn obeys_from_spec() -> bool {
        false
    }

    open spec fn from_spec(value: String) -> Self {
        arbitrary()
    }
}

impl From<&str> for Response {
    fn from(value: &str) -> (response: Self)
        ensures
            response.body@ == value@,
            response.content_type@ == "text/plain"@,
            response.status@ == 200,
    {
        Response {
            content_type: ContentType::text_plain(),
            body: value.to_owned(),
            status: StatusCode::ok(),
        }
    }
}

impl vstd::std_specs::convert::FromSpecImpl<&str> for Response {
    open spec fn obeys_from_spec() -> bool {
        false
    }

    open spec fn from_spec(value: &str) -> Self {
        arbitrary()
    }
}

/// The text of a status is its number, a blank, and what the number means. Only one number has a
/// meaning here.
pub proof fn law_statuses_are_numbers_in_words(code: nat)
    requires
        code <= u16::MAX,
    ensures
        ({
            let status = status_text(code);
            let n = text::decimal(code).len() as int;
            &&& text::number_of(status.take(n)) == Some(code as int)
            &&& status[n] == ' '
            &&& code == 200 ==> status.skip(n + 1) == seq!['O', 'K']
            &&& code != 200 ==> status.skip(n + 1) == seq!['U', 'n', 'k', 'n', 'o', 'w', 'n']
        }),
{
    reveal_strlit(" ");
    reveal_strlit("OK");
    reveal_strlit("Unknown");
    let status = status_text(code);
    let n = text::decimal(code).len() as int;
    text::law_numbers_round_trip(code);
    assert(status.take(n) =~= text::decimal(code));
    assert(status.skip(n + 1) =~= description(code));
    if code == 200 {
        assert(description(code) =~= seq!['O', 'K']);
    } else {
        assert(description(code) =~= seq!['U', 'n', 'k', 'n', 'o', 'w', 'n']);
    }
}

/// A response ends with its body, as it is. Four lines stand before it: the status, the type of the
/// body, how many bytes the body has, and an empty one.
pub proof fn law_responses_hold_their_body(code: nat, content_type: Seq<char>, body: Seq<char>)
    requires
        !content_type.contains('\n'),
    ensures
        ({
            let response = response_text(code, content_type, body);
            let start = response.len() - body.len();
            let lines = text::lines_of(response.take(start));
            &&& 4 <= start <= response.len()
            &&& response.skip(start) == body
            &&& response.subrange(start - 4, start) == seq!['\r', '\n', '\r', '\n']
            &&& lines.len() == 4
            &&& lines[0] == "HTTP/1.1"@ + seq![' '] + status_text(code)
            &&& lines[1] == "Content-Type:"@ + seq![' '] + content_type + "; charset=utf-8"@
            &&& lines[2] == "Content-Length:"@ + seq![' '] + text::decimal(
                utf8::encode_utf8(body).len(),
            )
            &&& lines[3].len() == 0
            &&& start == lines[0].len() + lines[1].len() + lines[2].len() + 8
        }),
{
    reveal_strlit("HTTP/1.1 ");
    reveal_strlit("HTTP/1.1");
    reveal_strlit("\r\n");
    reveal_strlit("Content-Type: ");
    reveal_strlit("Content-Type:");
    reveal_strlit("; charset=utf-8\r\n");
    reveal_strlit("; charset=utf-8");
    reveal_strlit("Content-Length: ");
    reveal_strlit("Content-Length:");
    reveal_strlit(" ");
    reveal_strlit("OK");
    reveal_strlit("Unknown");
    let ending = seq!['\r', '\n'];
    let none = Seq::<char>::empty();
    let length = text::decimal(utf8::encode_utf8(body).len());
    let first = "HTTP/1.1"@ + seq![' '] + status_text(code);
    let second = "Content-Type:"@ + seq![' '] + content_type + "; charset=utf-8"@;
    let third = "Content-Length:"@ + seq![' '] + length;
    let response = response_text(code, content_type, body);
    let start = response.len() - body.len();
    let last = third + ending + (none + ending + none);
    let rest = second + ending + last;
    text::law_numbers_are_written_without_leading_zeros(code);
    text::law_numbers_are_written_without_leading_zeros(utf8::encode_utf8(body).len());
    assert(!first.contains('\n')) by {
        if first.contains('\n') {
            let i = choose|i: int| 0 <= i < first.len() && first[i] == '\n';
            let n = text::decimal(code).len();
            if i >= 9 && i < 9 + n {
                assert(text::decimal(code)[i - 9] == '\n');
            } else if i > 9 + n {
                assert(description(code)[i - 10 - n] == '\n');
            }
        }
    }
    assert(!second.contains('\n')) by {
        if second.contains('\n') {
            let i = choose|i: int| 0 <= i < second.len() && second[i] == '\n';
            if 14 <= i < 14 + content_type.len() {
                assert(content_type[i - 14] == '\n');
            }
        }
    }
    assert(!third.contains('\n')) by {
        if third.contains('\n') {
            let i = choose|i: int| 0 <= i < third.len() && third[i] == '\n';
            if i >= 16 {
                assert(length[i - 16] == '\n');
            }
        }
    }
    assert(response =~= first + ending + rest + body);
    assert(response.take(start) =~= first + ending + rest);
    assert(response.skip(start) =~= body);
    assert(response.subrange(start - 4, start) =~= seq!['\r', '\n', '\r', '\n']);
    text::law_lines_end_at_line_feeds(first, rest);
    text::law_lines_end_at_line_feeds(second, last);
    text::law_lines_end_at_line_feeds(third, none + ending + none);
    text::law_lines_end_at_line_feeds(none, none);
    text::law_a_text_without_line_feeds_is_one_line(none);
    assert(text::lines_of(response.take(start)) =~= seq![first, second, third, none]);
}

} // verus!
