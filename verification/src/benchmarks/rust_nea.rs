//! Handlers that read a request as text and answer with text.
use crate::text;
use vstd::prelude::*;
use vstd::string::StrSliceExecFns;
use vstd::string::StringExecFns;
use vstd::utf8;

verus! {

/// A line of the form `key: value`.
#[derive(Debug, Clone)]
pub struct Header<'a> {
    pub key: &'a str,
    pub value: &'a str,
}

/// A request, cut into its parts.
#[derive(Debug)]
pub struct Request<'a> {
    pub body: &'a str,
    pub headers: Vec<Header<'a>>,
    pub method: &'a str,
    pub path: &'a str,
    pub version: &'a str,
}

/// The parts of a request, as texts.
pub struct RequestView {
    pub body: Seq<char>,
    pub headers: Seq<(Seq<char>, Seq<char>)>,
    pub method: Seq<char>,
    pub path: Seq<char>,
    pub version: Seq<char>,
}

/// Key and value of every line that has both. Other lines are left out.
pub open spec fn headers_of(lines: Seq<Seq<char>>) -> Seq<(Seq<char>, Seq<char>)>
    decreases lines.len(),
{
    if lines.len() == 0 {
        Seq::empty()
    } else {
        let earlier = headers_of(lines.drop_last());
        match text::split_once_at(lines.last(), ": "@) {
            None => earlier,
            Some(header) => earlier.push(header),
        }
    }
}

/// The first line of a request, and everything behind it, if the request has a blank line.
pub open spec fn first_line(request: Seq<char>) -> Option<(Seq<char>, Seq<char>)> {
    match text::split_once_at(request, "\r\n\r\n"@) {
        None => None,
        Some(_) => text::split_once_at(request, "\r\n"@),
    }
}

/// Whether the first line has more than a method, a path and a version.
pub open spec fn has_extra_words(request: Seq<char>) -> bool {
    first_line(request) matches Some((line, _)) && text::words_of(line).len() > 3
}

/// The parts of a request: the words of its first line, the lines that are headers, and what
/// stands behind the first blank line.
pub open spec fn parsed(request: Seq<char>) -> Option<RequestView> {
    match (text::split_once_at(request, "\r\n\r\n"@), first_line(request)) {
        (Some((_, body)), Some((line, rest))) => {
            let words = text::words_of(line);
            if words.len() < 3 {
                None
            } else {
                Some(
                    RequestView {
                        body,
                        headers: headers_of(text::lines_of(rest)),
                        method: words[0],
                        path: words[1],
                        version: words[2],
                    },
                )
            }
        },
        _ => None,
    }
}

/// The headers, as texts.
pub open spec fn header_views(headers: Seq<Header>) -> Seq<(Seq<char>, Seq<char>)> {
    headers.map_values(|header: Header| (header.key@, header.value@))
}

impl<'a> View for Request<'a> {
    type V = RequestView;

    open spec fn view(&self) -> RequestView {
        RequestView {
            body: self.body@,
            headers: header_views(self.headers@),
            method: self.method@,
            path: self.path@,
            version: self.version@,
        }
    }
}

impl<'a> Request<'a> {
    /// Cuts a request into its parts. A first line with more than three words is not expected.
    pub fn parse(string: &'a str) -> (request: Option<Self>)
        requires
            !has_extra_words(string@),
        ensures
            match request {
                None => parsed(string@) is None,
                Some(request) => parsed(string@) == Some(request@),
            },
    {
        let (_, body) = match text::split_once(string, "\r\n\r\n") {
            None => return None,
            Some(parts) => parts,
        };
        let (line, rest) = match text::split_once(string, "\r\n") {
            None => return None,
            Some(parts) => parts,
        };
        let words = text::words(line);
        assert(text::views(words@).len() == words@.len());
        if words.len() < 3 {
            return None;
        }
        let request = Request {
            body,
            headers: parse_headers(rest),
            method: words[0],
            path: words[1],
            version: words[2],
        };
        assert(text::views(words@)[0] == words@[0]@);
        assert(text::views(words@)[1] == words@[1]@);
        assert(text::views(words@)[2] == words@[2]@);
        Some(request)
    }
}

/// Whether the first line of a request has more than a method, a path and a version.
pub fn first_line_is_too_long(string: &str) -> (result: bool)
    ensures
        result == has_extra_words(string@),
{
    if text::split_once(string, "\r\n\r\n").is_none() {
        return false;
    }
    match text::split_once(string, "\r\n") {
        None => false,
        Some((line, _)) => {
            let words = text::words(line);
            assert(text::views(words@).len() == words@.len());
            words.len() > 3
        },
    }
}

/// The request that bytes hold, if they are text and the text is one.
pub open spec fn received(bytes: Seq<u8>) -> Option<RequestView> {
    if utf8::valid_utf8(bytes) && !has_extra_words(utf8::decode_utf8(bytes)) {
        parsed(utf8::decode_utf8(bytes))
    } else {
        None
    }
}

/// Reads the request that bytes hold.
pub fn receive<'a>(bytes: &'a [u8]) -> (request: Option<Request<'a>>)
    ensures
        match request {
            None => received(bytes@) is None,
            Some(request) => received(bytes@) == Some(request@),
        },
{
    match core::str::from_utf8(bytes) {
        Err(_) => None,
        Ok(string) => if first_line_is_too_long(string) {
            None
        } else {
            Request::parse(string)
        },
    }
}

/// The headers among the lines of a text.
fn parse_headers<'a>(rest: &'a str) -> (headers: Vec<Header<'a>>)
    ensures
        header_views(headers@) == headers_of(text::lines_of(rest@)),
{
    let lines = text::lines(rest);
    let ghost texts = text::views(lines@);
    let mut headers: Vec<Header<'a>> = Vec::new();
    let mut i: usize = 0;
    assert(header_views(headers@) =~= headers_of(texts.take(0)));
    while i < lines.len()
        invariant
            i <= lines@.len(),
            texts == text::views(lines@),
            header_views(headers@) == headers_of(texts.take(i as int)),
        decreases lines.len() - i,
    {
        proof {
            assert(texts.take(i + 1).drop_last() =~= texts.take(i as int));
            assert(texts.take(i + 1).last() == lines@[i as int]@);
        }
        let ghost before = headers@;
        if let Some((key, value)) = text::split_once(lines[i], ": ") {
            headers.push(Header { key, value });
            assert(header_views(headers@) =~= header_views(before).push((key@, value@)));
        }
        i = i + 1;
    }
    assert(texts.take(i as int) =~= texts);
    headers
}

/// The text of a response with the given body.
pub open spec fn response_text(body: Seq<char>) -> Seq<char> {
    "HTTP/1.1 200 OK\r\n"@ + "Content-Type: text/html\r\n"@ + "\r\n"@ + body + "\r\n"@
}

/// Puts a response together.
pub fn format_response(rust_response: &str) -> (response: Vec<u8>)
    ensures
        response@ == utf8::encode_utf8(response_text(rust_response@)),
{
    let mut response = String::new();
    response.append("HTTP/1.1 200 OK\r\n");
    response.append("Content-Type: text/html\r\n");
    response.append("\r\n");
    response.append(rust_response);
    response.append("\r\n");
    assert(response@ =~= response_text(rust_response@));
    response.as_str().as_bytes_vec()
}

/// Whether a line gives a point of a path, as two numbers.
pub open spec fn is_point(line: Seq<char>) -> bool {
    match text::split_once_at(line, ", "@) {
        None => true,
        Some((x, y)) => text::number_of(x) is Some && text::number_of(y) is Some,
    }
}

/// Whether every line of a text that gives a point gives it as two numbers.
pub open spec fn gives_path(body: Seq<char>) -> bool {
    forall|i: int| 0 <= i < text::lines_of(body).len() ==> is_point(#[trigger] text::lines_of(body)[i])
}

/// Whether every line of a text that gives a point gives it as two numbers.
pub fn has_only_points(body: &str) -> (result: bool)
    ensures
        result == gives_path(body@),
{
    let lines = text::lines(body);
    let ghost texts = text::views(lines@);
    let mut i: usize = 0;
    while i < lines.len()
        invariant
            i <= lines@.len(),
            texts == text::views(lines@),
            texts == text::lines_of(body@),
            forall|j: int| 0 <= j < i ==> is_point(#[trigger] texts[j]),
        decreases lines.len() - i,
    {
        assert(texts[i as int] == lines@[i as int]@);
        if let Some((x, y)) = text::split_once(lines[i], ", ") {
            if text::parse_number(x).is_none() || text::parse_number(y).is_none() {
                assert(!is_point(texts[i as int]));
                return false;
            }
        }
        i = i + 1;
    }
    true
}

/// The path through the points that the lines give. Lines that give none are left out.
pub open spec fn path_of(lines: Seq<Seq<char>>) -> Seq<char>
    decreases lines.len(),
{
    if lines.len() == 0 {
        "M 0 0 L"@
    } else {
        let earlier = path_of(lines.drop_last());
        match text::split_once_at(lines.last(), ", "@) {
            None => earlier,
            Some((x, y)) => earlier + text::decimal(text::number_of(x)->0 as nat) + " "@
                + text::decimal(text::number_of(y)->0 as nat),
        }
    }
}

/// A picture of a path.
pub open spec fn svg_text(path: Seq<char>) -> Seq<char> {
    "<svg width=\"100\" height=\"100\" xmlns=\"http://www.w3.org/2000/svg\">\n    <path d=\""@ + path
        + "\" stroke=\"black\" fill=\"transparent\"/>\n</svg>\n"@
}

/// Answers with a picture of the path whose points the lines of the body give.
pub fn respond_with_path(body: &str) -> (response: Vec<u8>)
    requires
        gives_path(body@),
    ensures
        response@ == utf8::encode_utf8(response_text(svg_text(path_of(text::lines_of(body@))))),
{
    let lines = text::lines(body);
    let ghost texts = text::views(lines@);
    let mut path = String::new();
    path.append("M 0 0 L");
    let mut i: usize = 0;
    assert(path@ =~= path_of(texts.take(0)));
    while i < lines.len()
        invariant
            i <= lines@.len(),
            texts == text::views(lines@),
            forall|j: int| 0 <= j < texts.len() ==> is_point(#[trigger] texts[j]),
            path@ == path_of(texts.take(i as int)),
        decreases lines.len() - i,
    {
        proof {
            assert(texts.take(i + 1).drop_last() =~= texts.take(i as int));
            assert(texts.take(i + 1).last() == lines@[i as int]@);
            assert(is_point(texts[i as int]));
        }
        if let Some((x, y)) = text::split_once(lines[i], ", ") {
            if let (Some(x), Some(y)) = (text::parse_number(x), text::parse_number(y)) {
                text::push_decimal(&mut path, x as u64);
                path.append(" ");
                text::push_decimal(&mut path, y as u64);
            }
        }
        i = i + 1;
    }
    assert(texts.take(i as int) =~= texts);
    let mut svg = String::new();
    svg.append(
        "<svg width=\"100\" height=\"100\" xmlns=\"http://www.w3.org/2000/svg\">\n    <path d=\"",
    );
    svg.append(path.as_str());
    svg.append("\" stroke=\"black\" fill=\"transparent\"/>\n</svg>\n");
    assert(svg@ =~= svg_text(path@));
    format_response(svg.as_str())
}

/// How many bytes a request for varying allocations asks for: its path is a slash and a number of
/// kilobytes.
pub open spec fn requested_bytes(path: Seq<char>) -> Option<int> {
    if path.len() > 0 && path[0] as int <= 127 {
        match text::number_of(path.skip(1)) {
            Some(n) => if n * 1024 <= isize::MAX {
                Some(n * 1024)
            } else {
                None
            },
            None => None,
        }
    } else {
        None
    }
}

/// How many bytes a request for varying allocations asks for.
pub fn allocation_of(path: &str) -> (bytes: Option<usize>)
    ensures
        match bytes {
            None => requested_bytes(path@) is None,
            Some(bytes) => requested_bytes(path@) == Some(bytes as int),
        },
{
    let len: usize = path.unicode_len();
    if len == 0 || path.get_char(0) as u32 > 127 {
        return None;
    }
    let number = path.substring_char(1, len);
    assert(number@ =~= path@.skip(1));
    match text::parse_number(number) {
        None => None,
        Some(kilobytes) => if kilobytes <= (isize::MAX as usize) / 1024 {
            Some(kilobytes * 1024)
        } else {
            None
        },
    }
}

/// Allocates as many kilobytes as the path asks for, and answers with the number of bytes.
pub fn respond_with_allocation(path: &str) -> (response: Vec<u8>)
    requires
        requested_bytes(path@) is Some,
    ensures
        response@ == utf8::encode_utf8(
            response_text(text::decimal(requested_bytes(path@)->0 as nat)),
        ),
{
    let capacity: usize = match allocation_of(path) {
        Some(bytes) => bytes,
        None => 0,
    };
    let mut block: Vec<u8> = Vec::with_capacity(capacity);
    while block.len() < capacity
        invariant
            block.len() <= capacity,
        decreases capacity - block.len(),
    {
        block.push(0xAA);
    }
    let mut answer = String::new();
    text::push_decimal(&mut answer, block.len() as u64);
    assert(answer@ =~= text::decimal(capacity as nat));
    format_response(answer.as_str())
}

/// A request is cut at its first line ending and behind its first empty line. It is read if its
/// first line has at least three words, which are its method, its path and its version.
pub proof fn law_requests_are_cut_at_their_line_endings(request: Seq<char>, n: int, m: int)
    requires
        0 <= n <= request.len() - 2,
        request.subrange(n, n + 2) == seq!['\r', '\n'],
        forall|i: int| 0 <= i < n ==> #[trigger] request.subrange(i, i + 2) != seq!['\r', '\n'],
        0 <= m <= request.len() - 4,
        request.subrange(m, m + 4) == seq!['\r', '\n', '\r', '\n'],
        forall|i: int|
            0 <= i < m ==> #[trigger] request.subrange(i, i + 4) != seq!['\r', '\n', '\r', '\n'],
    ensures
        ({
            let words = text::words_of(request.take(n));
            &&& has_extra_words(request) <==> words.len() > 3
            &&& parsed(request) is Some <==> words.len() >= 3
            &&& parsed(request) matches Some(parts) ==> {
                &&& parts.method == words[0]
                &&& parts.path == words[1]
                &&& parts.version == words[2]
                &&& parts.body == request.skip(m + 4)
                &&& parts.headers == headers_of(text::lines_of(request.skip(n + 2)))
            }
        }),
{
    reveal_strlit("\r\n\r\n");
    reveal_strlit("\r\n");
    let empty_line = seq!['\r', '\n', '\r', '\n'];
    let ending = seq!['\r', '\n'];
    assert("\r\n\r\n"@ =~= empty_line);
    assert("\r\n"@ =~= ending);
    text::law_texts_are_cut_at_the_first_place(request, empty_line, m);
    text::law_texts_are_cut_at_the_first_place(request, ending, n);
}

/// A request without an empty line is not read.
pub proof fn law_requests_end_their_head(request: Seq<char>)
    requires
        forall|i: int|
            0 <= i <= request.len() - 4 ==> #[trigger] request.subrange(i, i + 4) != seq![
                '\r',
                '\n',
                '\r',
                '\n',
            ],
    ensures
        parsed(request) is None,
        !has_extra_words(request),
{
    reveal_strlit("\r\n\r\n");
    let empty_line = seq!['\r', '\n', '\r', '\n'];
    assert("\r\n\r\n"@ =~= empty_line);
    text::law_cutting_loses_nothing(request, empty_line);
    if let Some((before, behind)) = text::split_once_at(request, empty_line) {
        let i = before.len() as int;
        assert(request.subrange(i, i + 4) =~= empty_line);
    }
}

/// Headers are found line by line.
pub proof fn law_headers_are_found_line_by_line(first: Seq<Seq<char>>, second: Seq<Seq<char>>)
    ensures
        headers_of(first + second) == headers_of(first) + headers_of(second),
    decreases second.len(),
{
    if second.len() == 0 {
        assert(first + second =~= first);
        assert(headers_of(first) + headers_of(second) =~= headers_of(first));
    } else {
        law_headers_are_found_line_by_line(first, second.drop_last());
        assert((first + second).drop_last() =~= first + second.drop_last());
        assert((first + second).last() == second.last());
        assert(headers_of(first + second) =~= headers_of(first) + headers_of(second));
    }
}

/// A line is a header exactly if it holds a colon with a blank behind it. Its key is what stands
/// before the first of them, and its value is what stands behind.
pub proof fn law_headers_are_cut_at_a_colon(key: Seq<char>, value: Seq<char>, line: Seq<char>)
    ensures
        !key.contains(':') ==> headers_of(seq![key + seq![':', ' '] + value]) == seq![(key, value)],
        (forall|i: int|
            0 <= i <= line.len() - 2 ==> #[trigger] line.subrange(i, i + 2) != seq![':', ' '])
            ==> headers_of(seq![line]).len() == 0,
        headers_of(seq![line]).len() <= 1,
        forall|i: int|
            0 <= i <= line.len() - 2 && #[trigger] line.subrange(i, i + 2) == seq![':', ' ']
                ==> headers_of(seq![line]).len() == 1,
        headers_of(seq![line]).len() == 1 ==> {
            let (k, v) = headers_of(seq![line])[0];
            &&& line == k + seq![':', ' '] + v
            &&& forall|i: int|
                0 <= i < k.len() ==> #[trigger] line.subrange(i, i + 2) != seq![':', ' ']
        },
{
    reveal_strlit(": ");
    reveal_with_fuel(headers_of, 2);
    let colon = seq![':', ' '];
    assert(": "@ =~= colon);
    let written = key + colon + value;
    assert(seq![written].drop_last() =~= Seq::empty());
    assert(seq![line].drop_last() =~= Seq::empty());
    if !key.contains(':') {
        text::law_joined_texts_are_cut_apart_at_a_pattern(key, colon, value);
        assert(headers_of(seq![written]) =~= seq![(key, value)]);
    }
    text::law_cutting_loses_nothing(line, colon);
    assert forall|i: int|
        0 <= i <= line.len() - 2 && #[trigger] line.subrange(i, i + 2) == colon implies headers_of(
        seq![line],
    ).len() == 1 by {
        assert(line.subrange(i, i + colon.len() as int) == colon);
    }
    if let Some((before, behind)) = text::split_once_at(line, colon) {
        let i = before.len() as int;
        assert(line.subrange(i, i + 2) =~= colon);
        assert(headers_of(seq![line]) =~= seq![(before, behind)]);
        assert forall|j: int| 0 <= j < before.len() implies #[trigger] line.subrange(j, j + 2)
            != colon by {
            assert(line.subrange(j, j + colon.len() as int) == line.subrange(j, j + 2));
        }
    } else {
        assert(headers_of(seq![line]) =~= Seq::empty());
    }
}

/// Bytes are read as the request that their text is, and only if they are text with at most three
/// words on its first line.
pub proof fn law_bytes_are_read_as_text(bytes: Seq<u8>)
    ensures
        received(bytes) is Some ==> utf8::valid_utf8(bytes) && !has_extra_words(
            utf8::decode_utf8(bytes),
        ) && received(bytes) == parsed(utf8::decode_utf8(bytes)),
        received(bytes) is None ==> !utf8::valid_utf8(bytes) || has_extra_words(
            utf8::decode_utf8(bytes),
        ) || parsed(utf8::decode_utf8(bytes)) is None,
{
}

/// A response has three lines before its body: the status, the content type, and an empty one. The
/// body follows as it is, with a line ending behind it.
pub proof fn law_responses_hold_their_body(body: Seq<char>)
    ensures
        ({
            let response = response_text(body);
            let start = response.len() - 2 - body.len();
            &&& start == 44
            &&& response.subrange(start, start + body.len()) == body
            &&& response.skip(start + body.len()) == seq!['\r', '\n']
            &&& text::lines_of(response.take(start)) == seq![
                "HTTP/1.1 200 OK"@,
                "Content-Type: text/html"@,
                Seq::<char>::empty(),
            ]
        }),
{
    reveal_strlit("HTTP/1.1 200 OK\r\n");
    reveal_strlit("HTTP/1.1 200 OK");
    reveal_strlit("Content-Type: text/html\r\n");
    reveal_strlit("Content-Type: text/html");
    reveal_strlit("\r\n");
    let ending = seq!['\r', '\n'];
    let (first, second) = ("HTTP/1.1 200 OK"@, "Content-Type: text/html"@);
    let none = Seq::<char>::empty();
    let response = response_text(body);
    let start = response.len() - 2 - body.len();
    assert(response.subrange(start, start + body.len()) =~= body);
    assert(response.skip(start + body.len()) =~= ending);
    let rest = second + ending + (none + ending + none);
    assert("HTTP/1.1 200 OK\r\n"@ =~= first + ending);
    assert("Content-Type: text/html\r\n"@ =~= second + ending);
    assert("\r\n"@ =~= ending);
    assert(response.take(start) =~= first + ending + rest);
    assert(!first.contains('\n'));
    assert(!second.contains('\n'));
    text::law_lines_end_at_line_feeds(first, rest);
    text::law_lines_end_at_line_feeds(second, none + ending + none);
    text::law_lines_end_at_line_feeds(none, none);
    text::law_a_text_without_line_feeds_is_one_line(none);
    assert(text::lines_of(response.take(start)) =~= seq![first, second, none]);
}

/// A path starts at the origin and goes on point by point: a line with two numbers adds them, as
/// they are, and a line without a comma and a blank adds nothing.
pub proof fn law_paths_go_on_point_by_point(
    lines: Seq<Seq<char>>,
    x: nat,
    y: nat,
    other: Seq<char>,
)
    requires
        x <= usize::MAX,
        y <= usize::MAX,
        forall|i: int|
            0 <= i <= other.len() - 2 ==> #[trigger] other.subrange(i, i + 2) != seq![',', ' '],
    ensures
        path_of(Seq::empty()) == seq!['M', ' ', '0', ' ', '0', ' ', 'L'],
        ({
            let point = text::decimal(x) + seq![',', ' '] + text::decimal(y);
            &&& is_point(point)
            &&& path_of(lines.push(point)) == path_of(lines) + text::decimal(x) + seq![' ']
                + text::decimal(y)
        }),
        is_point(other),
        path_of(lines.push(other)) == path_of(lines),
{
    reveal_strlit("M 0 0 L");
    reveal_strlit(", ");
    reveal_strlit(" ");
    let comma = seq![',', ' '];
    assert(", "@ =~= comma);
    assert(" "@ =~= seq![' ']);
    assert("M 0 0 L"@ =~= seq!['M', ' ', '0', ' ', '0', ' ', 'L']);
    text::law_numbers_are_written_without_leading_zeros(x);
    assert(!text::decimal(x).contains(','));
    text::law_joined_texts_are_cut_apart_at_a_pattern(text::decimal(x), comma, text::decimal(y));
    text::law_numbers_round_trip(x);
    text::law_numbers_round_trip(y);
    let point = text::decimal(x) + comma + text::decimal(y);
    assert(lines.push(point).drop_last() =~= lines);
    assert(lines.push(other).drop_last() =~= lines);
    text::law_cutting_loses_nothing(other, comma);
    if let Some((before, behind)) = text::split_once_at(other, comma) {
        let i = before.len() as int;
        assert(other.subrange(i, i + 2) =~= comma);
    }
}

/// What stands on the two sides of the first comma with a blank behind it is a point exactly if both
/// are numbers, and then it is the numbers that a path goes through, however they are written.
pub proof fn law_points_are_two_numbers(lines: Seq<Seq<char>>, line: Seq<char>, n: int)
    requires
        0 <= n <= line.len() - 2,
        line.subrange(n, n + 2) == seq![',', ' '],
        forall|i: int| 0 <= i < n ==> #[trigger] line.subrange(i, i + 2) != seq![',', ' '],
    ensures
        ({
            let (x, y) = (text::number_of(line.take(n)), text::number_of(line.skip(n + 2)));
            &&& is_point(line) <==> x is Some && y is Some
            &&& is_point(line) ==> path_of(lines.push(line)) == path_of(lines) + text::decimal(
                x->0 as nat,
            ) + seq![' '] + text::decimal(y->0 as nat)
        }),
{
    reveal_strlit(", ");
    reveal_strlit(" ");
    let comma = seq![',', ' '];
    assert(", "@ =~= comma);
    assert(" "@ =~= seq![' ']);
    text::law_texts_are_cut_at_the_first_place(line, comma, n);
    assert(lines.push(line).drop_last() =~= lines);
}

/// A picture holds its path as it is, between quotation marks, in a frame that does not depend on
/// the path.
pub proof fn law_pictures_hold_their_path(path: Seq<char>)
    ensures
        ({
            let start: int = 79;
            let end = start + path.len() as int;
            &&& svg_text(path).len() == path.len() + 124
            &&& svg_text(path).subrange(start, end) == path
            &&& text::lines_of(svg_text(path).take(start)) == seq![
                "<svg width=\"100\" height=\"100\" xmlns=\"http://www.w3.org/2000/svg\">"@,
                "    <path d=\""@,
            ]
            &&& text::lines_of(svg_text(path).skip(end)) == seq![
                "\" stroke=\"black\" fill=\"transparent\"/>"@,
                "</svg>"@,
            ]
        }),
{
    reveal_strlit(
        "<svg width=\"100\" height=\"100\" xmlns=\"http://www.w3.org/2000/svg\">\n    <path d=\"",
    );
    reveal_strlit("\" stroke=\"black\" fill=\"transparent\"/>\n</svg>\n");
    reveal_strlit("<svg width=\"100\" height=\"100\" xmlns=\"http://www.w3.org/2000/svg\">");
    reveal_strlit("    <path d=\"");
    reveal_strlit("\" stroke=\"black\" fill=\"transparent\"/>");
    reveal_strlit("</svg>");
    let start: int = 79;
    let end = start + path.len() as int;
    let svg = svg_text(path);
    assert(svg.subrange(start, end) =~= path);
    let (a, b) = (
        "<svg width=\"100\" height=\"100\" xmlns=\"http://www.w3.org/2000/svg\">"@,
        "    <path d=\""@,
    );
    let (c, d) = ("\" stroke=\"black\" fill=\"transparent\"/>"@, "</svg>"@);
    let none = Seq::<char>::empty();
    assert(!a.contains('\n') && !b.contains('\n') && !c.contains('\n') && !d.contains('\n'));
    assert(svg.take(start) =~= a + seq!['\n'] + b);
    assert(svg.skip(end) =~= c + seq!['\n'] + (d + seq!['\n'] + none));
    text::law_lines_end_at_line_feeds(a, b);
    text::law_a_text_without_line_feeds_is_one_line(b);
    text::law_lines_end_at_line_feeds(c, d + seq!['\n'] + none);
    text::law_lines_end_at_line_feeds(d, none);
    text::law_a_text_without_line_feeds_is_one_line(none);
    assert(text::lines_of(svg.take(start)) =~= seq![a, b]);
    assert(text::lines_of(svg.skip(end)) =~= seq![c, d]);
}

/// A path asks for so many kilobytes as the number behind its first character says, if that
/// character is one of ASCII and a block can be so large; any other path asks for nothing.
pub proof fn law_paths_ask_for_kilobytes(c: char, number: Seq<char>)
    ensures
        requested_bytes(Seq::empty()) is None,
        c as int >= 128 ==> requested_bytes(seq![c] + number) is None,
        text::number_of(number) is None ==> requested_bytes(seq![c] + number) is None,
        text::number_of(number) matches Some(n) ==> {
            &&& n * 1024 > isize::MAX ==> requested_bytes(seq![c] + number) is None
            &&& (c as int) < 128 && n * 1024 <= isize::MAX ==> requested_bytes(seq![c] + number)
                == Some(n * 1024)
        },
{
    assert((seq![c] + number).skip(1) =~= number);
}

/// The parts of a request are its fields, and its headers are listed in their order.
pub proof fn law_requests_show_their_fields(request: Request, i: int)
    ensures
        request@.method == request.method@,
        request@.path == request.path@,
        request@.version == request.version@,
        request@.body == request.body@,
        request@.headers.len() == request.headers@.len(),
        0 <= i < request.headers@.len() ==> request@.headers[i] == (
            request.headers@[i].key@,
            request.headers@[i].value@,
        ),
{
}

/// A text gives a path exactly if every line of it does: the first line, and the rest.
pub proof fn law_paths_are_given_line_by_line(line: Seq<char>, rest: Seq<char>)
    requires
        !line.contains('\n'),
        line.len() > 0 ==> line[line.len() - 1] != '\r',
    ensures
        gives_path(line + seq!['\n'] + rest) <==> is_point(line) && gives_path(rest),
        gives_path(line) <==> line.len() == 0 || is_point(line),
{
    let whole = line + seq!['\n'] + rest;
    text::law_lines_end_at_line_feeds(line, rest);
    text::law_a_text_without_line_feeds_is_one_line(line);
    let lines = text::lines_of(whole);
    let others = text::lines_of(rest);
    assert(lines.len() == others.len() + 1);
    assert(lines[0] == line);
    assert forall|i: int| 0 <= i < others.len() implies lines[i + 1] == #[trigger] others[i] by {}
    if is_point(line) && gives_path(rest) {
        assert forall|i: int| 0 <= i < lines.len() implies is_point(#[trigger] lines[i]) by {
            if i > 0 {
                assert(lines[i] == others[i - 1]);
            }
        }
    }
    if gives_path(whole) {
        assert(is_point(lines[0]));
        assert forall|i: int| 0 <= i < others.len() implies is_point(#[trigger] others[i]) by {
            assert(is_point(lines[i + 1]));
        }
    }
    if line.len() > 0 {
        let single = text::lines_of(line);
        assert(single[0] == line);
    }
}

} // verus!
