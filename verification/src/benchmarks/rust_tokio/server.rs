//! The steps of a server that reads a request, hands it to a handler and writes the response.
use crate::benchmarks::rust_tokio::error::Error;
use crate::benchmarks::rust_tokio::request;
use crate::benchmarks::rust_tokio::request::RequestBuf;
use crate::benchmarks::rust_tokio::response::Response;
use crate::text;
use vstd::prelude::*;
use vstd::string::StringExecFns;
use vstd::utf8;

verus! {

/// The port that the server listens on.
pub const PORT: u16 = 8000;

/// How many bytes of a request are looked at.
pub const BUFFER_SIZE: usize = 1024;

/// What came of an attempt to read or write.
#[derive(Debug)]
pub enum Transfer {
    /// So many bytes were moved.
    Moved(usize),
    WouldBlock,
    Failed(std::io::Error),
}

/// What to do after an attempt to read or write.
#[derive(Debug)]
pub enum NextTransfer {
    /// Wait until the stream is ready, and try again.
    Again,
    Finished,
    Failed(Error),
}

/// How far the reading of a request has come.
#[derive(Debug)]
pub struct RequestReader {
    bytes_read: usize,
}

impl View for RequestReader {
    type V = nat;

    closed spec fn view(&self) -> nat {
        self.bytes_read as nat
    }
}

impl RequestReader {
    pub open spec fn wf(&self) -> bool {
        self@ <= BUFFER_SIZE
    }

    pub fn new() -> (reader: Self)
        ensures
            reader.wf(),
            reader@ == 0,
    {
        RequestReader { bytes_read: 0 }
    }

    /// Where in the buffer the next bytes go.
    pub fn position(&self) -> (position: usize)
        ensures
            position == self@,
    {
        self.bytes_read
    }

    /// Takes note of an attempt to read. The request ends where the stream ends, where the buffer
    /// is full, and where nothing more is there for now.
    pub fn step(&mut self, event: Transfer) -> (next: NextTransfer)
        requires
            old(self).wf(),
            event matches Transfer::Moved(n) ==> old(self)@ + n <= BUFFER_SIZE,
        ensures
            final(self).wf(),
            match event {
                Transfer::Moved(n) => final(self)@ == old(self)@ + n && (if n == 0 {
                    next is Finished
                } else {
                    next is Again
                }),
                Transfer::WouldBlock => final(self)@ == old(self)@ && next is Finished,
                Transfer::Failed(error) => final(self)@ == old(self)@ && next
                    == NextTransfer::Failed(Error::Io(error)),
            },
    {
        match event {
            Transfer::Moved(n) => {
                if n == 0 {
                    NextTransfer::Finished
                } else {
                    self.bytes_read = self.bytes_read + n;
                    NextTransfer::Again
                }
            },
            Transfer::WouldBlock => NextTransfer::Finished,
            Transfer::Failed(error) => NextTransfer::Failed(Error::from(error)),
        }
    }
}

/// The request in a buffer. All of the buffer counts, also what no byte was read into.
pub fn buffered_request(buf: &[u8]) -> (request: Result<RequestBuf, Error>)
    ensures
        request is Ok <==> utf8::valid_utf8(buf@),
        match request {
            Ok(request) => request@ == utf8::decode_utf8(buf@),
            Err(error) => error is Utf8,
        },
{
    match core::str::from_utf8(buf) {
        Ok(content) => Ok(RequestBuf::new(content.to_owned())),
        Err(error) => Err(Error::from(error)),
    }
}

/// How far the writing of a response has come. Each attempt offers the whole response.
#[derive(Debug)]
pub struct ResponseWriter {
    bytes_written: usize,
}

impl View for ResponseWriter {
    type V = nat;

    closed spec fn view(&self) -> nat {
        self.bytes_written as nat
    }
}

impl ResponseWriter {
    pub fn new() -> (writer: Self)
        ensures
            writer@ == 0,
    {
        ResponseWriter { bytes_written: 0 }
    }

    /// How many bytes the attempts have moved so far.
    pub fn written(&self) -> (written: usize)
        ensures
            written == self@,
    {
        self.bytes_written
    }

    /// Takes note of an attempt to write a response of the given length. The response is written
    /// when the bytes of all attempts add up to its length.
    pub fn step(&mut self, length: usize, event: Transfer) -> (next: NextTransfer)
        requires
            event matches Transfer::Moved(n) ==> old(self)@ + n <= usize::MAX,
        ensures
            match event {
                Transfer::Moved(n) => final(self)@ == old(self)@ + n && (if final(self)@ == length {
                    next is Finished
                } else {
                    next is Again
                }),
                Transfer::WouldBlock => final(self)@ == old(self)@ && next is Again,
                Transfer::Failed(error) => final(self)@ == old(self)@ && next
                    == NextTransfer::Failed(Error::Io(error)),
            },
    {
        match event {
            Transfer::Moved(n) => {
                self.bytes_written = self.bytes_written + n;
                if self.bytes_written == length {
                    NextTransfer::Finished
                } else {
                    NextTransfer::Again
                }
            },
            Transfer::WouldBlock => NextTransfer::Again,
            Transfer::Failed(error) => NextTransfer::Failed(Error::from(error)),
        }
    }
}

/// How many bytes a request asks to have set aside: behind the first slash of its path stands a
/// number of kilobytes.
pub open spec fn requested_capacity(content: Seq<char>) -> Option<int> {
    match request::parsed(content) {
        Err(_) => None,
        Ok(request) => match text::split_once_at(request.path, "/"@) {
            None => None,
            Some((_, number)) => match text::number_of(number) {
                None => None,
                Some(kilobytes) => if kilobytes * 1024 <= isize::MAX {
                    Some(kilobytes * 1024)
                } else {
                    None
                },
            },
        },
    }
}

/// How many bytes a request asks to have set aside.
pub fn capacity_of(request: &RequestBuf) -> (capacity: Option<usize>)
    ensures
        match capacity {
            None => requested_capacity(request@) is None,
            Some(capacity) => requested_capacity(request@) == Some(capacity as int),
        },
{
    match request.as_request() {
        Err(_) => None,
        Ok(request) => match text::split_once(request.path, "/") {
            None => None,
            Some((_, number)) => match text::parse_number(number) {
                None => None,
                Some(kilobytes) => if kilobytes <= (isize::MAX as usize) / 1024 {
                    Some(kilobytes * 1024)
                } else {
                    None
                },
            },
        },
    }
}

/// Sets aside as many kilobytes as the path asks for, and answers with how many of the bytes are
/// in use.
pub fn favorable(request: RequestBuf) -> (response: Response)
    requires
        requested_capacity(request@) is Some,
    ensures
        response.body@ == "0"@,
        response.content_type@ == "text/plain"@,
        response.status@ == 200,
{
    let capacity: usize = match capacity_of(&request) {
        Some(capacity) => capacity,
        None => 0,
    };
    let block: Vec<u8> = Vec::with_capacity(capacity);
    let mut body = String::new();
    text::push_decimal(&mut body, block.len() as u64);
    proof {
        reveal_strlit("0");
        assert(body@ =~= "0"@);
    }
    Response::from(body)
}

/// The point that a line gives: two numbers of 32 bits, parted by a comma and a space.
pub open spec fn point_of(line: Seq<char>) -> Option<(nat, nat)> {
    match text::split_once_at(line, ", "@) {
        None => None,
        Some((x, y)) => match (text::number_of(x), text::number_of(y)) {
            (Some(x), Some(y)) => if x <= u32::MAX && y <= u32::MAX {
                Some((x as nat, y as nat))
            } else {
                None
            },
            _ => None,
        },
    }
}

/// The lines of the body of a request.
pub open spec fn body_lines(content: Seq<char>) -> Seq<Seq<char>> {
    match request::parsed(content) {
        Err(_) => Seq::empty(),
        Ok(request) => text::lines_of(request.body),
    }
}

/// Whether every line of the body of a request gives a point.
pub open spec fn has_points(content: Seq<char>) -> bool {
    &&& request::parsed(content) is Ok
    &&& forall|i: int|
        0 <= i < body_lines(content).len() ==> point_of(#[trigger] body_lines(content)[i]) is Some
}

/// The path through the points that the lines give.
pub open spec fn path_of(lines: Seq<Seq<char>>) -> Seq<char>
    decreases lines.len(),
{
    if lines.len() == 0 {
        "M 0 0 L"@
    } else {
        let (x, y) = point_of(lines.last())->0;
        path_of(lines.drop_last()) + text::decimal(x) + " "@ + text::decimal(y) + " "@
    }
}

/// A picture of a path.
pub open spec fn svg_text(path: Seq<char>) -> Seq<char> {
    "<svg width=\"100\" height=\"100\" xmlns=\"http://www.w3.org/2000/svg\">\n    <path d=\""@ + path
        + "\" stroke=\"black\" fill=\"transparent\"/>\n</svg>"@
}

/// The point that a line gives.
fn parse_point(line: &str) -> (point: Option<(u32, u32)>)
    ensures
        match point {
            None => point_of(line@) is None,
            Some((x, y)) => point_of(line@) == Some((x as nat, y as nat)),
        },
{
    match text::split_once(line, ", ") {
        None => None,
        Some((x, y)) => match (text::parse_number(x), text::parse_number(y)) {
            (Some(x), Some(y)) => if x as u64 <= u32::MAX as u64 && y as u64 <= u32::MAX as u64 {
                Some((x as u32, y as u32))
            } else {
                None
            },
            _ => None,
        },
    }
}

/// Whether every line of the body of a request gives a point.
pub fn gives_points(request: &RequestBuf) -> (result: bool)
    ensures
        result == has_points(request@),
{
    match request.as_request() {
        Err(_) => false,
        Ok(parsed) => {
            let lines = text::lines(parsed.body);
            let ghost texts = text::views(lines@);
            let mut i: usize = 0;
            while i < lines.len()
                invariant
                    i <= lines@.len(),
                    texts == text::views(lines@),
                    texts == body_lines(request@),
                    request::parsed(request@) is Ok,
                    forall|j: int| 0 <= j < i ==> point_of(#[trigger] texts[j]) is Some,
                decreases lines.len() - i,
            {
                assert(texts[i as int] == lines@[i as int]@);
                if parse_point(lines[i]).is_none() {
                    return false;
                }
                i = i + 1;
            }
            true
        },
    }
}

/// The path through the points that the lines of a text give.
fn path(body: &str) -> (path: String)
    requires
        forall|i: int|
            0 <= i < text::lines_of(body@).len() ==> point_of(#[trigger] text::lines_of(body@)[i])
                is Some,
    ensures
        path@ == path_of(text::lines_of(body@)),
{
    let lines = text::lines(body);
    let ghost texts = text::views(lines@);
    let mut path = String::new();
    path.append("M 0 0 L");
    let mut i: usize = 0;
    assert(path@ =~= path_of(texts.take(0)));
    while i < lines.len()
        invariant
            i <= lines@.len(),
            texts == text::views(lines@),
            forall|j: int| 0 <= j < texts.len() ==> point_of(#[trigger] texts[j]) is Some,
            path@ == path_of(texts.take(i as int)),
        decreases lines.len() - i,
    {
        proof {
            assert(texts.take(i + 1).drop_last() =~= texts.take(i as int));
            assert(texts.take(i + 1).last() == lines@[i as int]@);
            assert(point_of(texts[i as int]) is Some);
        }
        if let Some((x, y)) = parse_point(lines[i]) {
            text::push_decimal(&mut path, x as u64);
            path.append(" ");
            text::push_decimal(&mut path, y as u64);
            path.append(" ");
        }
        i = i + 1;
    }
    assert(texts.take(i as int) =~= texts);
    path
}

/// Answers with a picture of the path whose points the lines of the body give.
pub fn average(request: RequestBuf) -> (response: Response)
    requires
        has_points(request@),
    ensures
        response.body@ == svg_text(path_of(body_lines(request@))),
        response.content_type@ == "text/plain"@,
        response.status@ == 200,
{
    let mut svg = String::new();
    svg.append(
        "<svg width=\"100\" height=\"100\" xmlns=\"http://www.w3.org/2000/svg\">\n    <path d=\"",
    );
    if let Ok(parsed) = request.as_request() {
        svg.append(path(parsed.body).as_str());
    }
    svg.append("\" stroke=\"black\" fill=\"transparent\"/>\n</svg>");
    assert(svg@ =~= svg_text(path_of(body_lines(request@))));
    Response::from(svg)
}

/// Answers every request with the same text.
pub fn unfavorable(request: RequestBuf, content: &str) -> (response: Response)
    requires
        request::parsed(request@) is Ok,
    ensures
        response.body@ == content@,
        response.content_type@ == "text/plain"@,
        response.status@ == 200,
{
    Response::from(content)
}

/// A request asks for so many kilobytes as the number behind the first slash of its path says, if a
/// block can be so large. It asks for nothing if it cannot be read, or if there is no such number.
pub proof fn law_paths_ask_for_kilobytes(content: Seq<char>, before: Seq<char>, number: Seq<char>)
    requires
        !before.contains('/'),
    ensures
        request::parsed(content) is Err ==> requested_capacity(content) is None,
        request::parsed(content) matches Ok(parts) ==> {
            &&& !parts.path.contains('/') ==> requested_capacity(content) is None
            &&& parts.path == before + seq!['/'] + number ==> match text::number_of(number) {
                None => requested_capacity(content) is None,
                Some(n) => {
                    &&& n * 1024 <= isize::MAX ==> requested_capacity(content) == Some(n * 1024)
                    &&& n * 1024 > isize::MAX ==> requested_capacity(content) is None
                },
            }
        },
{
    reveal_strlit("/");
    assert("/"@ =~= seq!['/']);
    text::law_joined_texts_are_cut_apart(before, '/', number);
    if let Ok(parts) = request::parsed(content) {
        text::law_cutting_loses_nothing(parts.path, seq!['/']);
        if let Some((a, b)) = text::split_once_at(parts.path, seq!['/']) {
            assert(parts.path[a.len() as int] == '/');
        }
    }
}

/// A line gives a point exactly if what stands on the two sides of its first comma with a blank
/// behind it is two numbers of 32 bits, and the point is these numbers.
pub proof fn law_points_are_two_numbers(line: Seq<char>, n: int)
    requires
        0 <= n <= line.len() - 2,
        line.subrange(n, n + 2) == seq![',', ' '],
        forall|i: int| 0 <= i < n ==> #[trigger] line.subrange(i, i + 2) != seq![',', ' '],
    ensures
        ({
            let (x, y) = (text::number_of(line.take(n)), text::number_of(line.skip(n + 2)));
            &&& point_of(line) is Some <==> {
                &&& x matches Some(a) && a < 0x1_0000_0000
                &&& y matches Some(b) && b < 0x1_0000_0000
            }
            &&& point_of(line) matches Some((a, b)) ==> x == Some(a as int) && y == Some(b as int)
        }),
{
    reveal_strlit(", ");
    let comma = seq![',', ' '];
    assert(", "@ =~= comma);
    text::law_numbers_fit(line.take(n));
    text::law_numbers_fit(line.skip(n + 2));
    text::law_texts_are_cut_at_the_first_place(line, comma, n);
}

/// A line without a comma that has a blank behind it gives no point.
pub proof fn law_points_need_a_comma(line: Seq<char>)
    requires
        forall|i: int|
            0 <= i <= line.len() - 2 ==> #[trigger] line.subrange(i, i + 2) != seq![',', ' '],
    ensures
        point_of(line) is None,
{
    reveal_strlit(", ");
    let comma = seq![',', ' '];
    assert(", "@ =~= comma);
    text::law_cutting_loses_nothing(line, comma);
    if let Some((before, behind)) = text::split_once_at(line, comma) {
        let i = before.len() as int;
        assert(line.subrange(i, i + 2) =~= comma);
    }
}

/// A path starts at the origin and goes on point by point: every line adds its two numbers, each
/// with a blank behind it.
pub proof fn law_paths_go_on_point_by_point(lines: Seq<Seq<char>>, x: nat, y: nat)
    requires
        x < 0x1_0000_0000,
        y < 0x1_0000_0000,
    ensures
        path_of(Seq::empty()) == seq!['M', ' ', '0', ' ', '0', ' ', 'L'],
        ({
            let line = text::decimal(x) + seq![',', ' '] + text::decimal(y);
            &&& point_of(line) == Some((x, y))
            &&& path_of(lines.push(line)) == path_of(lines) + text::decimal(x) + seq![' ']
                + text::decimal(y) + seq![' ']
        }),
        forall|line: Seq<char>| #[trigger]
            point_of(line) == Some((x, y)) ==> path_of(lines.push(line)) == path_of(lines)
                + text::decimal(x) + seq![' '] + text::decimal(y) + seq![' '],
{
    reveal_strlit("M 0 0 L");
    reveal_strlit(" ");
    reveal_strlit(", ");
    let comma = seq![',', ' '];
    assert(", "@ =~= comma);
    assert(" "@ =~= seq![' ']);
    assert("M 0 0 L"@ =~= seq!['M', ' ', '0', ' ', '0', ' ', 'L']);
    text::law_numbers_are_written_without_leading_zeros(x);
    assert(!text::decimal(x).contains(','));
    text::law_numbers_round_trip(x);
    text::law_numbers_round_trip(y);
    let line = text::decimal(x) + seq![',', ' '] + text::decimal(y);
    text::law_joined_texts_are_cut_apart_at_a_pattern(text::decimal(x), comma, text::decimal(y));
    assert forall|line: Seq<char>| #[trigger] point_of(line) == Some((x, y)) implies path_of(
        lines.push(line),
    ) == path_of(lines) + text::decimal(x) + seq![' '] + text::decimal(y) + seq![' '] by {
        assert(lines.push(line).drop_last() =~= lines);
    }
}

/// The points of a request are those of the lines of its body, all of them.
pub proof fn law_points_stand_in_the_body(content: Seq<char>)
    ensures
        request::parsed(content) is Err ==> !has_points(content),
        request::parsed(content) matches Ok(parts) ==> {
            &&& body_lines(content) == text::lines_of(parts.body)
            &&& has_points(content) <==> forall|i: int|
                0 <= i < text::lines_of(parts.body).len() ==> point_of(
                    #[trigger] text::lines_of(parts.body)[i],
                ) is Some
        },
{
}

/// A picture holds its path as it is, between quotation marks, in a frame that does not depend on
/// the path.
pub proof fn law_pictures_hold_their_path(path: Seq<char>)
    ensures
        ({
            let start: int = 79;
            let end = start + path.len() as int;
            &&& svg_text(path).len() == path.len() + 123
            &&& svg_text(path).subrange(start, end) == path
            &&& text::lines_of(svg_text(path).take(start)) == seq![
                "<svg width=\"100\" height=\"100\" xmlns=\"http://www.w3.org/2000/svg\">"@,
                "    <path d=\""@,
            ]
            &&& text::lines_of(svg_text(path).skip(end)) == seq![
                "\" stroke=\"black\" fill=\"transparent\"/>"@,
                "</svg>"@,
            ]
        }),
{
    reveal_strlit(
        "<svg width=\"100\" height=\"100\" xmlns=\"http://www.w3.org/2000/svg\">\n    <path d=\"",
    );
    reveal_strlit("\" stroke=\"black\" fill=\"transparent\"/>\n</svg>");
    reveal_strlit("<svg width=\"100\" height=\"100\" xmlns=\"http://www.w3.org/2000/svg\">");
    reveal_strlit("    <path d=\"");
    reveal_strlit("\" stroke=\"black\" fill=\"transparent\"/>");
    reveal_strlit("</svg>");
    let start: int = 79;
    let end = start + path.len() as int;
    let svg = svg_text(path);
    assert(svg.subrange(start, end) =~= path);
    let (a, b) = (
        "<svg width=\"100\" height=\"100\" xmlns=\"http://www.w3.org/2000/svg\">"@,
        "    <path d=\""@,
    );
    let (c, d) = ("\" stroke=\"black\" fill=\"transparent\"/>"@, "</svg>"@);
    assert(!a.contains('\n') && !b.contains('\n') && !c.contains('\n') && !d.contains('\n'));
    assert(svg.take(start) =~= a + seq!['\n'] + b);
    assert(svg.skip(end) =~= c + seq!['\n'] + d);
    text::law_lines_end_at_line_feeds(a, b);
    text::law_a_text_without_line_feeds_is_one_line(b);
    text::law_lines_end_at_line_feeds(c, d);
    text::law_a_text_without_line_feeds_is_one_line(d);
    assert(text::lines_of(svg.take(start)) =~= seq![a, b]);
    assert(text::lines_of(svg.skip(end)) =~= seq![c, d]);
}

} // verus!
