//! Request handlers: one that is a state machine, and the page that they answer with.
use crate::text;
use vstd::prelude::*;
use vstd::string::StrSliceExecFns;
use vstd::string::StringExecFns;
use vstd::utf8;

verus! {

/// The size of the buffers that requests are read into and pages are written to.
pub const BUFFER_SIZE: usize = 1024;

/// What the application asks for.
#[derive(Debug)]
pub enum Cmd {
    Read,
    Write(Vec<u8>),
    Done,
}

/// What the application is told.
#[derive(Debug)]
pub enum Msg {
    Nothing,
    Read(Vec<u8>),
}

/// How far the application has come.
#[derive(Debug, Clone, Copy, PartialEq, Eq, Structural)]
pub enum Model {
    Initial,
    Writing,
}

/// A response with a page that shows a text.
pub open spec fn page_text(input: Seq<char>) -> Seq<char> {
    "HTTP/1.1 200 OK\r\n"@ + "Content-Type: text/html\r\n"@ + "\r\n"@ + "<html>"@ + input
        + "</html>"@
}

/// The first bytes of a sequence, as many as fit into a buffer.
pub open spec fn clipped(bytes: Seq<u8>) -> Seq<u8> {
    if bytes.len() <= BUFFER_SIZE {
        bytes
    } else {
        bytes.take(BUFFER_SIZE as int)
    }
}

/// Writes a page into a buffer. What does not fit is cut off.
pub fn page(input: &str) -> (bytes: Vec<u8>)
    ensures
        bytes@ == clipped(utf8::encode_utf8(page_text(input@))),
{
    let mut response = String::new();
    response.append("HTTP/1.1 200 OK\r\n");
    response.append("Content-Type: text/html\r\n");
    response.append("\r\n");
    response.append("<html>");
    response.append(input);
    response.append("</html>");
    assert(response@ =~= page_text(input@));
    let mut bytes = response.as_str().as_bytes_vec();
    if bytes.len() > BUFFER_SIZE {
        bytes.truncate(BUFFER_SIZE);
    }
    assert(bytes@ =~= clipped(utf8::encode_utf8(page_text(input@))));
    bytes
}

/// The page for a request: it shows the request, which must be text.
pub fn answer(request: &[u8]) -> (bytes: Option<Vec<u8>>)
    ensures
        bytes is Some <==> utf8::valid_utf8(request@),
        bytes matches Some(bytes) ==> bytes@ == clipped(
            utf8::encode_utf8(page_text(utf8::decode_utf8(request@))),
        ),
{
    match core::str::from_utf8(request) {
        Ok(input) => Some(page(input)),
        Err(_) => None,
    }
}

/// The application: it reads once, answers with a page, and is done.
pub fn roc_handler(model: Model, msg: Msg) -> (result: (Model, Cmd))
    ensures
        match (model, msg) {
            (Model::Initial, Msg::Nothing) => result.0 == Model::Initial && result.1 is Read,
            (Model::Initial, Msg::Read(_)) => {
                &&& result.0 == Model::Writing
                &&& result.1 matches Cmd::Write(buf) && buf@ == clipped(
                    utf8::encode_utf8(page_text("foobar"@)),
                )
            },
            (Model::Writing, _) => result.0 == Model::Writing && result.1 is Done,
        },
{
    match (model, msg) {
        // let's read something
        (Model::Initial, Msg::Nothing) => (Model::Initial, Cmd::Read),
        (Model::Initial, Msg::Read(_)) => (Model::Writing, Cmd::Write(page("foobar"))),
        (Model::Writing, _) => (Model::Writing, Cmd::Done),
    }
}

/// What has happened to a connection.
#[derive(Debug)]
pub enum HandlerEvent {
    Begin,
    /// These bytes were read.
    Read(Vec<u8>),
    /// So many bytes were written.
    Written(usize),
}

/// What to do with a connection.
#[derive(Debug, Clone, Copy, PartialEq, Eq, Structural)]
pub enum HandlerAction {
    /// Read into a buffer.
    Read,
    /// Write the response, all of it.
    Write,
    Done,
}

/// A connection that the application handles.
#[derive(Debug)]
pub struct Handler {
    model: Model,
    response: Vec<u8>,
    remaining: usize,
}

/// The state of a connection.
pub struct HandlerView {
    pub model: Model,
    pub response: Seq<u8>,
    /// How many bytes are still to be written.
    pub remaining: int,
}

impl View for Handler {
    type V = HandlerView;

    closed spec fn view(&self) -> HandlerView {
        HandlerView {
            model: self.model,
            response: self.response@,
            remaining: self.remaining as int,
        }
    }
}

impl HandlerView {
    /// The application has answered.
    pub open spec fn answered(self) -> Self {
        let response = clipped(utf8::encode_utf8(page_text("foobar"@)));
        HandlerView { model: Model::Writing, response, remaining: response.len() as int }
    }

    /// Whether an event can happen in this state: no more is written than remains.
    pub open spec fn can_happen(self, event: HandlerEvent) -> bool {
        match event {
            HandlerEvent::Begin => true,
            HandlerEvent::Read(_) => true,
            HandlerEvent::Written(n) => n <= self.remaining,
        }
    }
}

impl Handler {
    pub fn new() -> (handler: Self)
        ensures
            handler@ == (HandlerView {
                model: Model::Initial,
                response: Seq::empty(),
                remaining: 0,
            }),
    {
        Handler { model: Model::Initial, response: Vec::new(), remaining: 0 }
    }

    /// The bytes to write.
    pub fn response(&self) -> (response: &Vec<u8>)
        ensures
            response@ == self@.response,
    {
        &self.response
    }

    /// How many bytes are still to be written.
    pub fn remaining(&self) -> (remaining: usize)
        ensures
            remaining == self@.remaining,
    {
        self.remaining
    }

    /// Asks the application, and prepares what it wants.
    fn ask(&mut self, msg: Msg) -> (action: HandlerAction)
        ensures
            match (old(self)@.model, msg) {
                (Model::Initial, Msg::Nothing) => action == HandlerAction::Read && final(self)@
                    == old(self)@,
                (Model::Initial, Msg::Read(_)) => action == HandlerAction::Write && final(self)@
                    == old(self)@.answered(),
                (Model::Writing, _) => action == HandlerAction::Done && final(self)@
                    == old(self)@,
            },
    {
        let (model, cmd) = roc_handler(self.model, msg);
        self.model = model;
        match cmd {
            Cmd::Read => HandlerAction::Read,
            Cmd::Write(buf) => {
                self.remaining = buf.len();
                self.response = buf;
                HandlerAction::Write
            },
            Cmd::Done => HandlerAction::Done,
        }
    }

    /// One step: the application is asked when something was read and when all was written. As
    /// long as bytes remain, the response is written again.
    pub fn step(&mut self, event: HandlerEvent) -> (action: HandlerAction)
        requires
            old(self)@.can_happen(event),
        ensures
            match event {
                HandlerEvent::Begin => match old(self)@.model {
                    Model::Initial => action == HandlerAction::Read && final(self)@ == old(self)@,
                    Model::Writing => action == HandlerAction::Done && final(self)@ == old(self)@,
                },
                HandlerEvent::Read(_) => match old(self)@.model {
                    Model::Initial => action == HandlerAction::Write && final(self)@
                        == old(self)@.answered(),
                    Model::Writing => action == HandlerAction::Done && final(self)@ == old(self)@,
                },
                HandlerEvent::Written(n) => {
                    &&& final(self)@ == (HandlerView {
                        remaining: old(self)@.remaining - n,
                        ..old(self)@
                    })
                    &&& action == if old(self)@.remaining > n {
                        HandlerAction::Write
                    } else if old(self)@.model == Model::Initial {
                        HandlerAction::Read
                    } else {
                        HandlerAction::Done
                    }
                },
            },
    {
        match event {
            HandlerEvent::Begin => self.ask(Msg::Nothing),
            HandlerEvent::Read(buf) => self.ask(Msg::Read(buf)),
            HandlerEvent::Written(n) => {
                self.remaining = self.remaining - n;
                if self.remaining > 0 {
                    HandlerAction::Write
                } else {
                    self.ask(Msg::Nothing)
                }
            },
        }
    }
}

/// A page has three lines before its text: the status, the content type, and an empty one. The text
/// stands behind them as it is, between two tags.
pub proof fn law_pages_show_their_text(input: Seq<char>)
    ensures
        ({
            let page = page_text(input);
            let end = page.len() - 7;
            let start = end - input.len();
            &&& page.len() == input.len() + 57
            &&& page.subrange(start, end) == input
            &&& page.subrange(start - 6, start) == "<html>"@
            &&& page.skip(end) == "</html>"@
            &&& text::lines_of(page.take(start - 6)) == seq![
                "HTTP/1.1 200 OK"@,
                "Content-Type: text/html"@,
                Seq::<char>::empty(),
            ]
        }),
{
    reveal_strlit("HTTP/1.1 200 OK\r\n");
    reveal_strlit("HTTP/1.1 200 OK");
    reveal_strlit("Content-Type: text/html\r\n");
    reveal_strlit("Content-Type: text/html");
    reveal_strlit("\r\n");
    reveal_strlit("<html>");
    reveal_strlit("</html>");
    let ending = seq!['\r', '\n'];
    let (first, second) = ("HTTP/1.1 200 OK"@, "Content-Type: text/html"@);
    let none = Seq::<char>::empty();
    let page = page_text(input);
    let end = page.len() - 7;
    let start = end - input.len();
    assert(page.subrange(start, end) =~= input);
    assert(page.subrange(start - 6, start) =~= "<html>"@);
    assert(page.skip(end) =~= "</html>"@);
    let rest = second + ending + (none + ending + none);
    assert(page.take(start - 6) =~= first + ending + rest);
    assert(!first.contains('\n'));
    assert(!second.contains('\n'));
    text::law_lines_end_at_line_feeds(first, rest);
    text::law_lines_end_at_line_feeds(second, none + ending + none);
    text::law_lines_end_at_line_feeds(none, none);
    text::law_a_text_without_line_feeds_is_one_line(none);
    assert(text::lines_of(page.take(start - 6)) =~= seq![first, second, none]);
}

/// Bytes are cut off only where the buffer ends: what is kept is the beginning, as much of it as
/// fits.
pub proof fn law_buffers_keep_the_beginning(bytes: Seq<u8>)
    ensures
        clipped(bytes).len() <= 1024,
        clipped(bytes).len() == 1024 || clipped(bytes).len() == bytes.len(),
        clipped(bytes).len() <= bytes.len(),
        forall|i: int| 0 <= i < clipped(bytes).len() ==> #[trigger] clipped(bytes)[i] == bytes[i],
{
}

/// What the application answers is a page that fits into a buffer, and all of it is still to be
/// written.
pub proof fn law_answers_are_written_whole(handler: HandlerView)
    ensures
        handler.answered().model is Writing,
        handler.answered().remaining == handler.answered().response.len(),
        handler.answered().response.len() <= 1024,
        ({
            let page = utf8::encode_utf8(page_text(seq!['f', 'o', 'o', 'b', 'a', 'r']));
            forall|i: int|
                0 <= i < handler.answered().response.len() ==> i < page.len()
                    && #[trigger] handler.answered().response[i] == page[i]
        }),
        forall|n: usize| #[trigger]
            handler.can_happen(HandlerEvent::Written(n)) <==> n <= handler.remaining,
{
    reveal_strlit("foobar");
    assert("foobar"@ =~= seq!['f', 'o', 'o', 'b', 'a', 'r']);
    law_buffers_keep_the_beginning(utf8::encode_utf8(page_text("foobar"@)));
}

} // verus!
