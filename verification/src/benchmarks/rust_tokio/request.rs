//! Requests that have to follow the rules of their format.
use crate::text;
use vstd::prelude::*;

verus! {

/// A request that was received.
#[derive(Debug)]
pub struct RequestBuf {
    content: String,
}

impl View for RequestBuf {
    type V = Seq<char>;

    closed spec fn view(&self) -> Seq<char> {
        self.content@
    }
}

impl RequestBuf {
    pub fn new(content: String) -> (buf: Self)
        ensures
            buf@ == content@,
    {
        RequestBuf { content }
    }

    pub fn as_request(&self) -> (request: Result<Request<'_>, ParseRequestError>)
        ensures
            match request {
                Ok(request) => request.wf() && parsed(self@) == Ok::<RequestView, ParseRequestError>(
                    request@,
                ),
                Err(error) => parsed(self@) == Err::<RequestView, ParseRequestError>(error),
            },
    {
        Request::from_str(self.content.as_str())
    }
}

/// Why a text is no request.
#[derive(Debug, Clone, Copy, PartialEq, Eq, Structural)]
pub enum ParseRequestError {
    UnexpectedEof,
    Syntax,
}

impl ParseRequestError {
    /// The error in words.
    pub open spec fn text(self) -> Seq<char> {
        match self {
            ParseRequestError::UnexpectedEof => "unexpected end of file when parsing request"@,
            ParseRequestError::Syntax => "invalid request syntax"@,
        }
    }

    pub fn to_string(&self) -> (text: &'static str)
        ensures
            text@ == self.text(),
    {
        match self {
            ParseRequestError::UnexpectedEof => "unexpected end of file when parsing request",
            ParseRequestError::Syntax => "invalid request syntax",
        }
    }
}

/// Whether one text comes before another in a dictionary.
pub open spec fn comes_before(a: Seq<char>, b: Seq<char>) -> bool
    decreases a.len(),
{
    if b.len() == 0 {
        false
    } else if a.len() == 0 {
        true
    } else if a[0] != b[0] {
        a[0] < b[0]
    } else {
        comes_before(a.skip(1), b.skip(1))
    }
}

proof fn lemma_order_is_total(a: Seq<char>, b: Seq<char>)
    ensures
        comes_before(a, b) || a == b || comes_before(b, a),
        !(comes_before(a, b) && comes_before(b, a)),
        a == b ==> !comes_before(a, b),
    decreases a.len(),
{
    if a.len() > 0 && b.len() > 0 && a[0] == b[0] {
        lemma_order_is_total(a.skip(1), b.skip(1));
        if a.skip(1) == b.skip(1) {
            assert(a =~= seq![a[0]] + a.skip(1));
            assert(b =~= seq![b[0]] + b.skip(1));
        }
    } else if a.len() == 0 && b.len() == 0 {
        assert(a =~= b);
    }
}

proof fn lemma_order_is_transitive(a: Seq<char>, b: Seq<char>, c: Seq<char>)
    requires
        comes_before(a, b),
        comes_before(b, c),
    ensures
        comes_before(a, c),
    decreases a.len(),
{
    if a.len() > 0 && a[0] == b[0] && b[0] == c[0] {
        lemma_order_is_transitive(a.skip(1), b.skip(1), c.skip(1));
    }
}

/// How two texts are ordered.
#[derive(Debug, Clone, Copy, PartialEq, Eq, Structural)]
enum Order {
    Before,
    Same,
    Behind,
}

fn order(a: &str, b: &str) -> (order: Order)
    ensures
        order is Before <==> comes_before(a@, b@),
        order is Same <==> a@ == b@,
        order is Behind <==> comes_before(b@, a@),
{
    let left = text::chars_of(a);
    let right = text::chars_of(b);
    proof {
        lemma_order_is_total(a@, b@);
    }
    let mut i: usize = 0;
    assert(a@.skip(0) =~= a@ && b@.skip(0) =~= b@);
    while i < left.len() && i < right.len()
        invariant
            left@ == a@,
            right@ == b@,
            i <= left@.len(),
            i <= right@.len(),
            comes_before(a@, b@) || a@ == b@ || comes_before(b@, a@),
            !(comes_before(a@, b@) && comes_before(b@, a@)),
            a@ == b@ ==> !comes_before(a@, b@),
            comes_before(a@, b@) == comes_before(a@.skip(i as int), b@.skip(i as int)),
            comes_before(b@, a@) == comes_before(b@.skip(i as int), a@.skip(i as int)),
        decreases left.len() - i,
    {
        if left[i] < right[i] {
            return Order::Before;
        }
        if right[i] < left[i] {
            return Order::Behind;
        }
        assert(a@.skip(i as int).skip(1) =~= a@.skip(i + 1));
        assert(b@.skip(i as int).skip(1) =~= b@.skip(i + 1));
        i = i + 1;
    }
    if i < right.len() {
        Order::Before
    } else if i < left.len() {
        Order::Behind
    } else {
        Order::Same
    }
}

/// Headers, sorted by key. Every key occurs once.
#[derive(Debug)]
pub struct HeaderMap<'r> {
    entries: Vec<(&'r str, &'r str)>,
}

impl<'r> View for HeaderMap<'r> {
    type V = Map<Seq<char>, Seq<char>>;

    closed spec fn view(&self) -> Map<Seq<char>, Seq<char>> {
        entries_map(self.entries@)
    }
}

/// The map that a list of entries stands for.
spec fn entries_map(entries: Seq<(&str, &str)>) -> Map<Seq<char>, Seq<char>>
    decreases entries.len(),
{
    if entries.len() == 0 {
        Map::empty()
    } else {
        entries_map(entries.drop_last()).insert(entries.last().0@, entries.last().1@)
    }
}

spec fn is_sorted(entries: Seq<(&str, &str)>) -> bool {
    forall|i: int, j: int|
        0 <= i < j < entries.len() ==> comes_before(
            (#[trigger] entries[i]).0@,
            (#[trigger] entries[j]).0@,
        )
}

/// What a sorted list of entries holds.
proof fn lemma_entries(entries: Seq<(&str, &str)>)
    requires
        is_sorted(entries),
    ensures
        forall|i: int|
            0 <= i < entries.len() ==> entries_map(entries).dom().contains(
                (#[trigger] entries[i]).0@,
            ) && entries_map(entries)[entries[i].0@] == entries[i].1@,
        forall|key: Seq<char>| #[trigger]
            entries_map(entries).dom().contains(key) ==> exists|i: int|
                0 <= i < entries.len() && (#[trigger] entries[i]).0@ == key,
    decreases entries.len(),
{
    if entries.len() > 0 {
        let shorter = entries.drop_last();
        assert(is_sorted(shorter)) by {
            assert forall|i: int, j: int| 0 <= i < j < shorter.len() implies comes_before(
                (#[trigger] shorter[i]).0@,
                (#[trigger] shorter[j]).0@,
            ) by {
                assert(shorter[i] == entries[i] && shorter[j] == entries[j]);
            }
        }
        lemma_entries(shorter);
        let last = entries.len() - 1;
        assert forall|i: int| 0 <= i < entries.len() implies entries_map(entries).dom().contains(
            (#[trigger] entries[i]).0@,
        ) && entries_map(entries)[entries[i].0@] == entries[i].1@ by {
            if i < last {
                assert(shorter[i] == entries[i]);
                lemma_order_is_total(entries[i].0@, entries[last].0@);
            }
        }
        assert forall|key: Seq<char>| #[trigger]
            entries_map(entries).dom().contains(key) implies exists|i: int|
            0 <= i < entries.len() && (#[trigger] entries[i]).0@ == key by {
            if key == entries[last].0@ {
            } else {
                assert(entries_map(shorter).dom().contains(key));
                let i = choose|i: int| 0 <= i < shorter.len() && (#[trigger] shorter[i]).0@ == key;
                assert(entries[i] == shorter[i]);
            }
        }
    }
}

/// The keys of a map that come before a text.
pub open spec fn keys_before(map: Map<Seq<char>, Seq<char>>, key: Seq<char>) -> Set<Seq<char>> {
    map.dom().filter(|other: Seq<char>| comes_before(other, key))
}

/// The keys before that of entry `i` are those of the first `i` entries.
proof fn lemma_keys_before(entries: Seq<(&str, &str)>, i: int)
    requires
        is_sorted(entries),
        0 <= i < entries.len(),
    ensures
        keys_before(entries_map(entries), entries[i].0@).finite(),
        keys_before(entries_map(entries), entries[i].0@).len() == i,
{
    let first = entries.take(i);
    let key = entries[i].0@;
    assert(is_sorted(first)) by {
        assert forall|j: int, k: int| 0 <= j < k < first.len() implies comes_before(
            (#[trigger] first[j]).0@,
            (#[trigger] first[k]).0@,
        ) by {
            assert(first[j] == entries[j] && first[k] == entries[k]);
        }
    }
    lemma_entries(entries);
    lemma_entries(first);
    lemma_entries_len(first);
    let keys = entries_map(first).dom();
    let before = keys_before(entries_map(entries), key);
    assert forall|other: Seq<char>| #[trigger] keys.contains(other) implies before.contains(
        other,
    ) by {
        let j = choose|j: int| 0 <= j < first.len() && (#[trigger] first[j]).0@ == other;
        assert(first[j] == entries[j]);
        assert(entries_map(entries).dom().contains(entries[j].0@));
    }
    assert forall|other: Seq<char>| #[trigger] before.contains(other) implies keys.contains(
        other,
    ) by {
        let j = choose|j: int| 0 <= j < entries.len() && (#[trigger] entries[j]).0@ == other;
        lemma_order_is_total(other, key);
        if j >= i {
            assert(comes_before(entries[i].0@, entries[j].0@) || i == j);
        } else {
            assert(first[j] == entries[j]);
            assert(keys.contains(first[j].0@));
        }
    }
    assert(before =~= keys);
}

impl<'r> HeaderMap<'r> {
    pub closed spec fn wf(&self) -> bool {
        is_sorted(self.entries@)
    }

    pub fn new() -> (headers: Self)
        ensures
            headers.wf(),
            headers@ == Map::<Seq<char>, Seq<char>>::empty(),
    {
        HeaderMap { entries: Vec::new() }
    }

    pub fn len(&self) -> (len: usize)
        requires
            self.wf(),
        ensures
            len == self@.dom().len(),
            self@.dom().finite(),
    {
        proof {
            lemma_entries_len(self.entries@);
        }
        self.entries.len()
    }

    /// The value of a key.
    pub fn get(&self, key: &str) -> (value: Option<&'r str>)
        requires
            self.wf(),
        ensures
            match value {
                None => !self@.dom().contains(key@),
                Some(value) => self@.dom().contains(key@) && self@[key@] == value@,
            },
    {
        proof {
            lemma_entries(self.entries@);
        }
        let mut i: usize = 0;
        while i < self.entries.len()
            invariant
                self.wf(),
                i <= self.entries@.len(),
                forall|j: int| 0 <= j < i ==> (#[trigger] self.entries@[j]).0@ != key@,
            decreases self.entries.len() - i,
        {
            if text::same_text(self.entries[i].0, key) {
                proof {
                    lemma_entries(self.entries@);
                }
                return Some(self.entries[i].1);
            }
            i = i + 1;
        }
        None
    }

    /// The entry at a place, in the order of the keys.
    pub fn entry(&self, i: usize) -> (entry: Option<(&'r str, &'r str)>)
        requires
            self.wf(),
        ensures
            entry is Some <==> i < self@.dom().len(),
            entry matches Some((key, value)) ==> {
                &&& self@.dom().contains(key@)
                &&& self@[key@] == value@
                &&& keys_before(self@, key@).finite()
                &&& keys_before(self@, key@).len() == i
            },
    {
        proof {
            lemma_entries(self.entries@);
            lemma_entries_len(self.entries@);
            if i < self.entries@.len() {
                lemma_keys_before(self.entries@, i as int);
            }
        }
        if i < self.entries.len() {
            Some(self.entries[i])
        } else {
            None
        }
    }

    /// Sets the value of a key.
    pub fn insert(&mut self, key: &'r str, value: &'r str)
        requires
            old(self).wf(),
        ensures
            final(self).wf(),
            final(self)@ == old(self)@.insert(key@, value@),
    {
        let ghost before = self.entries@;
        let mut i: usize = 0;
        while i < self.entries.len()
            invariant
                i <= self.entries@.len(),
                self.entries@ == before,
                is_sorted(before),
                before == old(self).entries@,
                forall|j: int| 0 <= j < i ==> comes_before((#[trigger] before[j]).0@, key@),
            decreases self.entries.len() - i,
        {
            match order(self.entries[i].0, key) {
                Order::Before => {
                    i = i + 1;
                },
                Order::Same => {
                    self.entries[i] = (key, value);
                    proof {
                        lemma_replaced(before, i as int, key, value);
                    }
                    return ;
                },
                Order::Behind => {
                    self.entries.insert(i, (key, value));
                    proof {
                        lemma_inserted(before, i as int, key, value);
                    }
                    return ;
                },
            }
        }
        self.entries.push((key, value));
        proof {
            assert(before.insert(i as int, (key, value)) =~= before.push((key, value)));
            lemma_inserted(before, i as int, key, value);
        }
    }
}

proof fn lemma_entries_len(entries: Seq<(&str, &str)>)
    requires
        is_sorted(entries),
    ensures
        entries_map(entries).dom().finite(),
        entries_map(entries).dom().len() == entries.len(),
    decreases entries.len(),
{
    if entries.len() > 0 {
        let shorter = entries.drop_last();
        let last = entries.len() - 1;
        assert(is_sorted(shorter)) by {
            assert forall|i: int, j: int| 0 <= i < j < shorter.len() implies comes_before(
                (#[trigger] shorter[i]).0@,
                (#[trigger] shorter[j]).0@,
            ) by {
                assert(shorter[i] == entries[i] && shorter[j] == entries[j]);
            }
        }
        lemma_entries_len(shorter);
        lemma_entries(shorter);
        let key = entries[last].0@;
        assert(!entries_map(shorter).dom().contains(key)) by {
            if entries_map(shorter).dom().contains(key) {
                let i = choose|i: int| 0 <= i < shorter.len() && (#[trigger] shorter[i]).0@ == key;
                assert(shorter[i] == entries[i]);
                lemma_order_is_total(entries[i].0@, key);
            }
        }
        assert(entries_map(entries).dom() =~= entries_map(shorter).dom().insert(key));
    }
}

/// Two sorted lists with the same entries stand for the same map.
proof fn lemma_same_map(
    entries: Seq<(&str, &str)>,
    map: Map<Seq<char>, Seq<char>>,
)
    requires
        is_sorted(entries),
        forall|i: int|
            0 <= i < entries.len() ==> map.dom().contains((#[trigger] entries[i]).0@)
                && map[entries[i].0@] == entries[i].1@,
        forall|key: Seq<char>| #[trigger]
            map.dom().contains(key) ==> exists|i: int|
                0 <= i < entries.len() && (#[trigger] entries[i]).0@ == key,
    ensures
        entries_map(entries) == map,
{
    lemma_entries(entries);
    let listed = entries_map(entries);
    assert forall|key: Seq<char>| listed.dom().contains(key) <==> map.dom().contains(key) by {
        if listed.dom().contains(key) {
            let i = choose|i: int| 0 <= i < entries.len() && (#[trigger] entries[i]).0@ == key;
            assert(map.dom().contains(entries[i].0@));
        }
        if map.dom().contains(key) {
            let i = choose|i: int| 0 <= i < entries.len() && (#[trigger] entries[i]).0@ == key;
            assert(listed.dom().contains(entries[i].0@));
        }
    }
    assert forall|key: Seq<char>| listed.dom().contains(key) implies listed[key] == map[key] by {
        let i = choose|i: int| 0 <= i < entries.len() && (#[trigger] entries[i]).0@ == key;
        assert(listed[entries[i].0@] == entries[i].1@);
        assert(map[entries[i].0@] == entries[i].1@);
    }
    assert(listed =~= map);
}

proof fn lemma_replaced(entries: Seq<(&str, &str)>, i: int, key: &str, value: &str)
    requires
        is_sorted(entries),
        0 <= i < entries.len(),
        entries[i].0@ == key@,
    ensures
        is_sorted(entries.update(i, (key, value))),
        entries_map(entries.update(i, (key, value))) == entries_map(entries).insert(key@, value@),
{
    let after = entries.update(i, (key, value));
    let map = entries_map(entries).insert(key@, value@);
    lemma_entries(entries);
    assert forall|a: int, b: int| 0 <= a < b < after.len() implies comes_before(
        (#[trigger] after[a]).0@,
        (#[trigger] after[b]).0@,
    ) by {
        assert(after[a].0@ == entries[a].0@ && after[b].0@ == entries[b].0@);
    }
    assert forall|j: int| 0 <= j < after.len() implies map.dom().contains((#[trigger] after[j]).0@)
        && map[after[j].0@] == after[j].1@ by {
        assert(after[j].0@ == entries[j].0@);
        if j < i {
            lemma_order_is_total(entries[j].0@, entries[i].0@);
        } else if j > i {
            lemma_order_is_total(entries[i].0@, entries[j].0@);
        }
    }
    assert forall|k: Seq<char>| #[trigger] map.dom().contains(k) implies exists|j: int|
        0 <= j < after.len() && (#[trigger] after[j]).0@ == k by {
        if k == key@ {
            assert(after[i].0@ == k);
        } else {
            assert(entries_map(entries).dom().contains(k));
            let j = choose|j: int| 0 <= j < entries.len() && (#[trigger] entries[j]).0@ == k;
            assert(after[j].0@ == k);
        }
    }
    lemma_same_map(after, map);
}

proof fn lemma_inserted(entries: Seq<(&str, &str)>, i: int, key: &str, value: &str)
    requires
        is_sorted(entries),
        0 <= i <= entries.len(),
        forall|j: int| 0 <= j < i ==> comes_before((#[trigger] entries[j]).0@, key@),
        i < entries.len() ==> comes_before(key@, entries[i].0@),
    ensures
        is_sorted(entries.insert(i, (key, value))),
        entries_map(entries.insert(i, (key, value))) == entries_map(entries).insert(key@, value@),
{
    let after = entries.insert(i, (key, value));
    let map = entries_map(entries).insert(key@, value@);
    lemma_entries(entries);
    assert forall|j: int| i <= j < entries.len() implies comes_before(
        key@,
        (#[trigger] entries[j]).0@,
    ) by {
        if j > i {
            lemma_order_is_transitive(key@, entries[i].0@, entries[j].0@);
        }
    }
    assert forall|a: int, b: int| 0 <= a < b < after.len() implies comes_before(
        (#[trigger] after[a]).0@,
        (#[trigger] after[b]).0@,
    ) by {
        if a < i {
            assert(after[a] == entries[a]);
            if b < i {
                assert(after[b] == entries[b]);
            } else if b > i {
                assert(after[b] == entries[b - 1]);
            }
        } else if a == i {
            assert(after[b] == entries[b - 1]);
        } else {
            assert(after[a] == entries[a - 1] && after[b] == entries[b - 1]);
        }
    }
    assert forall|j: int| 0 <= j < after.len() implies map.dom().contains((#[trigger] after[j]).0@)
        && map[after[j].0@] == after[j].1@ by {
        if j < i {
            assert(after[j] == entries[j]);
            lemma_order_is_total(entries[j].0@, key@);
        } else if j > i {
            assert(after[j] == entries[j - 1]);
            lemma_order_is_total(key@, entries[j - 1].0@);
        }
    }
    assert forall|k: Seq<char>| #[trigger] map.dom().contains(k) implies exists|j: int|
        0 <= j < after.len() && (#[trigger] after[j]).0@ == k by {
        if k == key@ {
            assert(after[i].0@ == k);
        } else {
            assert(entries_map(entries).dom().contains(k));
            let j = choose|j: int| 0 <= j < entries.len() && (#[trigger] entries[j]).0@ == k;
            if j < i {
                assert(after[j] == entries[j]);
            } else {
                assert(after[j + 1] == entries[j]);
            }
        }
    }
    lemma_same_map(after, map);
}

/// A request, cut into its parts.
#[derive(Debug)]
pub struct Request<'r> {
    pub body: &'r str,
    pub headers: HeaderMap<'r>,
    pub method: &'r str,
    pub path: &'r str,
    pub version: &'r str,
}

/// The parts of a request, as texts.
pub struct RequestView {
    pub body: Seq<char>,
    pub headers: Map<Seq<char>, Seq<char>>,
    pub method: Seq<char>,
    pub path: Seq<char>,
    pub version: Seq<char>,
}

/// The headers that a list of lines gives, if every line is one. Of two headers with the same key
/// the later one counts.
pub open spec fn headers_of(lines: Seq<Seq<char>>) -> Option<Map<Seq<char>, Seq<char>>>
    decreases lines.len(),
{
    if lines.len() == 0 {
        Some(Map::empty())
    } else {
        match (headers_of(lines.drop_last()), text::split_once_at(lines.last(), ": "@)) {
            (Some(earlier), Some((key, value))) => Some(earlier.insert(key, value)),
            _ => None,
        }
    }
}

/// The parts of a request, or what is wrong with it.
pub open spec fn parsed(request: Seq<char>) -> Result<RequestView, ParseRequestError> {
    match text::split_once_at(request, "\r\n\r\n"@) {
        None => Err(ParseRequestError::Syntax),
        Some((head, body)) => {
            let lines = text::lines_of(head);
            if lines.len() == 0 {
                Err(ParseRequestError::UnexpectedEof)
            } else {
                match text::split_once_at(lines[0], " "@) {
                    None => Err(ParseRequestError::Syntax),
                    Some((method, remainder)) => match text::split_once_at(remainder, " "@) {
                        None => Err(ParseRequestError::Syntax),
                        Some((path, version)) => match headers_of(lines.skip(1)) {
                            None => Err(ParseRequestError::Syntax),
                            Some(headers) => Ok(
                                RequestView { body, headers, method, path, version },
                            ),
                        },
                    },
                }
            }
        },
    }
}

impl<'r> View for Request<'r> {
    type V = RequestView;

    open spec fn view(&self) -> RequestView {
        RequestView {
            body: self.body@,
            headers: self.headers@,
            method: self.method@,
            path: self.path@,
            version: self.version@,
        }
    }
}

/// A line that is no header spoils the list, whatever follows.
proof fn lemma_bad_header(lines: Seq<Seq<char>>, n: int)
    requires
        0 <= n <= lines.len(),
        headers_of(lines.take(n)) is None,
    ensures
        headers_of(lines) is None,
    decreases lines.len() - n,
{
    if n == lines.len() {
        assert(lines.take(n) =~= lines);
    } else {
        assert(lines.take(n + 1).drop_last() =~= lines.take(n));
        lemma_bad_header(lines, n + 1);
    }
}

impl<'r> Request<'r> {
    pub open spec fn wf(&self) -> bool {
        self.headers.wf()
    }

    pub fn from_str(content: &'r str) -> (request: Result<Self, ParseRequestError>)
        ensures
            match request {
                Ok(request) => request.wf() && parsed(content@) == Ok::<
                    RequestView,
                    ParseRequestError,
                >(request@),
                Err(error) => parsed(content@) == Err::<RequestView, ParseRequestError>(error),
            },
    {
        let (head, body) = match text::split_once(content, "\r\n\r\n") {
            None => return Err(ParseRequestError::Syntax),
            Some(parts) => parts,
        };
        let lines = text::lines(head);
        let ghost texts = text::views(lines@);
        assert(texts.len() == lines@.len());
        if lines.len() == 0 {
            return Err(ParseRequestError::UnexpectedEof);
        }
        assert(texts[0] == lines@[0]@);
        let (method, remainder) = match text::split_once(lines[0], " ") {
            None => return Err(ParseRequestError::Syntax),
            Some(parts) => parts,
        };
        let (path, version) = match text::split_once(remainder, " ") {
            None => return Err(ParseRequestError::Syntax),
            Some(parts) => parts,
        };
        let ghost rest = texts.skip(1);
        let mut headers = HeaderMap::new();
        let mut i: usize = 1;
        assert(rest.take(0) =~= Seq::<Seq<char>>::empty());
        while i < lines.len()
            invariant
                1 <= i <= lines@.len(),
                texts == text::views(lines@),
                rest == texts.skip(1),
                headers.wf(),
                headers_of(rest.take(i - 1)) == Some(headers@),
                parsed(content@) == (match headers_of(rest) {
                    None => Err::<RequestView, ParseRequestError>(ParseRequestError::Syntax),
                    Some(headers) => Ok(
                        RequestView {
                            body: body@,
                            headers,
                            method: method@,
                            path: path@,
                            version: version@,
                        },
                    ),
                }),
            decreases lines.len() - i,
        {
            proof {
                assert(rest.take(i as int).drop_last() =~= rest.take(i - 1));
                assert(rest.take(i as int).last() == lines@[i as int]@);
            }
            match text::split_once(lines[i], ": ") {
                None => {
                    proof {
                        lemma_bad_header(rest, i as int);
                    }
                    return Err(ParseRequestError::Syntax);
                },
                Some((key, value)) => {
                    headers.insert(key, value);
                },
            }
            i = i + 1;
        }
        assert(rest.take(i - 1) =~= rest);
        Ok(Request { body, headers, method, path, version })
    }
}

/// Texts are ordered as in a dictionary: where they first differ, the smaller character comes
/// first, and a text comes before all that it begins.
pub proof fn law_order_is_that_of_a_dictionary(a: Seq<char>, b: Seq<char>)
    ensures
        comes_before(a, b) <==> exists|i: int|
            0 <= i <= a.len() && i < b.len() && #[trigger] a.take(i) == b.take(i) && (i == a.len()
                || a[i] < b[i]),
    decreases a.len(),
{
    if comes_before(a, b) {
        if a.len() == 0 || a[0] != b[0] {
            assert(a.take(0) =~= b.take(0));
        } else {
            let (c, d) = (a.skip(1), b.skip(1));
            law_order_is_that_of_a_dictionary(c, d);
            let i = choose|i: int|
                0 <= i <= c.len() && i < d.len() && #[trigger] c.take(i) == d.take(i) && (i
                    == c.len() || c[i] < d[i]);
            assert(a.take(i + 1) =~= seq![a[0]] + c.take(i));
            assert(b.take(i + 1) =~= seq![b[0]] + d.take(i));
            assert(a.take(i + 1) == b.take(i + 1));
        }
    }
    if exists|i: int|
        0 <= i <= a.len() && i < b.len() && #[trigger] a.take(i) == b.take(i) && (i == a.len()
            || a[i] < b[i]) {
        let i = choose|i: int|
            0 <= i <= a.len() && i < b.len() && #[trigger] a.take(i) == b.take(i) && (i == a.len()
                || a[i] < b[i]);
        if i > 0 {
            assert(a.take(i)[0] == a[0] && b.take(i)[0] == b[0]);
            let (c, d) = (a.skip(1), b.skip(1));
            law_order_is_that_of_a_dictionary(c, d);
            assert(c.take(i - 1) =~= a.take(i).skip(1));
            assert(d.take(i - 1) =~= b.take(i).skip(1));
            assert(c.take(i - 1) == d.take(i - 1));
        }
    }
}

/// A request begins with its method, path and version, with one blank between each two of them, and
/// a line ending behind; neither method nor path holds a blank. It ends with its body, which
/// follows the first empty line.
pub proof fn law_requests_are_cut_without_loss(request: Seq<char>)
    ensures
        parsed(request) matches Ok(parts) ==> {
            let line = parts.method + seq![' '] + parts.path + seq![' '] + parts.version;
            let start = request.len() - parts.body.len();
            &&& line.len() < request.len()
            &&& request.take(line.len() as int) == line
            &&& request[line.len() as int] == '\n' || request[line.len() as int] == '\r'
                && request[line.len() as int + 1] == '\n'
            &&& !parts.method.contains(' ')
            &&& !parts.path.contains(' ')
            &&& !line.contains('\n')
            &&& 4 <= start <= request.len()
            &&& request.skip(start) == parts.body
            &&& request.subrange(start - 4, start) == seq!['\r', '\n', '\r', '\n']
            &&& forall|i: int|
                0 <= i < start - 4 ==> #[trigger] request.subrange(i, i + 4) != seq![
                    '\r',
                    '\n',
                    '\r',
                    '\n',
                ]
        },
{
    reveal_strlit("\r\n\r\n");
    reveal_strlit(" ");
    let ending = seq!['\r', '\n', '\r', '\n'];
    assert("\r\n\r\n"@ =~= ending);
    assert(" "@ =~= seq![' ']);
    text::law_cutting_loses_nothing(request, ending);
    if let Ok(parts) = parsed(request) {
        let (head, body) = text::split_once_at(request, ending)->0;
        let lines = text::lines_of(head);
        let (_, remainder) = text::split_once_at(lines[0], " "@)->0;
        text::law_cutting_loses_nothing(lines[0], seq![' ']);
        text::law_cutting_loses_nothing(remainder, seq![' ']);
        let line = parts.method + seq![' '] + parts.path + seq![' '] + parts.version;
        assert(line =~= parts.method + seq![' '] + remainder);
        assert(line == lines[0]);
        lemma_nothing_before_the_cut(lines[0], ' ');
        lemma_nothing_before_the_cut(remainder, ' ');
        lemma_first_line(head);
        let n = line.len() as int;
        assert(request.take(n) =~= head.take(n));
        if n == head.len() {
            assert(request[n] == ending[0] && request[n + 1] == ending[1]);
        }
        let start = request.len() - body.len();
        assert(start == head.len() + 4);
        assert(request.skip(start) =~= body);
        assert(request.subrange(start - 4, start) =~= ending);
        assert forall|i: int| 0 <= i < start - 4 implies #[trigger] request.subrange(i, i + 4)
            != ending by {
            if request.subrange(i, i + 4) == ending {
                assert(request.subrange(i, i + ending.len() as int) == ending);
            }
        }
    }
}

/// What stands before a cut does not hold the character at which the text is cut.
proof fn lemma_nothing_before_the_cut(content: Seq<char>, c: char)
    ensures
        text::split_once_at(content, seq![c]) matches Some((before, _)) ==> !before.contains(c),
{
    text::law_cutting_loses_nothing(content, seq![c]);
    if let Some((before, behind)) = text::split_once_at(content, seq![c]) {
        if before.contains(c) {
            let i = choose|i: int| 0 <= i < before.len() && before[i] == c;
            assert(content[i] == c);
            assert(content.subrange(i, i + seq![c].len() as int) =~= seq![c]);
        }
    }
}

/// The first line of a text is what stands before its first line ending.
proof fn lemma_first_line(content: Seq<char>)
    ensures
        text::lines_of(content).len() > 0 ==> {
            let line = text::lines_of(content)[0];
            &&& line.len() <= content.len()
            &&& content.take(line.len() as int) == line
            &&& !line.contains('\n')
            &&& line.len() < content.len() ==> content[line.len() as int] == '\n'
                || line.len() + 1 < content.len() && content[line.len() as int] == '\r'
                && content[line.len() as int + 1] == '\n'
        },
{
    text::law_searches_find_the_first_place(content, seq!['\n'], 0);
    text::law_cutting_loses_nothing(content, seq!['\n']);
    lemma_nothing_before_the_cut(content, '\n');
    if content.len() > 0 {
        match text::find_from(content, seq!['\n'], 0) {
            None => {
                assert(!content.contains('\n')) by {
                    if content.contains('\n') {
                        let i = choose|i: int| 0 <= i < content.len() && content[i] == '\n';
                        assert(content.subrange(i, i + seq!['\n'].len() as int) =~= seq!['\n']);
                    }
                }
                assert(content.take(content.len() as int) =~= content);
            },
            Some(i) => {
                let whole = content.take(i);
                let line = text::without_carriage_return(whole);
                assert(content.subrange(i, i + 1)[0] == content[i]);
                assert(content.take(line.len() as int) =~= line);
                assert(!line.contains('\n')) by {
                    if line.contains('\n') {
                        let j = choose|j: int| 0 <= j < line.len() && line[j] == '\n';
                        assert(whole[j] == '\n');
                    }
                }
                if line.len() < whole.len() {
                    assert(content[line.len() as int] == whole[line.len() as int]);
                }
            },
        }
    }
}

/// A request without an empty line is broken, and one that begins with it has no first line.
pub proof fn law_requests_end_their_head(request: Seq<char>)
    ensures
        (forall|i: int|
            0 <= i <= request.len() - 4 ==> #[trigger] request.subrange(i, i + 4) != seq![
                '\r',
                '\n',
                '\r',
                '\n',
            ]) ==> parsed(request) == Err::<RequestView, ParseRequestError>(
            ParseRequestError::Syntax,
        ),
        parsed(request) == Err::<RequestView, ParseRequestError>(ParseRequestError::UnexpectedEof)
            <==> request.len() >= 4 && request.take(4) == seq!['\r', '\n', '\r', '\n'],
{
    reveal_strlit("\r\n\r\n");
    let ending = seq!['\r', '\n', '\r', '\n'];
    assert("\r\n\r\n"@ =~= ending);
    text::law_cutting_loses_nothing(request, ending);
    if let Some((head, body)) = text::split_once_at(request, ending) {
        let n = head.len() as int;
        assert(request.subrange(n, n + 4) =~= ending);
        if head.len() == 0 {
            assert(request.take(4) =~= ending);
            text::law_a_text_without_line_feeds_is_one_line(head);
        } else {
            assert(text::lines_of(head).len() > 0);
            if request.take(4) == ending {
                assert(request.subrange(0, 0 + ending.len() as int) =~= ending);
            }
        }
    }
    if request.len() >= 4 && request.take(4) == ending {
        assert(request.subrange(0, 0 + ending.len() as int) =~= ending);
    }
}

/// Lines, one below the other.
pub open spec fn below_each_other(lines: Seq<Seq<char>>) -> Seq<char>
    decreases lines.len(),
{
    if lines.len() == 0 {
        Seq::empty()
    } else if lines.len() == 1 {
        lines[0]
    } else {
        lines[0] + seq!['\r', '\n'] + below_each_other(lines.skip(1))
    }
}

/// A line that can stand in the head of a request.
pub open spec fn is_plain_line(line: Seq<char>) -> bool {
    line.len() > 0 && !line.contains('\r') && !line.contains('\n')
}

proof fn lemma_below_each_other(lines: Seq<Seq<char>>)
    requires
        lines.len() > 0,
        forall|i: int| 0 <= i < lines.len() ==> is_plain_line(#[trigger] lines[i]),
    ensures
        ({
            let joined = below_each_other(lines);
            &&& text::lines_of(joined) == lines
            &&& joined.len() > 0
            &&& joined[0] != '\r'
            &&& forall|i: int|
                0 <= i < joined.len() && #[trigger] joined[i] == '\r' ==> i + 2 < joined.len()
                    && joined[i + 2] != '\r'
        }),
    decreases lines.len(),
{
    let line = lines[0];
    assert(is_plain_line(line));
    let joined = below_each_other(lines);
    if lines.len() == 1 {
        text::law_a_text_without_line_feeds_is_one_line(line);
        assert(text::lines_of(joined) =~= lines);
        assert forall|i: int| 0 <= i < joined.len() && #[trigger] joined[i] == '\r' implies i + 2
            < joined.len() && joined[i + 2] != '\r' by {
            assert(line.contains(line[i]));
        }
        assert(line.contains(line[0]));
    } else {
        let others = lines.skip(1);
        assert forall|i: int| 0 <= i < others.len() implies is_plain_line(#[trigger] others[i]) by {
            assert(others[i] == lines[i + 1]);
        }
        lemma_below_each_other(others);
        let rest = below_each_other(others);
        text::law_lines_end_at_line_feeds(line, rest);
        assert(seq![line] + others =~= lines);
        assert(line.contains(line[0]));
        let n = line.len() as int;
        assert forall|i: int| 0 <= i < joined.len() && #[trigger] joined[i] == '\r' implies i + 2
            < joined.len() && joined[i + 2] != '\r' by {
            if i < n {
                assert(line.contains(line[i]));
            } else if i == n {
                assert(joined[i + 2] == rest[0]);
            } else if i == n + 1 {
                assert(joined[i] == '\n');
            } else {
                assert(rest[i - n - 2] == joined[i]);
                assert(rest[i - n - 2 + 2] == joined[i + 2]);
            }
        }
    }
}

/// Reading undoes writing: a request that is written with its method, path and version on the first
/// line, a header on each line behind, an empty line and the body, is read as these parts. Of
/// headers with one key the last counts.
pub proof fn law_written_requests_are_read(
    method: Seq<char>,
    path: Seq<char>,
    version: Seq<char>,
    keys: Seq<Seq<char>>,
    values: Seq<Seq<char>>,
    body: Seq<char>,
)
    requires
        keys.len() == values.len(),
        !method.contains(' '),
        !path.contains(' '),
        is_plain_line(method + seq![' '] + path + seq![' '] + version),
        forall|i: int|
            0 <= i < keys.len() ==> !(#[trigger] keys[i]).contains(':') && is_plain_line(
                keys[i] + seq![':', ' '] + values[i],
            ),
    ensures
        ({
            let first = method + seq![' '] + path + seq![' '] + version;
            let headers = Seq::new(keys.len(), |i: int| keys[i] + seq![':', ' '] + values[i]);
            let request = below_each_other(seq![first] + headers) + seq!['\r', '\n', '\r', '\n']
                + body;
            &&& parsed(request) matches Ok(parts)
            &&& parts.method == method
            &&& parts.path == path
            &&& parts.version == version
            &&& parts.body == body
            &&& forall|key: Seq<char>| #[trigger]
                parts.headers.dom().contains(key) <==> keys.contains(key)
            &&& forall|i: int|
                0 <= i < keys.len() && (forall|j: int|
                    i < j < keys.len() ==> #[trigger] keys[j] != keys[i])
                    ==> parts.headers[#[trigger] keys[i]] == values[i]
        }),
{
    reveal_strlit("\r\n\r\n");
    reveal_strlit(" ");
    let ending = seq!['\r', '\n', '\r', '\n'];
    assert("\r\n\r\n"@ =~= ending);
    assert(" "@ =~= seq![' ']);
    let first = method + seq![' '] + path + seq![' '] + version;
    let headers = Seq::new(keys.len(), |i: int| keys[i] + seq![':', ' '] + values[i]);
    let lines = seq![first] + headers;
    assert forall|i: int| 0 <= i < lines.len() implies is_plain_line(#[trigger] lines[i]) by {
        if i > 0 {
            assert(lines[i] == keys[i - 1] + seq![':', ' '] + values[i - 1]);
            assert(!keys[i - 1].contains(':'));
        }
    }
    lemma_below_each_other(lines);
    let head = below_each_other(lines);
    let request = head + ending + body;
    let n = head.len() as int;
    text::law_cutting_loses_nothing(request, ending);
    assert(request.subrange(n, n + ending.len() as int) =~= ending);
    let (cut_head, cut_body) = text::split_once_at(request, ending)->0;
    let i = cut_head.len() as int;
    if i < n {
        assert(request == cut_head + ending + cut_body);
        assert(request[i] == ending[0] && request[i + 2] == ending[2]);
        assert(head[i] == '\r');
        assert(head[i + 2] == request[i + 2]);
    }
    assert(cut_head =~= head) by {
        assert(request.take(n) =~= head);
        assert(request.take(i) =~= cut_head);
    }
    assert(cut_body =~= body) by {
        assert(request.skip(n + 4) =~= body);
        assert(request.skip(i + 4) =~= cut_body);
    }
    assert(lines[0] == first);
    let remainder = path + seq![' '] + version;
    assert(first =~= method + seq![' '] + remainder);
    text::law_joined_texts_are_cut_apart(method, ' ', remainder);
    text::law_joined_texts_are_cut_apart(path, ' ', version);
    assert(lines.skip(1) =~= headers);
    lemma_written_headers(keys, values, headers);
}

proof fn lemma_written_headers(
    keys: Seq<Seq<char>>,
    values: Seq<Seq<char>>,
    lines: Seq<Seq<char>>,
)
    requires
        keys.len() == values.len(),
        lines.len() == keys.len(),
        forall|i: int| 0 <= i < keys.len() ==> !(#[trigger] keys[i]).contains(':'),
        forall|i: int|
            0 <= i < keys.len() ==> #[trigger] lines[i] == keys[i] + seq![':', ' '] + values[i],
    ensures
        headers_of(lines) matches Some(map) && {
            &&& forall|key: Seq<char>| #[trigger] map.dom().contains(key) <==> keys.contains(key)
            &&& forall|i: int|
                0 <= i < keys.len() && (forall|j: int|
                    i < j < keys.len() ==> #[trigger] keys[j] != keys[i])
                    ==> map[#[trigger] keys[i]] == values[i]
        },
    decreases keys.len(),
{
    reveal_strlit(": ");
    assert(": "@ =~= seq![':', ' ']);
    if keys.len() > 0 {
        let last = keys.len() - 1;
        let (first_keys, first_values, first_lines) = (
            keys.drop_last(),
            values.drop_last(),
            lines.drop_last(),
        );
        assert forall|i: int| 0 <= i < first_keys.len() implies !(
        #[trigger] first_keys[i]).contains(':') by {
            assert(first_keys[i] == keys[i]);
        }
        assert forall|i: int| 0 <= i < first_keys.len() implies #[trigger] first_lines[i]
            == first_keys[i] + seq![':', ' '] + first_values[i] by {
            assert(first_lines[i] == lines[i]);
        }
        lemma_written_headers(first_keys, first_values, first_lines);
        assert(!keys[last].contains(':'));
        assert(lines[last] == keys[last] + seq![':', ' '] + values[last]);
        text::law_joined_texts_are_cut_apart_at_a_pattern(
            keys[last],
            seq![':', ' '],
            values[last],
        );
        let earlier = headers_of(first_lines)->0;
        let map = headers_of(lines)->0;
        assert(map == earlier.insert(keys[last], values[last]));
        assert forall|key: Seq<char>| #[trigger] map.dom().contains(key) <==> keys.contains(
            key,
        ) by {
            if keys.contains(key) {
                let i = choose|i: int| 0 <= i < keys.len() && keys[i] == key;
                if i < last {
                    assert(first_keys[i] == key);
                    assert(first_keys.contains(key));
                }
            }
            if map.dom().contains(key) {
                if key == keys[last] {
                    assert(keys.contains(keys[last]));
                } else {
                    assert(first_keys.contains(key));
                    let i = choose|i: int| 0 <= i < first_keys.len() && first_keys[i] == key;
                    assert(keys[i] == key);
                }
            }
        }
        assert forall|i: int|
            0 <= i < keys.len() && (forall|j: int|
                i < j < keys.len() ==> #[trigger] keys[j] != keys[i]) implies map[
            #[trigger] keys[i]
        ] == values[i] by {
            if i < last {
                assert(keys[last] != keys[i]);
                assert(first_keys[i] == keys[i]);
                assert forall|j: int| i < j < first_keys.len() implies #[trigger] first_keys[j]
                    != first_keys[i] by {
                    assert(first_keys[j] == keys[j]);
                }
                assert(earlier[first_keys[i]] == first_values[i]);
            }
        }
    }
}

/// Headers are read line by line: a line sets the value of its key, which is what stands before its
/// first colon with a blank behind it, to what stands behind that.
pub proof fn law_headers_are_read_line_by_line(lines: Seq<Seq<char>>, line: Seq<char>, n: int)
    requires
        0 <= n <= line.len() - 2,
        line.subrange(n, n + 2) == seq![':', ' '],
        forall|i: int| 0 <= i < n ==> #[trigger] line.subrange(i, i + 2) != seq![':', ' '],
    ensures
        headers_of(Seq::empty()) == Some(Map::<Seq<char>, Seq<char>>::empty()),
        headers_of(lines) is None ==> headers_of(lines.push(line)) is None,
        headers_of(lines) matches Some(earlier) ==> (headers_of(lines.push(line)) matches Some(map)
            && map[line.take(n)] == line.skip(n + 2) && map.dom() == earlier.dom().insert(
            line.take(n),
        ) && forall|key: Seq<char>|
            key != line.take(n) && earlier.dom().contains(key) ==> #[trigger] map[key]
                == earlier[key]),
{
    reveal_strlit(": ");
    let colon = seq![':', ' '];
    assert(": "@ =~= colon);
    text::law_texts_are_cut_at_the_first_place(line, colon, n);
    assert(lines.push(line).drop_last() =~= lines);
    if let Some(earlier) = headers_of(lines) {
        let map = earlier.insert(line.take(n), line.skip(n + 2));
        assert(headers_of(lines.push(line)) == Some(map));
        assert(map.dom() =~= earlier.dom().insert(line.take(n)));
    }
}

/// A line without a colon that has a blank behind it is no header, and spoils the others.
pub proof fn law_headers_need_a_colon(lines: Seq<Seq<char>>, line: Seq<char>)
    requires
        forall|i: int|
            0 <= i <= line.len() - 2 ==> #[trigger] line.subrange(i, i + 2) != seq![':', ' '],
    ensures
        headers_of(lines.push(line)) is None,
{
    reveal_strlit(": ");
    let colon = seq![':', ' '];
    assert(": "@ =~= colon);
    text::law_cutting_loses_nothing(line, colon);
    if let Some((before, behind)) = text::split_once_at(line, colon) {
        let i = before.len() as int;
        assert(line.subrange(i, i + 2) =~= colon);
    }
}

/// A request is read exactly if its first line holds two blanks and every other line of its head is
/// a header, and its headers are those of the other lines. Otherwise its syntax is wrong, unless
/// its head is empty.
pub proof fn law_requests_are_read_as_their_head_says(request: Seq<char>, m: int)
    requires
        0 <= m <= request.len() - 4,
        request.subrange(m, m + 4) == seq!['\r', '\n', '\r', '\n'],
        forall|i: int|
            0 <= i < m ==> #[trigger] request.subrange(i, i + 4) != seq!['\r', '\n', '\r', '\n'],
    ensures
        ({
            let lines = text::lines_of(request.take(m));
            let headers = headers_of(lines.skip(1));
            let has_blanks = lines.len() > 0 && exists|i: int, j: int|
                0 <= i < j < lines[0].len() && #[trigger] lines[0][i] == ' '
                    && #[trigger] lines[0][j] == ' ';
            &&& lines.len() == 0 ==> parsed(request) == Err::<RequestView, ParseRequestError>(
                ParseRequestError::UnexpectedEof,
            )
            &&& lines.len() > 0 && !(has_blanks && headers is Some) ==> parsed(request) == Err::<
                RequestView,
                ParseRequestError,
            >(ParseRequestError::Syntax)
            &&& lines.len() > 0 && has_blanks && headers is Some ==> (parsed(request) matches Ok(
                parts,
            ) && parts.headers == headers->0 && parts.body == request.skip(m + 4))
        }),
{
    reveal_strlit("\r\n\r\n");
    reveal_strlit(" ");
    let ending = seq!['\r', '\n', '\r', '\n'];
    let blank = seq![' '];
    assert("\r\n\r\n"@ =~= ending);
    assert(" "@ =~= blank);
    text::law_texts_are_cut_at_the_first_place(request, ending, m);
    let lines = text::lines_of(request.take(m));
    if lines.len() > 0 {
        let line = lines[0];
        text::law_cutting_loses_nothing(line, blank);
        match text::split_once_at(line, blank) {
            None => {
                assert forall|i: int| 0 <= i < line.len() implies line[i] != ' ' by {
                    if line[i] == ' ' {
                        assert(line.subrange(i, i + blank.len() as int) =~= blank);
                    }
                }
            },
            Some((method, remainder)) => {
                let n = method.len() as int;
                assert(line[n] == ' ');
                text::law_cutting_loses_nothing(remainder, blank);
                lemma_nothing_before_the_cut(line, ' ');
                match text::split_once_at(remainder, blank) {
                    None => {
                        assert forall|i: int, j: int|
                            0 <= i < j < line.len() && #[trigger] line[i] == ' ' implies
                            #[trigger] line[j] != ' ' by {
                            if line[j] == ' ' {
                                if i < n {
                                    assert(method[i] == ' ');
                                }
                                let k = j - n - 1;
                                assert(remainder[k] == ' ');
                                assert(remainder.subrange(k, k + blank.len() as int) =~= blank);
                            }
                        }
                    },
                    Some((path, version)) => {
                        let k = n + 1 + path.len();
                        assert(line[k] == remainder[path.len() as int]);
                    },
                }
            },
        }
    }
}

/// The parts of a request are its fields.
pub proof fn law_requests_show_their_fields(request: Request)
    ensures
        request@.method == request.method@,
        request@.path == request.path@,
        request@.version == request.version@,
        request@.body == request.body@,
        request@.headers == request.headers@,
{
}

/// Headers come out in the order of a dictionary: of two keys, the one with fewer keys before it
/// comes first, and no two keys have as many before them.
pub proof fn law_headers_come_out_in_order(
    map: Map<Seq<char>, Seq<char>>,
    a: Seq<char>,
    b: Seq<char>,
)
    requires
        map.dom().finite(),
        map.dom().contains(a),
        map.dom().contains(b),
    ensures
        forall|key: Seq<char>| #[trigger]
            keys_before(map, a).contains(key) <==> map.dom().contains(key) && comes_before(key, a),
        comes_before(a, b) <==> keys_before(map, a).len() < keys_before(map, b).len(),
        a == b <==> keys_before(map, a).len() == keys_before(map, b).len(),
{
    lemma_order_is_total(a, b);
    if comes_before(a, b) {
        lemma_fewer_before(map, a, b);
    }
    if comes_before(b, a) {
        lemma_fewer_before(map, b, a);
    }
}

proof fn lemma_fewer_before(map: Map<Seq<char>, Seq<char>>, a: Seq<char>, b: Seq<char>)
    requires
        map.dom().finite(),
        map.dom().contains(a),
        comes_before(a, b),
    ensures
        keys_before(map, a).len() < keys_before(map, b).len(),
{
    let (earlier, later) = (keys_before(map, a), keys_before(map, b));
    lemma_order_is_total(a, a);
    assert forall|key: Seq<char>| #[trigger] earlier.contains(key) implies later.remove(
        a,
    ).contains(key) by {
        lemma_order_is_transitive(key, a, b);
    }
    vstd::set_lib::lemma_len_subset(earlier, later.remove(a));
    assert(later.contains(a));
}

} // verus!
