//! Requests and responses on a connection that is kept open.
//!
//! A connection takes bytes as they come and says what to do next: to read more, to score
//! the body of a request, to answer that the service is ready, or to close.

use vstd::prelude::*;

use crate::text::{check_digit, digits_end, has_text_at, lemma_digits_end, number, starts_with_at};

verus! {

/// The size of the buffer of a new connection.
pub const INITIAL_BUFFER: usize = 8192;

/// Whether an empty line ends the headers at `i`.
pub open spec fn marker_at(s: Seq<u8>, i: int) -> bool {
    &&& 0 <= i
    &&& i + 4 <= s.len()
    &&& s[i] == '\r' as u8
    &&& s[i + 1] == '\n' as u8
    &&& s[i + 2] == '\r' as u8
    &&& s[i + 3] == '\n' as u8
}

/// The first position from `i` on at which an empty line ends the headers.
pub open spec fn marker_from(s: Seq<u8>, i: nat) -> Option<nat>
    decreases s.len() - i,
{
    if i + 4 > s.len() {
        None
    } else if marker_at(s, i as int) {
        Some(i)
    } else {
        marker_from(s, i + 1)
    }
}

/// The lower case of an ASCII letter; other bytes as they are.
pub open spec fn lower(b: u8) -> u8 {
    if 'A' as u8 <= b <= 'Z' as u8 {
        (b + 32) as u8
    } else {
        b
    }
}

/// Whether `name` stands at `i`, in upper or lower case.
pub open spec fn name_at(s: Seq<u8>, i: int, name: Seq<char>) -> bool {
    &&& i + name.len() <= s.len()
    &&& forall|k: int| 0 <= k < name.len() ==> lower(#[trigger] s[i + k]) == lower(name[k] as u8)
}

/// The first position from `i` on at which the length header stands.
pub open spec fn length_header_from(s: Seq<u8>, i: nat) -> Option<nat>
    decreases s.len() - i,
{
    if i + "Content-Length:"@.len() > s.len() {
        None
    } else if name_at(s, i as int, "Content-Length:"@) {
        Some(i)
    } else {
        proof {
            reveal_strlit("Content-Length:");
        }
        length_header_from(s, i + 1)
    }
}

/// The first position from `i` on that holds neither space nor tab.
pub open spec fn spaces_end(s: Seq<u8>, i: nat) -> nat
    decreases s.len() - i,
{
    if i < s.len() && (s[i as int] == ' ' as u8 || s[i as int] == '\t' as u8) {
        spaces_end(s, i + 1)
    } else {
        i
    }
}

/// The digits of the first length header, none if it has none.
pub open spec fn length_digits(s: Seq<u8>) -> Seq<u8> {
    match length_header_from(s, 0) {
        Some(i) => {
            let j = spaces_end(s, i + "Content-Length:"@.len());
            s.subrange(j as int, digits_end(s, j) as int)
        },
        None => Seq::empty(),
    }
}

/// The length that the headers give.
pub open spec fn content_length(s: Seq<u8>) -> Option<nat> {
    if length_digits(s).len() > 0 {
        Some(number(length_digits(s)))
    } else {
        None
    }
}

/// Whether the length that the headers give is a number of this machine.
pub open spec fn is_length_in_range(s: Seq<u8>) -> bool {
    content_length(s) matches Some(n) ==> n <= usize::MAX
}

/// The length of the body.
pub open spec fn body_length(head: Seq<u8>) -> nat {
    match content_length(head) {
        Some(n) => n,
        None => 0,
    }
}

/// What the bytes that came make of the next request.
pub enum Frame {
    /// Its headers have not ended.
    Incomplete,
    /// It asks for no score, and ends here.
    Other(nat),
    /// It asks for a score; its body begins and ends here.
    Post(nat, nat),
    /// It gives a length that is out of range.
    OutOfRange,
}

/// The next request among the bytes that came.
pub open spec fn frame(s: Seq<u8>) -> Frame {
    match marker_from(s, 0) {
        Some(h) => {
            let head = s.subrange(0, h as int);
            if !is_length_in_range(head) {
                Frame::OutOfRange
            } else if has_text_at(head, 0, "POST "@) {
                Frame::Post(h + 4, h + 4 + body_length(head))
            } else {
                Frame::Other(h + 4)
            }
        },
        None => Frame::Incomplete,
    }
}

/// What a request asks for.
pub enum Ask {
    /// The score of a body.
    Score(Seq<u8>),
    /// Whether the service is ready.
    Ready,
}

/// What the first request among the bytes that came asks for, and where it ends, if it is
/// there as a whole.
pub open spec fn first_ask(s: Seq<u8>) -> Option<(Ask, nat)> {
    match frame(s) {
        Frame::Other(end) => Some((Ask::Ready, end)),
        Frame::Post(body, end) => if end <= s.len() {
            Some((Ask::Score(s.subrange(body as int, end as int)), end))
        } else {
            None
        },
        _ => None,
    }
}

/// What the requests among the bytes that came ask for, one after the other.
pub open spec fn asks(s: Seq<u8>) -> Seq<Ask>
    decreases s.len(),
{
    match first_ask(s) {
        Some((ask, end)) => {
            proof {
                lemma_first_ask(s);
            }
            seq![ask] + asks(s.subrange(end as int, s.len() as int))
        },
        None => Seq::empty(),
    }
}

/// The method of a request, as far as it matters.
#[derive(Clone, Copy, PartialEq, Eq, Structural, Debug)]
pub enum Method {
    Post,
    Other,
}

/// Where the headers end.
pub fn find_headers_end(buf: &[u8]) -> (r: Option<usize>)
    ensures
        r is Some == marker_from(buf@, 0) is Some,
        r matches Some(i) ==> marker_from(buf@, 0) == Some(i as nat),
{
    if buf.len() < 4 {
        return None;
    }
    memchr_end(buf)
}

/// Where the headers end.
pub fn memchr_end(buf: &[u8]) -> (r: Option<usize>)
    ensures
        r is Some == marker_from(buf@, 0) is Some,
        r matches Some(i) ==> marker_from(buf@, 0) == Some(i as nat),
{
    let mut i: usize = 0;
    let end: usize = if buf.len() < 3 {
        0
    } else {
        buf.len() - 3
    };
    while i < end
        invariant
            i <= end <= buf@.len(),
            end == if buf@.len() < 3 {
                0
            } else {
                buf@.len() - 3
            },
            marker_from(buf@, i as nat) == marker_from(buf@, 0),
        decreases end - i,
    {
        if buf[i] == '\r' as u8 && buf[i + 1] == '\n' as u8 && buf[i + 2] == '\r' as u8 && buf[i
            + 3] == '\n' as u8 {
            return Some(i);
        }
        i = i + 1;
    }
    None
}

fn lower_case(b: u8) -> (r: u8)
    ensures
        r == lower(b),
{
    if 'A' as u8 <= b && b <= 'Z' as u8 {
        b + 32
    } else {
        b
    }
}

/// Whether the length header stands at `i`.
fn check_length_header(headers: &[u8], i: usize) -> (r: bool)
    requires
        i + "Content-Length:"@.len() <= headers@.len(),
    ensures
        r == name_at(headers@, i as int, "Content-Length:"@),
{
    let name = "Content-Length:";
    proof {
        reveal_strlit("Content-Length:");
        vstd::string::is_ascii_spec_bytes(name);
    }
    let bytes: &[u8] = name.as_bytes();
    let len: usize = headers.len();
    let mut k: usize = 0;
    while k < bytes.len()
        invariant
            i + bytes@.len() <= headers@.len() == len,
            k <= bytes@.len(),
            bytes@.len() == name@.len(),
            name@ == "Content-Length:"@,
            forall|j: int| 0 <= j < bytes@.len() ==> bytes@[j] == #[trigger] name@[j] as u8,
            forall|j: int|
                0 <= j < k ==> lower(#[trigger] headers@[i + j]) == lower(name@[j] as u8),
        decreases bytes@.len() - k,
    {
        assert(bytes@[k as int] == name@[k as int] as u8);
        if lower_case(headers[i + k]) != lower_case(bytes[k]) {
            assert(lower(headers@[i + k]) != lower(name@[k as int] as u8));
            return false;
        }
        k = k + 1;
    }
    true
}

/// Where the digits of the first length header begin and end.
fn find_length_digits(headers: &[u8]) -> (r: (usize, usize))
    ensures
        r.0 <= r.1 <= headers@.len(),
        headers@.subrange(r.0 as int, r.1 as int) == length_digits(headers@),
{
    proof {
        reveal_strlit("Content-Length:");
    }
    let ghost s = headers@;
    let len: usize = headers.len();
    let mut i: usize = 0;
    while len - i >= 15
        invariant
            s == headers@,
            len == s.len(),
            i <= len,
            "Content-Length:"@.len() == 15,
            length_header_from(s, i as nat) == length_header_from(s, 0),
        decreases len - i,
    {
        if check_length_header(headers, i) {
            let mut j: usize = i + 15;
            while j < headers.len() && (headers[j] == ' ' as u8 || headers[j] == '\t' as u8)
                invariant
                    s == headers@,
                    i + 15 <= j <= s.len(),
                    spaces_end(s, j as nat) == spaces_end(s, (i + 15) as nat),
                decreases s.len() - j,
            {
                j = j + 1;
            }
            let from: usize = j;
            while j < headers.len() && check_digit(headers[j])
                invariant
                    s == headers@,
                    from <= j <= s.len(),
                    digits_end(s, j as nat) == digits_end(s, from as nat),
                decreases s.len() - j,
            {
                j = j + 1;
            }
            return (from, j);
        }
        i = i + 1;
    }
    assert(s.subrange(0, 0) =~= Seq::empty());
    (0, 0)
}

/// Reads digits into a number, if it is one of this machine.
fn read_digits(digits: &[u8]) -> (r: Option<usize>)
    requires
        forall|k: int| 0 <= k < digits@.len() ==> crate::text::is_digit(#[trigger] digits@[k]),
    ensures
        r is Some == (number(digits@) <= usize::MAX),
        r matches Some(n) ==> n == number(digits@),
{
    let mut v: usize = 0;
    let mut i: usize = 0;
    assert(digits@.subrange(0, 0) =~= Seq::empty());
    while i < digits.len()
        invariant
            i <= digits@.len(),
            v == number(digits@.subrange(0, i as int)),
            forall|k: int| 0 <= k < digits@.len() ==> crate::text::is_digit(#[trigger] digits@[k]),
        decreases digits@.len() - i,
    {
        let digit: usize = (digits[i] - '0' as u8) as usize;
        proof {
            let next = digits@.subrange(0, i + 1);
            assert(next.drop_last() =~= digits@.subrange(0, i as int));
            crate::calendar::lemma_number_prefix(digits@, i + 1);
        }
        if v > usize::MAX / 10 || v * 10 > usize::MAX - digit {
            return None;
        }
        v = v * 10 + digit;
        i = i + 1;
    }
    assert(digits@.subrange(0, i as int) =~= digits@);
    Some(v)
}

proof fn lemma_length_digits(s: Seq<u8>)
    ensures
        forall|k: int|
            0 <= k < length_digits(s).len() ==> crate::text::is_digit(#[trigger] length_digits(s)[k]),
{
    if let Some(i) = length_header_from(s, 0) {
        let j = spaces_end(s, i + "Content-Length:"@.len());
        lemma_header_in(s, 0);
        lemma_spaces_end(s, i + "Content-Length:"@.len());
        lemma_digits_end(s, j);
    }
}

proof fn lemma_header_in(s: Seq<u8>, i: nat)
    ensures
        length_header_from(s, i) matches Some(j) ==> i <= j && j + "Content-Length:"@.len()
            <= s.len(),
    decreases s.len() - i,
{
    reveal_strlit("Content-Length:");
    if i + "Content-Length:"@.len() <= s.len() && !name_at(s, i as int, "Content-Length:"@) {
        lemma_header_in(s, i + 1);
    }
}

proof fn lemma_spaces_end(s: Seq<u8>, i: nat)
    requires
        i <= s.len(),
    ensures
        i <= spaces_end(s, i) <= s.len(),
    decreases s.len() - i,
{
    if i < s.len() && (s[i as int] == ' ' as u8 || s[i as int] == '\t' as u8) {
        lemma_spaces_end(s, i + 1);
    }
}

/// Whether the length that the headers give is a number of this machine.
pub fn check_length_in_range(headers: &[u8]) -> (r: bool)
    ensures
        r == is_length_in_range(headers@),
{
    let (from, to) = find_length_digits(headers);
    proof {
        lemma_length_digits(headers@);
    }
    from == to || read_digits(&headers[from..to]).is_some()
}

/// The length that the headers give.
pub fn find_content_length(headers: &[u8]) -> (r: Option<usize>)
    requires
        is_length_in_range(headers@),
    ensures
        r is Some == content_length(headers@) is Some,
        r matches Some(n) ==> content_length(headers@) == Some(n as nat),
{
    let (from, to) = find_length_digits(headers);
    proof {
        lemma_length_digits(headers@);
    }
    if from == to {
        None
    } else {
        read_digits(&headers[from..to])
    }
}

/// The method of a request and the length of its body.
pub fn parse_request_head(headers: &[u8]) -> (r: (Method, usize))
    requires
        is_length_in_range(headers@),
    ensures
        r.0 == if has_text_at(headers@, 0, "POST "@) {
            Method::Post
        } else {
            Method::Other
        },
        r.1 == body_length(headers@),
{
    proof {
        reveal_strlit("POST ");
    }
    let method: Method = if starts_with_at(headers, 0, "POST ") {
        Method::Post
    } else {
        Method::Other
    };
    let length: usize = match find_content_length(headers) {
        Some(n) => n,
        None => 0,
    };
    (method, length)
}

/// What a connection needs next.
pub enum Step {
    /// To read up to so many bytes.
    Read { room: usize },
    /// To answer with the score of the body between two positions of the buffer.
    Score { from: usize, to: usize },
    /// To answer that the service is ready; the request ends at this position.
    Ready { to: usize },
    /// To be closed.
    Close,
}

/// A connection: a buffer, the part of it that holds bytes not yet answered, and what has
/// come and been answered in all.
pub struct Connection {
    pub buf: Vec<u8>,
    pub start: usize,
    pub filled: usize,
    pub came: Ghost<Seq<u8>>,
    pub done: Ghost<Seq<Ask>>,
}

impl Connection {
    /// The bytes are within the buffer. What all bytes that came ask for, in order, is what
    /// has been answered and then what the bytes not yet answered ask for, whatever comes
    /// later.
    pub open spec fn wf(self) -> bool {
        &&& self.start <= self.filled <= self.buf@.len()
        &&& forall|later: Seq<u8>| #[trigger]
            asks(self.stream() + later) == self.answered() + asks(self.pending() + later)
    }

    /// All bytes that came, whatever pieces they came in.
    pub open spec fn stream(self) -> Seq<u8> {
        self.came@
    }

    /// What has been answered, one after the other.
    pub open spec fn answered(self) -> Seq<Ask> {
        self.done@
    }

    /// The bytes not yet answered.
    pub open spec fn pending(self) -> Seq<u8> {
        self.buf@.subrange(self.start as int, self.filled as int)
    }

    /// A connection on which nothing has come yet.
    pub fn new() -> (r: Connection)
        ensures
            r.wf(),
            r.pending() == Seq::<u8>::empty(),
            r.stream() == Seq::<u8>::empty(),
            r.answered() == Seq::<Ask>::empty(),
            r.start == 0,
            r.buf@.len() == INITIAL_BUFFER,
    {
        let buf: Vec<u8> = vec![0u8;INITIAL_BUFFER];
        let r = Connection {
            buf,
            start: 0,
            filled: 0,
            came: Ghost(Seq::empty()),
            done: Ghost(Seq::empty()),
        };
        assert(r.pending() =~= Seq::empty());
        assert forall|later: Seq<u8>| #[trigger] asks(r.stream() + later) == r.answered() + asks(
            r.pending() + later,
        ) by {
            assert(r.answered() + asks(later) =~= asks(later));
        }
        r
    }

    /// Moves the bytes to the beginning of the buffer.
    fn compact(&mut self)
        requires
            old(self).wf(),
        ensures
            final(self).wf(),
            final(self).pending() == old(self).pending(),
            final(self).came == old(self).came,
            final(self).done == old(self).done,
            final(self).start == 0,
            final(self).buf@.len() == old(self).buf@.len(),
    {
        let ghost all = self.buf@;
        let ghost kept = self.pending();
        let n: usize = self.filled - self.start;
        let start: usize = self.start;
        let mut i: usize = 0;
        while i < n
            invariant
                n == old(self).filled - start,
                start == old(self).start,
                old(self).wf(),
                i <= n,
                all == old(self).buf@,
                self.buf@.len() == all.len(),
                self.filled == old(self).filled,
                self.came == old(self).came,
                self.done == old(self).done,
                forall|k: int| 0 <= k < i ==> #[trigger] self.buf@[k] == all[start + k],
                forall|k: int| i <= k < all.len() ==> #[trigger] self.buf@[k] == all[k],
            decreases n - i,
        {
            let b: u8 = self.buf[start + i];
            self.buf.set(i, b);
            i = i + 1;
        }
        self.filled = n;
        self.start = 0;
        proof {
            assert(self.pending() =~= kept);
            lemma_same_asks(*old(self), *self);
        }
    }

    /// What comes next. A full buffer is made larger if the next request needs it: by what
    /// was answered, or to twice its size, or to the end of the request. To read comes only
    /// when every request that came has been answered.
    pub fn step(&mut self) -> (r: Step)
        requires
            old(self).wf(),
        ensures
            final(self).wf(),
            final(self).pending() == old(self).pending(),
            final(self).stream() == old(self).stream(),
            final(self).answered() == old(self).answered(),
            r is Read ==> final(self).answered() == asks(final(self).stream()),
            r is Read ==> first_ask(old(self).pending()) is None,
            r matches Step::Score { from, to } ==> old(self).start <= from <= to && first_ask(
                old(self).pending(),
            ) == Some(
                (
                    Ask::Score(
                        old(self).pending().subrange(
                            from - old(self).start,
                            to - old(self).start,
                        ),
                    ),
                    (to - old(self).start) as nat,
                ),
            ),
            r matches Step::Ready { to } ==> old(self).start <= to && first_ask(
                old(self).pending(),
            ) == Some((Ask::Ready, (to - old(self).start) as nat)),
            match frame(old(self).pending()) {
                Frame::Incomplete => if old(self).filled < old(self).buf@.len() {
                    &&& *final(self) == *old(self)
                    &&& r == Step::Read { room: (old(self).buf@.len() - old(self).filled) as usize }
                } else if old(self).start > 0 {
                    &&& final(self).start == 0
                    &&& final(self).buf@.len() == old(self).buf@.len()
                    &&& r == Step::Read { room: old(self).start }
                } else if 2 * old(self).buf@.len() <= usize::MAX && old(self).buf@.len() > 0 {
                    &&& final(self).start == 0
                    &&& final(self).buf@.len() == 2 * old(self).buf@.len()
                    &&& r == Step::Read { room: old(self).buf@.len() as usize }
                } else {
                    r == Step::Close
                },
                Frame::Other(end) => {
                    &&& *final(self) == *old(self)
                    &&& r == Step::Ready { to: (old(self).start + end) as usize }
                },
                Frame::Post(body, end) => if old(self).start + end > usize::MAX {
                    r == Step::Close
                } else if end <= old(self).pending().len() {
                    &&& *final(self) == *old(self)
                    &&& r == Step::Score {
                        from: (old(self).start + body) as usize,
                        to: (old(self).start + end) as usize,
                    }
                } else {
                    &&& final(self).start == old(self).start
                    &&& final(self).buf@.len() == if old(self).start + end
                        > old(self).buf@.len() {
                        old(self).start + end
                    } else {
                        old(self).buf@.len() as int
                    }
                    &&& r == Step::Read {
                        room: (final(self).buf@.len() - final(self).filled) as usize,
                    }
                    &&& final(self).filled < final(self).buf@.len()
                },
                Frame::OutOfRange => r == Step::Close,
            },
    {
        let ghost s = self.pending();
        proof {
            lemma_asks(*self);
        }
        let len: usize = self.buf.len();
        let found = find_headers_end(&self.buf.as_slice()[self.start..self.filled]);
        let h: usize = match found {
            Some(h) => h,
            None => {
                if self.filled < len {
                    return Step::Read { room: len - self.filled };
                }
                if self.start > 0 {
                    let room: usize = self.start;
                    self.compact();
                    return Step::Read { room };
                }
                if len == 0 || len > usize::MAX / 2 {
                    return Step::Close;
                }
                self.buf.resize(2 * len, 0);
                assert(self.pending() =~= s);
                return Step::Read { room: len };
            },
        };
        proof {
            lemma_marker(s, 0);
        }
        let head: &[u8] = &self.buf.as_slice()[self.start..self.start + h];
        assert(head@ =~= s.subrange(0, h as int));
        if !check_length_in_range(head) {
            return Step::Close;
        }
        let (method, length) = parse_request_head(head);
        let body: usize = self.start + h + 4;
        if method == Method::Post {
            if length > usize::MAX - body {
                return Step::Close;
            }
            let total: usize = body + length;
            if total <= self.filled {
                return Step::Score { from: body, to: total };
            }
            if total > len {
                self.buf.resize(total, 0);
                assert(self.pending() =~= s);
            }
            Step::Read { room: self.buf.len() - self.filled }
        } else {
            Step::Ready { to: body }
        }
    }

    /// Takes bytes that came.
    pub fn received(&mut self, bytes: &[u8])
        requires
            old(self).wf(),
            bytes@.len() <= old(self).buf@.len() - old(self).filled,
        ensures
            final(self).wf(),
            final(self).pending() == old(self).pending() + bytes@,
            final(self).stream() == old(self).stream() + bytes@,
            final(self).answered() == old(self).answered(),
            final(self).start == old(self).start,
            final(self).buf@.len() == old(self).buf@.len(),
    {
        let ghost s = self.pending();
        let filled: usize = self.filled;
        let len: usize = self.buf.len();
        let mut i: usize = 0;
        while i < bytes.len()
            invariant
                i <= bytes@.len(),
                old(self).wf(),
                filled == old(self).filled,
                self.filled == filled,
                self.start == old(self).start,
                self.came == old(self).came,
                self.done == old(self).done,
                self.buf@.len() == old(self).buf@.len() == len,
                filled + bytes@.len() <= len,
                forall|k: int| 0 <= k < filled ==> #[trigger] self.buf@[k] == old(self).buf@[k],
                forall|k: int| filled <= k < filled + i ==> #[trigger] self.buf@[k] == bytes@[k - filled],
            decreases bytes@.len() - i,
        {
            self.buf.set(filled + i, bytes[i]);
            i = i + 1;
        }
        self.filled = filled + bytes.len();
        let ghost stream = self.stream();
        self.came = Ghost(stream + bytes@);
        proof {
            assert(self.pending() =~= s + bytes@);
            assert forall|later: Seq<u8>| #[trigger] asks(self.stream() + later)
                == self.answered() + asks(self.pending() + later) by {
                let all = bytes@ + later;
                assert(self.stream() + later =~= stream + all);
                assert(self.pending() + later =~= s + all);
                assert(asks(old(self).stream() + all) == old(self).answered() + asks(
                    old(self).pending() + all,
                ));
            }
        }
    }

    /// The bytes between two positions of the buffer.
    pub fn body(&self, from: usize, to: usize) -> (r: &[u8])
        requires
            self.wf(),
            self.start <= from <= to <= self.filled,
        ensures
            r@ == self.pending().subrange(from - self.start, to - self.start),
    {
        let r: &[u8] = &self.buf.as_slice()[from..to];
        assert(r@ =~= self.pending().subrange(from - self.start, to - self.start));
        r
    }

    /// Drops the request that ends at `to`, which has been answered.
    pub fn finish(&mut self, to: usize)
        requires
            old(self).wf(),
            first_ask(old(self).pending()) matches Some((_, end)) && to == old(self).start + end,
        ensures
            final(self).wf(),
            final(self).pending() == old(self).pending().subrange(
                to - old(self).start,
                old(self).pending().len() as int,
            ),
            final(self).stream() == old(self).stream(),
            final(self).answered() == old(self).answered().push(
                first_ask(old(self).pending()).unwrap().0,
            ),
            final(self).buf == old(self).buf,
            final(self).start == if to == old(self).filled {
                0
            } else {
                to as int
            },
    {
        let ghost s = self.pending();
        let ghost rest = s.subrange(to - self.start, s.len() as int);
        let ghost before = self.answered();
        let ghost ask = first_ask(s).unwrap().0;
        proof {
            lemma_first_ask(s);
        }
        if to == self.filled {
            self.start = 0;
            self.filled = 0;
        } else {
            self.start = to;
        }
        self.done = Ghost(before.push(ask));
        proof {
            assert(self.pending() =~= rest);
            assert forall|later: Seq<u8>| #[trigger] asks(self.stream() + later)
                == self.answered() + asks(self.pending() + later) by {
                lemma_next_ask(s, later);
                assert(asks(old(self).stream() + later) == before + asks(s + later));
                assert(before + (seq![ask] + asks(rest + later)) =~= before.push(ask) + asks(
                    rest + later,
                ));
            }
        }
    }
}

pub proof fn lemma_first_ask(s: Seq<u8>)
    ensures
        first_ask(s) matches Some((_, end)) ==> 0 < end <= s.len(),
{
    lemma_marker(s, 0);
}

/// The first request, and then the others.
proof fn lemma_next_ask(s: Seq<u8>, later: Seq<u8>)
    requires
        first_ask(s) is Some,
    ensures
        ({
            let (ask, end) = first_ask(s).unwrap();
            asks(s + later) == seq![ask] + asks(s.subrange(end as int, s.len() as int) + later)
        }),
{
    let (ask, end) = first_ask(s).unwrap();
    let all = s + later;
    lemma_first_ask(s);
    lemma_marker(s, 0);
    law_framing_looks_at_one_request(s, later);
    if let Frame::Post(body, _) = frame(s) {
        assert(body <= end);
        assert(all.subrange(body as int, end as int) =~= s.subrange(body as int, end as int));
    }
    assert(first_ask(all) == Some((ask, end)));
    assert(all.subrange(end as int, all.len() as int) =~= s.subrange(end as int, s.len() as int)
        + later);
}

/// Connections with the same bytes and answers ask for the same.
proof fn lemma_same_asks(a: Connection, b: Connection)
    requires
        a.wf(),
        b.start <= b.filled <= b.buf@.len(),
        a.stream() == b.stream(),
        a.answered() == b.answered(),
        a.pending() == b.pending(),
    ensures
        b.wf(),
{
    assert forall|later: Seq<u8>| #[trigger] asks(b.stream() + later) == b.answered() + asks(
        b.pending() + later,
    ) by {
        assert(asks(a.stream() + later) == a.answered() + asks(a.pending() + later));
    }
}

/// What all bytes that came ask for so far.
proof fn lemma_asks(c: Connection)
    requires
        c.wf(),
    ensures
        asks(c.stream()) == c.answered() + asks(c.pending()),
{
    let none = Seq::<u8>::empty();
    assert(c.stream() + none =~= c.stream());
    assert(c.pending() + none =~= c.pending());
    assert(asks(c.stream() + none) == c.answered() + asks(c.pending() + none));
}

/// The bytes of several requests, one after the other.
pub open spec fn in_a_row(requests: Seq<Seq<u8>>) -> Seq<u8>
    decreases requests.len(),
{
    if requests.len() == 0 {
        Seq::empty()
    } else {
        requests[0] + in_a_row(requests.drop_first())
    }
}

/// A stream of requests asks for what they ask for, one after the other; the beginning of a
/// request behind them asks for nothing. It is the stream that counts, not the pieces it
/// comes in: a connection has answered exactly this whenever it is to read more.
pub proof fn law_stream_asks_in_order(requests: Seq<Seq<u8>>, tail: Seq<u8>)
    requires
        forall|i: int|
            0 <= i < requests.len() ==> (#[trigger] first_ask(requests[i]) matches Some((_, end))
                && end == requests[i].len()),
        first_ask(tail) is None,
    ensures
        asks(in_a_row(requests) + tail) == Seq::new(
            requests.len(),
            |i: int| first_ask(requests[i]).unwrap().0,
        ),
    decreases requests.len(),
{
    let expected = Seq::new(requests.len(), |i: int| first_ask(requests[i]).unwrap().0);
    if requests.len() == 0 {
        assert(in_a_row(requests) + tail =~= tail);
        assert(asks(tail) =~= expected);
    } else {
        let rest = requests.drop_first();
        let r = requests[0];
        assert forall|i: int| 0 <= i < rest.len() implies (#[trigger] first_ask(
            rest[i],
        ) matches Some((_, end)) && end == rest[i].len()) by {
            assert(rest[i] == requests[i + 1]);
            assert(first_ask(requests[i + 1]) is Some);
        }
        law_stream_asks_in_order(rest, tail);
        let later = in_a_row(rest) + tail;
        assert(in_a_row(requests) + tail =~= r + later);
        assert(first_ask(requests[0]) is Some);
        lemma_next_ask(r, later);
        assert(r.subrange(r.len() as int, r.len() as int) + later =~= later);
        assert(asks(r + later) =~= expected);
    }
}

proof fn lemma_marker(s: Seq<u8>, i: nat)
    ensures
        marker_from(s, i) matches Some(h) ==> i <= h && marker_at(s, h as int),
        marker_from(s, i) matches Some(h) ==> h + 4 <= s.len(),
    decreases s.len() - i,
{
    if i + 4 <= s.len() && !marker_at(s, i as int) {
        lemma_marker(s, i + 1);
    }
}

proof fn lemma_marker_stays(s: Seq<u8>, t: Seq<u8>, i: nat)
    ensures
        marker_from(s, i) is Some ==> marker_from(s + t, i) == marker_from(s, i),
    decreases s.len() - i,
{
    if i + 4 <= s.len() {
        assert(marker_at(s + t, i as int) == marker_at(s, i as int));
        if !marker_at(s, i as int) {
            lemma_marker_stays(s, t, i + 1);
        }
    }
}

/// The first empty line is at `h` where there is one and none before it.
pub proof fn lemma_first_marker(s: Seq<u8>, i: nat, h: nat)
    requires
        i <= h,
        marker_at(s, h as int),
        forall|j: int| i <= j < h ==> !marker_at(s, j),
    ensures
        marker_from(s, i) == Some(h),
    decreases h - i,
{
    if i < h {
        lemma_first_marker(s, i + 1, h);
    }
}

/// The first length header is at `p` where there is one and none before it.
pub proof fn lemma_first_length_header(s: Seq<u8>, i: nat, p: nat)
    requires
        i <= p,
        name_at(s, p as int, "Content-Length:"@),
        forall|j: int| i <= j < p ==> !name_at(s, j, "Content-Length:"@),
    ensures
        length_header_from(s, i) == Some(p),
    decreases p - i,
{
    if i < p {
        lemma_first_length_header(s, i + 1, p);
    }
}

/// A request is the same whatever follows it: bytes that come later do not change where it
/// ends, nor what it asks.
pub proof fn law_framing_looks_at_one_request(s: Seq<u8>, later: Seq<u8>)
    requires
        frame(s) !is Incomplete,
    ensures
        frame(s + later) == frame(s),
{
    lemma_marker_stays(s, later, 0);
    lemma_marker(s, 0);
    if let Some(h) = marker_from(s, 0) {
        assert((s + later).subrange(0, h as int) =~= s.subrange(0, h as int));
    }
}

} // verus!
