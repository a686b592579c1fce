//! How requests are told apart on a connection: by an empty line and the length that the
//! headers give.

use vstd::prelude::*;

use crate::http::{
    asks, content_length, first_ask, frame, lemma_first_length_header, lemma_first_marker,
    length_header_from, lower, marker_at, marker_from, name_at, spaces_end, Ask, Frame,
};
use crate::text::{digits_end, has_text_at, is_digit, number};

verus! {

/// Whether a byte is a letter or another character, in upper or lower case.
pub open spec fn is_same_letter(b: u8, c: u8) -> bool {
    ||| b == c
    ||| 65 <= b <= 90 && b + 32 == c
    ||| 97 <= b <= 122 && b - 32 == c
}

/// Whether the name of the length header stands at `p`, in upper or lower case.
pub open spec fn names_length(s: Seq<u8>, p: int) -> bool {
    let name = "Content-Length:"@;
    &&& 0 <= p
    &&& p + 15 <= s.len()
    &&& forall|k: int| 0 <= k < 15 ==> is_same_letter(#[trigger] s[p + k], name[k] as u8)
}

/// Whether the first length header stands at `p`, and behind it, after spaces and tabs, the
/// digits from `from` to `to` and no further one.
pub open spec fn gives_length(s: Seq<u8>, p: int, from: int, to: int) -> bool {
    &&& names_length(s, p)
    &&& forall|j: int| 0 <= j < p ==> !(#[trigger] names_length(s, j))
    &&& p + 15 <= from <= to <= s.len()
    &&& forall|k: int| p + 15 <= k < from ==> (#[trigger] s[k] == 32 || s[k] == 9)
    &&& forall|k: int| from <= k < to ==> 48 <= #[trigger] s[k] <= 57
    &&& to == s.len() || !(48 <= s[to] <= 57)
    &&& from == to ==> to == s.len() || (s[to] != 32 && s[to] != 9)
}

proof fn lemma_same_letter(b: u8, c: u8)
    ensures
        (lower(b) == lower(c)) == is_same_letter(b, c),
{
}

proof fn lemma_names_length(s: Seq<u8>, p: int)
    requires
        0 <= p,
    ensures
        names_length(s, p) == name_at(s, p, "Content-Length:"@),
{
    reveal_strlit("Content-Length:");
    let name = "Content-Length:"@;
    assert forall|k: int| 0 <= k < 15 implies (lower(#[trigger] s[p + k]) == lower(name[k] as u8))
        == is_same_letter(s[p + k], name[k] as u8) by {
        lemma_same_letter(s[p + k], name[k] as u8);
    }
}

proof fn lemma_spaces(s: Seq<u8>, i: nat, j: nat)
    requires
        i <= j <= s.len(),
        forall|k: int| i <= k < j ==> (#[trigger] s[k] == 32 || s[k] == 9),
        j == s.len() || (s[j as int] != 32 && s[j as int] != 9),
    ensures
        spaces_end(s, i) == j,
    decreases j - i,
{
    if i < j {
        assert(s[i as int] == 32 || s[i as int] == 9);
        lemma_spaces(s, i + 1, j);
    }
}

pub proof fn lemma_digits(s: Seq<u8>, i: nat, j: nat)
    requires
        i <= j <= s.len(),
        forall|k: int| i <= k < j ==> 48 <= #[trigger] s[k] <= 57,
        j == s.len() || !(48 <= s[j as int] <= 57),
    ensures
        digits_end(s, i) == j,
    decreases j - i,
{
    if i < j {
        assert(is_digit(s[i as int]));
        lemma_digits(s, i + 1, j);
    }
}

proof fn lemma_no_header(s: Seq<u8>, i: nat)
    requires
        forall|j: int| i <= j ==> !(#[trigger] names_length(s, j)),
    ensures
        length_header_from(s, i) is None,
    decreases s.len() - i,
{
    reveal_strlit("Content-Length:");
    if i + "Content-Length:"@.len() <= s.len() {
        lemma_names_length(s, i as int);
        assert(!names_length(s, i as int));
        lemma_no_header(s, i + 1);
    }
}

/// The length is found wherever its header stands: the number that the digits behind the
/// first length header write, however far into the headers it is and in whatever case its
/// name is written. Without a length header, or without digits behind the first one, the
/// headers give no length.
pub proof fn law_length_is_found_anywhere(s: Seq<u8>, p: int, from: int, to: int)
    ensures
        gives_length(s, p, from, to) && from < to ==> content_length(s) == Some(
            number(s.subrange(from, to)),
        ),
        gives_length(s, p, from, to) && from == to ==> content_length(s) is None,
        (forall|j: int| 0 <= j ==> !(#[trigger] names_length(s, j))) ==> content_length(s) is None,
{
    reveal_strlit("Content-Length:");
    if gives_length(s, p, from, to) {
        lemma_names_length(s, p);
        assert forall|j: int| 0 <= j < p implies !name_at(s, j, "Content-Length:"@) by {
            lemma_names_length(s, j);
            assert(!names_length(s, j));
        }
        lemma_first_length_header(s, 0, p as nat);
        lemma_spaces(s, (p + 15) as nat, from as nat);
        lemma_digits(s, from as nat, to as nat);
    }
    if forall|j: int| 0 <= j ==> !(#[trigger] names_length(s, j)) {
        lemma_no_header(s, 0);
    }
}

/// Whether an empty line stands at `i`: the ends of two lines, one behind the other.
pub open spec fn is_empty_line(s: Seq<u8>, i: int) -> bool {
    0 <= i && i + 4 <= s.len() && s[i] == 13 && s[i + 1] == 10 && s[i + 2] == 13 && s[i + 3] == 10
}

/// The bytes of a request: its headers, an empty line, its body.
pub open spec fn request_text(head: Seq<u8>, body: Seq<u8>) -> Seq<u8> {
    head + seq![13u8, 10u8, 13u8, 10u8] + body
}

/// Whether headers hold no empty line, nor begin one that ends behind them.
pub open spec fn are_headers(head: Seq<u8>) -> bool {
    let ended = request_text(head, Seq::empty());
    forall|i: int| 0 <= i < head.len() ==> !(#[trigger] is_empty_line(ended, i))
}

/// Whether headers begin with the method `POST`.
pub open spec fn is_post(head: Seq<u8>) -> bool {
    head.len() >= 5 && head[0] == 'P' as u8 && head[1] == 'O' as u8 && head[2] == 'S' as u8
        && head[3] == 'T' as u8 && head[4] == ' ' as u8
}

proof fn lemma_is_post(head: Seq<u8>)
    ensures
        is_post(head) == has_text_at(head, 0, "POST "@),
{
    reveal_strlit("POST ");
    let text = "POST "@;
    if is_post(head) {
        assert(head.subrange(0, 5) =~= crate::text::ascii(text));
    }
    if has_text_at(head, 0, text) {
        let t = crate::text::ascii(text);
        assert(head.subrange(0, 5) == t);
        assert(head[0] == t[0] && head[1] == t[1] && head[2] == t[2] && head[3] == t[3] && head[4]
            == t[4]) by {
            assert(head.subrange(0, 5)[0] == t[0]);
            assert(head.subrange(0, 5)[1] == t[1]);
            assert(head.subrange(0, 5)[2] == t[2]);
            assert(head.subrange(0, 5)[3] == t[3]);
            assert(head.subrange(0, 5)[4] == t[4]);
        }
    }
}

/// The headers end at the first empty line.
proof fn lemma_head_of(head: Seq<u8>, rest: Seq<u8>)
    requires
        are_headers(head),
    ensures
        marker_from(request_text(head, rest), 0) == Some(head.len()),
        request_text(head, rest).subrange(0, head.len() as int) == head,
{
    let s = request_text(head, rest);
    let t = request_text(head, Seq::empty());
    let h = head.len() as int;
    assert(s[h] == 13 && s[h + 1] == 10 && s[h + 2] == 13 && s[h + 3] == 10);
    assert(marker_at(s, h));
    assert forall|j: int| 0 <= j < h implies !marker_at(s, j) by {
        assert(!is_empty_line(t, j));
        assert(s[j] == t[j] && s[j + 1] == t[j + 1] && s[j + 2] == t[j + 2] && s[j + 3] == t[j + 3]);
    }
    lemma_first_marker(s, 0, head.len());
    assert(s.subrange(0, h) =~= head);
}

/// A posted body is cut out as it is, whatever its length and whatever follows it: the bytes
/// behind the empty line, as many as the headers say, are to be scored, and the next request
/// begins behind them. As long as some of them have not come, nothing is asked.
pub proof fn law_posted_body_is_cut_out(
    head: Seq<u8>,
    p: int,
    from: int,
    to: int,
    body: Seq<u8>,
    later: Seq<u8>,
    n: int,
)
    requires
        are_headers(head),
        is_post(head),
        gives_length(head, p, from, to),
        from < to,
        number(head.subrange(from, to)) == body.len(),
        body.len() <= usize::MAX,
        0 <= n <= body.len(),
    ensures
        first_ask(request_text(head, body) + later) == Some(
            (Ask::Score(body), head.len() + 4 + body.len()),
        ),
        n < body.len() ==> first_ask(request_text(head, body.take(n))) is None,
{
    let s = request_text(head, body) + later;
    let part = request_text(head, body.take(n));
    let h = head.len();
    assert(s =~= request_text(head, body + later));
    lemma_head_of(head, body + later);
    lemma_head_of(head, body.take(n));
    lemma_is_post(head);
    law_length_is_found_anywhere(head, p, from, to);
    assert(content_length(head) == Some(body.len()));
    assert(frame(s) == Frame::Post(h + 4, h + 4 + body.len()));
    assert(s.subrange((h + 4) as int, (h + 4 + body.len()) as int) =~= body);
    assert(frame(part) == Frame::Post(h + 4, h + 4 + body.len()));
}

/// A post without a length has an empty body, and a request by another method asks whether
/// the service is ready; both end at the empty line. Without an empty line there is no
/// request yet.
pub proof fn law_other_requests_end_at_the_empty_line(head: Seq<u8>, later: Seq<u8>, s: Seq<u8>)
    requires
        are_headers(head),
    ensures
        is_post(head) && content_length(head) is None ==> first_ask(
            request_text(head, Seq::empty()) + later,
        ) == Some((Ask::Score(Seq::empty()), head.len() + 4)),
        !is_post(head) && (content_length(head) matches Some(n) ==> n <= usize::MAX) ==> first_ask(
            request_text(head, Seq::empty()) + later,
        ) == Some((Ask::Ready, head.len() + 4)),
        (content_length(head) matches Some(n) && n > usize::MAX) ==> first_ask(
            request_text(head, Seq::empty()) + later,
        ) is None,
        (forall|i: int| 0 <= i ==> !(#[trigger] is_empty_line(s, i))) ==> first_ask(s) is None,
{
    let none = Seq::<u8>::empty();
    let all = request_text(head, none) + later;
    assert(all =~= request_text(head, later));
    lemma_head_of(head, later);
    lemma_is_post(head);
    let h = head.len() as int;
    assert(all.subrange(h + 4, h + 4) =~= none);
    if forall|i: int| 0 <= i ==> !(#[trigger] is_empty_line(s, i)) {
        lemma_no_marker(s, 0);
    }
}

proof fn lemma_no_marker(s: Seq<u8>, i: nat)
    requires
        forall|j: int| i <= j ==> !(#[trigger] is_empty_line(s, j)),
    ensures
        marker_from(s, i) is None,
    decreases s.len() - i,
{
    if i + 4 <= s.len() {
        assert(!is_empty_line(s, i as int));
        lemma_no_marker(s, i + 1);
    }
}

/// What a stream asks comes one request after the other: the first one, and then what the
/// bytes behind it ask; nothing where no request is there as a whole.
pub proof fn law_stream_is_taken_request_by_request(s: Seq<u8>)
    ensures
        first_ask(s) is None ==> asks(s) == Seq::<Ask>::empty(),
        first_ask(s) matches Some((ask, end)) ==> asks(s) == seq![ask] + asks(
            s.subrange(end as int, s.len() as int),
        ),
{
    crate::http::lemma_first_ask(s);
}

} // verus!
