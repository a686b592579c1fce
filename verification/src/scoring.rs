//! From the body of a request to its answer.

use vstd::prelude::*;
use vstd::arithmetic::power2::*;

use crate::budget::Budget;
use crate::closeness::{
    grain, lemma_cancel, lemma_clipped_quotient, lemma_grain, lemma_nearest_range,
    lemma_power_pattern,
};
use crate::fast_parse::{parse_and_vectorize, request_components};
use crate::http::{
    content_length, lemma_first_length_header, lemma_first_marker, length_digits, lower, marker_at,
    marker_from, name_at,
};
use crate::index::{Index, SearchResult};
use crate::precision::{distance, is_closest};
use crate::rounding::{
    lemma_nearest_at_least, lemma_nearest_at_most, lemma_nearest_exact, lemma_parts,
    lemma_units_grow, lemma_units_monotone, nearest, units,
};
use crate::single::{lemma_integer, lemma_one, Single, ONE, ZERO};
use crate::text::ascii;
use crate::topk::{fifths, K};
use crate::vector::Vector;

verus! {

/// The status line and headers of an answer whose body has 35 bytes.
pub open spec fn approved_head() -> Seq<char> {
    "HTTP/1.1 200 OK\r\nContent-Type: application/json\r\nContent-Length: 35\r\n\r\n"@
}

/// The status line and headers of an answer whose body has 36 bytes.
pub open spec fn refused_head() -> Seq<char> {
    "HTTP/1.1 200 OK\r\nContent-Type: application/json\r\nContent-Length: 36\r\n\r\n"@
}

/// The body of the answer when `n` of five neighbours mark fraud.
pub open spec fn answer_body(n: nat) -> Seq<char> {
    if n == 0 {
        "{\"approved\":true,\"fraud_score\":0.0}"@
    } else if n == 1 {
        "{\"approved\":true,\"fraud_score\":0.2}"@
    } else if n == 2 {
        "{\"approved\":true,\"fraud_score\":0.4}"@
    } else if n == 3 {
        "{\"approved\":false,\"fraud_score\":0.6}"@
    } else if n == 4 {
        "{\"approved\":false,\"fraud_score\":0.8}"@
    } else {
        "{\"approved\":false,\"fraud_score\":1.0}"@
    }
}

/// The answer when `n` of five neighbours mark fraud.
pub open spec fn answer(n: nat) -> Seq<char> {
    (if n < 3 {
        approved_head()
    } else {
        refused_head()
    }) + answer_body(n)
}

/// The answer that the service is ready.
pub open spec fn ready_answer() -> Seq<char> {
    "HTTP/1.1 204 No Content\r\nContent-Length: 0\r\n\r\n"@
}

/// The number of fifths nearest to a score, from 0 to 5.
pub open spec fn nearest_fifth(score: Single) -> nat {
    let x = score.product(Single::integer(5));
    if x.is_nan() || x.rank() <= 0 {
        0
    } else if x.rank() >= 0x4f80_0000 || x.rounded() > 5 {
        5
    } else {
        x.rounded()
    }
}

/// The answer to what a search found; a search that found nothing approves.
pub open spec fn answer_for(result: SearchResult) -> Seq<char> {
    match result {
        SearchResult::Score(score) => answer(nearest_fifth(score)),
        SearchResult::TimedOut => answer(0),
    }
}

/// The answer that the service is ready.
pub fn ready_response() -> (r: &'static str)
    ensures
        r@ == ready_answer(),
{
    "HTTP/1.1 204 No Content\r\nContent-Length: 0\r\n\r\n"
}

/// The answer when `n` of five neighbours mark fraud; more than five count as five.
pub fn fraud_response(n: usize) -> (r: &'static str)
    ensures
        r@ == answer(
            if n < 5 {
                n as nat
            } else {
                5
            },
        ),
{
    if n < 3 {
        approved_response(n)
    } else {
        refused_response(n)
    }
}

fn approved_response(n: usize) -> (r: &'static str)
    requires
        n < 3,
    ensures
        r@ == answer(n as nat),
{
    proof {
        reveal_strlit(
            "HTTP/1.1 200 OK\r\nContent-Type: application/json\r\nContent-Length: 35\r\n\r\n",
        );
    }
    if n == 0 {
        let r =
            "HTTP/1.1 200 OK\r\nContent-Type: application/json\r\nContent-Length: 35\r\n\r\n{\"approved\":true,\"fraud_score\":0.0}";
        proof {
            reveal_strlit("{\"approved\":true,\"fraud_score\":0.0}");
            reveal_strlit(
                "HTTP/1.1 200 OK\r\nContent-Type: application/json\r\nContent-Length: 35\r\n\r\n{\"approved\":true,\"fraud_score\":0.0}",
            );
            assert(r@ =~= answer(0));
        }
        r
    } else if n == 1 {
        let r =
            "HTTP/1.1 200 OK\r\nContent-Type: application/json\r\nContent-Length: 35\r\n\r\n{\"approved\":true,\"fraud_score\":0.2}";
        proof {
            reveal_strlit("{\"approved\":true,\"fraud_score\":0.2}");
            reveal_strlit(
                "HTTP/1.1 200 OK\r\nContent-Type: application/json\r\nContent-Length: 35\r\n\r\n{\"approved\":true,\"fraud_score\":0.2}",
            );
            assert(r@ =~= answer(1));
        }
        r
    } else {
        let r =
            "HTTP/1.1 200 OK\r\nContent-Type: application/json\r\nContent-Length: 35\r\n\r\n{\"approved\":true,\"fraud_score\":0.4}";
        proof {
            reveal_strlit("{\"approved\":true,\"fraud_score\":0.4}");
            reveal_strlit(
                "HTTP/1.1 200 OK\r\nContent-Type: application/json\r\nContent-Length: 35\r\n\r\n{\"approved\":true,\"fraud_score\":0.4}",
            );
            assert(r@ =~= answer(2));
        }
        r
    }
}

fn refused_response(n: usize) -> (r: &'static str)
    requires
        n >= 3,
    ensures
        r@ == answer(
            if n < 5 {
                n as nat
            } else {
                5
            },
        ),
{
    proof {
        reveal_strlit(
            "HTTP/1.1 200 OK\r\nContent-Type: application/json\r\nContent-Length: 36\r\n\r\n",
        );
    }
    if n == 3 {
        let r =
            "HTTP/1.1 200 OK\r\nContent-Type: application/json\r\nContent-Length: 36\r\n\r\n{\"approved\":false,\"fraud_score\":0.6}";
        proof {
            reveal_strlit("{\"approved\":false,\"fraud_score\":0.6}");
            reveal_strlit(
                "HTTP/1.1 200 OK\r\nContent-Type: application/json\r\nContent-Length: 36\r\n\r\n{\"approved\":false,\"fraud_score\":0.6}",
            );
            assert(r@ =~= answer(3));
        }
        r
    } else if n == 4 {
        let r =
            "HTTP/1.1 200 OK\r\nContent-Type: application/json\r\nContent-Length: 36\r\n\r\n{\"approved\":false,\"fraud_score\":0.8}";
        proof {
            reveal_strlit("{\"approved\":false,\"fraud_score\":0.8}");
            reveal_strlit(
                "HTTP/1.1 200 OK\r\nContent-Type: application/json\r\nContent-Length: 36\r\n\r\n{\"approved\":false,\"fraud_score\":0.8}",
            );
            assert(r@ =~= answer(4));
        }
        r
    } else {
        let r =
            "HTTP/1.1 200 OK\r\nContent-Type: application/json\r\nContent-Length: 36\r\n\r\n{\"approved\":false,\"fraud_score\":1.0}";
        proof {
            reveal_strlit("{\"approved\":false,\"fraud_score\":1.0}");
            reveal_strlit(
                "HTTP/1.1 200 OK\r\nContent-Type: application/json\r\nContent-Length: 36\r\n\r\n{\"approved\":false,\"fraud_score\":1.0}",
            );
            assert(r@ =~= answer(5));
        }
        r
    }
}

/// The number of fifths nearest to a score, from 0 to 5.
pub fn fraud_fifths(score: Single) -> (r: usize)
    ensures
        r == nearest_fifth(score),
        r <= 5,
{
    let x: Single = score.times(Single::from_integer(5));
    let zero: Single = Single::from_bits(ZERO);
    if x.check_nan() || !zero.lt(x) {
        return 0;
    }
    if x.ge(Single::from_bits(0x4f80_0000)) {
        return 5;
    }
    let n: u64 = x.round();
    if n > 5 {
        5
    } else {
        n as usize
    }
}

/// The answer to what a search found.
pub fn respond(result: SearchResult) -> (r: &'static str)
    ensures
        r@ == answer_for(result),
{
    match result {
        SearchResult::Score(score) => fraud_response(fraud_fifths(score)),
        SearchResult::TimedOut => fraud_response(0),
    }
}

/// The answer to a request whose search is within its budget, or not. A body that is no
/// request is approved, and so is one whose search comes to nothing.
pub open spec fn answer_to(index: Index, body: Seq<u8>, used_up: bool) -> Seq<char> {
    match request_components(body) {
        None => answer(0),
        Some(vector) => answer_for(
            if used_up {
                SearchResult::TimedOut
            } else {
                SearchResult::Score(index.score(vector))
            },
        ),
    }
}

/// The answer to a vector that is searched for within a budget.
fn answer_vector(index: &Index, vector: &Vector, budget: &mut Budget) -> (r: &'static str)
    requires
        old(budget).is_fresh(),
    ensures
        final(budget).continues(*old(budget)),
        if final(budget).used_up() {
            &&& r@ == answer_for(SearchResult::TimedOut)
            &&& 0 < final(budget).asked() <= index.questions(vector@)
        } else {
            &&& r@ == answer_for(SearchResult::Score(index.score(vector@)))
            &&& final(budget).asked() == index.questions(vector@)
        },
{
    respond(index.search(vector, budget))
}

/// The answer to a request: its body is read and searched for, within a budget.
pub fn score_within(index: &Index, body: &[u8], budget: &mut Budget) -> (r: &'static str)
    requires
        old(budget).is_fresh(),
    ensures
        final(budget).continues(*old(budget)),
        r@ == answer_to(*index, body@, final(budget).used_up()),
        match request_components(body@) {
            None => final(budget).asked() == 0,
            Some(vector) => if final(budget).used_up() {
                0 < final(budget).asked() <= index.questions(vector)
            } else {
                final(budget).asked() == index.questions(vector)
            },
        },
{
    match parse_and_vectorize(body) {
        Some(vector) => answer_vector(index, &vector, budget),
        None => fraud_response(0),
    }
}

/// Whether a request is answered so within a deadline: by a search whose budget has it as its
/// limit, and which came to nothing only if the clock showed more than the deadline at the last
/// question.
pub open spec fn is_answered_within(
    index: Index,
    deadline: u128,
    body: Seq<u8>,
    text: Seq<char>,
) -> bool {
    request_components(body) matches Some(vector) && exists|budget: Budget|
        {
            &&& budget.time_limit() == Some(deadline)
            &&& budget.is_consistent()
            &&& !budget.is_unlimited()
            &&& budget.allowance() is None
            &&& text == answer_to(index, body, #[trigger] budget.used_up())
            &&& if budget.used_up() {
                budget.elapsed() > deadline && 0 < budget.asked() <= index.questions(vector)
            } else {
                budget.asked() == index.questions(vector) && (budget.asked() > 0
                    ==> budget.elapsed() <= deadline)
            }
        }
}

/// The deadline of a request counts to the nanosecond: it is approved for want of time only if at
/// the last question of its search one nanosecond more had passed at least; if no more had passed
/// than the deadline, it is answered by what the search found.
pub proof fn law_requests_have_their_whole_time(
    index: Index,
    deadline: u128,
    body: Seq<u8>,
    vector: Seq<Single>,
    text: Seq<char>,
)
    requires
        request_components(body) == Some(vector),
        is_answered_within(index, deadline, body, text),
    ensures
        exists|budget: Budget|
            {
                let over = budget.asked() >= 1 && budget.elapsed() >= deadline + 1;
                &&& #[trigger] budget.time_limit() == Some(deadline)
                &&& budget.asked() <= index.questions(vector)
                &&& over ==> text == answer_text(0)
                &&& !over ==> text == answer(nearest_fifth(index.score(vector)))
                    && budget.asked() == index.questions(vector)
            },
{
    let budget = choose|budget: Budget|
        {
            &&& budget.time_limit() == Some(deadline)
            &&& budget.is_consistent()
            &&& !budget.is_unlimited()
            &&& budget.allowance() is None
            &&& text == answer_to(index, body, #[trigger] budget.used_up())
            &&& if budget.used_up() {
                budget.elapsed() > deadline && 0 < budget.asked() <= index.questions(vector)
            } else {
                budget.asked() == index.questions(vector) && (budget.asked() > 0
                    ==> budget.elapsed() <= deadline)
            }
        };
    lemma_answer_text(0);
    assert(budget.time_limit() == Some(deadline));
}

/// The answer to a request: its body is read, and then searched for, at most `deadline`
/// nanoseconds long. A search that takes longer is approved: it has come to nothing only if
/// the clock showed more than `deadline` nanoseconds at its last question. What it takes to
/// read the body does not count.
pub fn score_body(index: &Index, deadline: u128, body: &[u8]) -> (r: &'static str)
    ensures
        request_components(body@) is None ==> r@ == answer(0),
        request_components(body@) is Some ==> is_answered_within(*index, deadline, body@, r@),
        r@ == answer_to(*index, body@, false) || r@ == answer(0),
        request_components(body@) matches Some(vector) ==> index.questions(vector) == 0 ==> r@
            == answer_to(*index, body@, false),
{
    let vector = match parse_and_vectorize(body) {
        Some(vector) => vector,
        None => {
            return fraud_response(0);
        },
    };
    let mut budget = Budget::within(Some(deadline));
    let r = answer_vector(index, &vector, &mut budget);
    assert(r@ == answer_to(*index, body@, budget.used_up()));
    r
}

/// Whether a score lets a transaction pass: below three fifths.
pub fn is_approved(score: Single) -> (r: bool)
    ensures
        r == score.less(fifths(3)),
{
    score.lt(Single::from_integer(3).over(Single::from_integer(5)))
}

/// The headers of an answer, up to the empty line, give a length of `n`.
proof fn lemma_head(head: Seq<u8>, n: nat)
    requires
        head == ascii(approved_head()) && n == 35 || head == ascii(refused_head()) && n == 36,
    ensures
        head.len() == 71,
        marker_at(head, 67),
        forall|j: int| 0 <= j < 67 ==> !marker_at(head, j),
        content_length(head.subrange(0, 67)) == Some(n),
{
    reveal_strlit("Content-Length:");
    reveal_strlit("HTTP/1.1 200 OK\r\nContent-Type: application/json\r\nContent-Length: 35\r\n\r\n");
    reveal_strlit("HTTP/1.1 200 OK\r\nContent-Type: application/json\r\nContent-Length: 36\r\n\r\n");
    let name = "Content-Length:"@;
    let s = head.subrange(0, 67);
    assert forall|j: int| 0 <= j < 49 implies !name_at(s, j, name) by {
        assert(lower(s[j + 0]) != lower(name[0] as u8) || lower(s[j + 8]) != lower(name[8] as u8));
    }
    assert(name_at(s, 49, name));
    lemma_first_length_header(s, 0, 49);
    reveal_with_fuel(crate::http::spaces_end, 3);
    reveal_with_fuel(crate::text::digits_end, 4);
    reveal_with_fuel(crate::text::number, 4);
    assert(length_digits(s) =~= seq![s[65], s[66]]);
    assert(length_digits(s).drop_last() =~= seq![s[65]]);
    assert(seq![s[65]].drop_last() =~= Seq::<u8>::empty());
}

/// Whoever frames an answer by its headers finds its body, no byte more or less: the length
/// that they give is that of what follows the empty line.
pub proof fn law_answers_state_their_length(n: nat)
    ensures
        ({
            let s = ascii(answer(n));
            let h = s.len() - answer_body(n).len() - 4;
            &&& marker_from(s, 0) == Some(h as nat)
            &&& content_length(s.subrange(0, h)) == Some(answer_body(n).len())
            &&& s.subrange(h + 4, s.len() as int) == ascii(answer_body(n))
        }),
{
    reveal_strlit("{\"approved\":true,\"fraud_score\":0.0}");
    reveal_strlit("{\"approved\":true,\"fraud_score\":0.2}");
    reveal_strlit("{\"approved\":true,\"fraud_score\":0.4}");
    reveal_strlit("{\"approved\":false,\"fraud_score\":0.6}");
    reveal_strlit("{\"approved\":false,\"fraud_score\":0.8}");
    reveal_strlit("{\"approved\":false,\"fraud_score\":1.0}");
    let chars = if n < 3 {
        approved_head()
    } else {
        refused_head()
    };
    let head = ascii(chars);
    let s = ascii(answer(n));
    lemma_head(head, answer_body(n).len());
    assert(s =~= head + ascii(answer_body(n)));
    assert forall|j: int| 0 <= j < 67 implies !marker_at(s, j) by {
        assert(!marker_at(head, j));
    }
    assert(marker_at(s, 67));
    lemma_first_marker(s, 0, 67);
    assert(s.subrange(0, 67) =~= head.subrange(0, 67));
    assert(s.subrange(71, s.len() as int) =~= ascii(answer_body(n)));
}

/// The pattern of `m` sixteenths, where `m` is `significand / 2^f`.
proof fn lemma_sixteenths(bits: nat, m: nat, f: nat)
    requires
        m * pow2(f) == crate::rounding::significand(bits),
        crate::rounding::exponent_index(bits) + f == 145,
    ensures
        units(bits) == m * pow2(145),
{
    let e = crate::rounding::exponent_index(bits);
    lemma_parts(bits);
    lemma_pow2_adds(f, e);
    let a = pow2(f);
    let b = pow2(e);
    assert((m * a) * b == m * (a * b)) by (nonlinear_arith);
}

/// `c` fifths lie between `l` and `u` sixteenths.
proof fn lemma_fifths_between(c: nat, low: nat, l: nat, high: nat, u: nat)
    requires
        0 < c <= 5,
        low <= high < 0x4000_0000,
        units(low) == l * pow2(145),
        units(high) == u * pow2(145),
        5 * l <= 16 * c <= 5 * u,
    ensures
        low <= fifths(c).magnitude() <= high,
        fifths(c).bits == fifths(c).magnitude(),
{
    let p = pow2(149);
    let q = pow2(145);
    lemma_integer(c);
    lemma_integer(5);
    lemma2_to64();
    lemma_pow2_pos(145);
    lemma_pow2_adds(4, 145);
    assert(p == 16 * q);
    let n = (c * p) * p;
    let d = 5 * p;
    assert(n <= d * (u * q)) by (nonlinear_arith)
        requires
            n == (c * p) * p,
            d == 5 * p,
            p == 16 * q,
            16 * c <= 5 * u,
    ;
    assert(n >= d * (l * q)) by (nonlinear_arith)
        requires
            n == (c * p) * p,
            d == 5 * p,
            p == 16 * q,
            16 * c >= 5 * l,
    ;
    lemma_nearest_at_most(n, d, high);
    lemma_nearest_at_least(n, d, low);
}

/// Five times a number between `l` and `u` sixteenths rounds to `c`.
proof fn lemma_back_to_count(x: Single, c: nat, l: nat, low: nat, u: nat, high: nat)
    requires
        0 < c <= 5,
        x.bits == x.magnitude(),
        0 < x.magnitude() < 0x4000_0000,
        l * pow2(145) <= units(x.magnitude()) <= u * pow2(145),
        0 < low <= high < 0x4100_0000,
        units(low) == 5 * l * pow2(145),
        units(high) == 5 * u * pow2(145),
        16 * c - 8 <= 5 * l,
        5 * u < 16 * c + 8,
    ensures
        nearest_fifth(x) == c,
{
    let p = pow2(149);
    let q = pow2(145);
    lemma_integer(5);
    lemma2_to64();
    lemma_pow2_pos(145);
    lemma_pow2_adds(4, 145);
    lemma_pow2_unfold(150);
    let a = units(x.magnitude());
    let n = a * (5 * p);
    assert(n <= p * (5 * u * q)) by (nonlinear_arith)
        requires
            n == a * (5 * p),
            a <= u * q,
    ;
    assert(n >= p * (5 * l * q)) by (nonlinear_arith)
        requires
            n == a * (5 * p),
            a >= l * q,
    ;
    lemma_nearest_at_most(n, p, high);
    lemma_nearest_at_least(n, p, low);
    let y = x.product(Single::integer(5));
    assert(y.magnitude() == nearest(n, p));
    lemma_units_monotone(low, y.magnitude());
    lemma_units_monotone(y.magnitude(), high);
    let v = units(y.magnitude());
    let r = 2 * v + p - 2 * p * c;
    assert(0 <= r < 2 * p) by (nonlinear_arith)
        requires
            r == 2 * v + p - 2 * p * c,
            5 * l * q <= v <= 5 * u * q,
            p == 16 * q,
            16 * c - 8 <= 5 * l,
            5 * u < 16 * c + 8,
            q > 0,
    ;
    vstd::arithmetic::div_mod::lemma_fundamental_div_mod_converse(
        (2 * v + p) as int,
        (2 * p) as int,
        c as int,
        r,
    );
}

/// The score of `c` neighbours lies between sixteenths that tell it from the others.
proof fn lemma_fifths(c: nat)
    requires
        0 < c <= 5,
    ensures
        nearest_fifth(fifths(c)) == c,
        fifths(c).bits == fifths(c).magnitude(),
        c < 3 ==> fifths(c).magnitude() <= 0x3ee0_0000,
        c >= 3 ==> 0x3f10_0000 <= fifths(c).magnitude() <= ONE,
        c == 3 ==> fifths(c).magnitude() <= 0x3f20_0000,
        c > 3 ==> 0x3f40_0000 <= fifths(c).magnitude(),
{
    lemma2_to64();
    let q = pow2(145);
    let (low, l, high, u, low5, high5): (nat, nat, nat, nat, nat, nat) = if c == 1 {
        lemma_sixteenths(0x3e40_0000, 3, 22);
        lemma_sixteenths(0x3e80_0000, 4, 21);
        lemma_sixteenths(0x3f70_0000, 15, 20);
        lemma_sixteenths(0x3fa0_0000, 20, 19);
        (0x3e40_0000, 3, 0x3e80_0000, 4, 0x3f70_0000, 0x3fa0_0000)
    } else if c == 2 {
        lemma_sixteenths(0x3ec0_0000, 6, 21);
        lemma_sixteenths(0x3ee0_0000, 7, 21);
        lemma_sixteenths(0x3ff0_0000, 30, 19);
        lemma_sixteenths(0x400c_0000, 35, 18);
        (0x3ec0_0000, 6, 0x3ee0_0000, 7, 0x3ff0_0000, 0x400c_0000)
    } else if c == 3 {
        lemma_sixteenths(0x3f10_0000, 9, 20);
        lemma_sixteenths(0x3f20_0000, 10, 20);
        lemma_sixteenths(0x4034_0000, 45, 18);
        lemma_sixteenths(0x4048_0000, 50, 18);
        (0x3f10_0000, 9, 0x3f20_0000, 10, 0x4034_0000, 0x4048_0000)
    } else if c == 4 {
        lemma_sixteenths(0x3f40_0000, 12, 20);
        lemma_sixteenths(0x3f50_0000, 13, 20);
        lemma_sixteenths(0x4070_0000, 60, 18);
        lemma_sixteenths(0x4082_0000, 65, 17);
        (0x3f40_0000, 12, 0x3f50_0000, 13, 0x4070_0000, 0x4082_0000)
    } else {
        lemma_sixteenths(0x3f80_0000, 16, 19);
        lemma_sixteenths(0x40a0_0000, 80, 17);
        (0x3f80_0000, 16, 0x3f80_0000, 16, 0x40a0_0000, 0x40a0_0000)
    };
    lemma_fifths_between(c, low, l, high, u);
    let x = fifths(c);
    lemma_units_monotone(low, x.magnitude());
    lemma_units_monotone(x.magnitude(), high);
    lemma_back_to_count(x, c, l, low5, u, high5);
}

/// The answer tells how many of the five neighbours mark fraud, and the transaction is
/// approved exactly if fewer than three do.
pub proof fn law_answer_counts_the_frauds(c: nat)
    requires
        c <= K,
    ensures
        answer_for(SearchResult::Score(fifths(c))) == answer(c),
        fifths(c).less(fifths(3)) == (c < 3),
{
    lemma_fifths(3);
    lemma_integer(0);
    lemma_integer(5);
    if c == 0 {
        lemma2_to64();
        lemma_pow2_pos(149);
        assert(Single::integer(0).magnitude() == 0) by {
            lemma_parts(0);
            assert(0 * pow2(149) == 0);
            lemma_nearest_exact(0, 1, 0);
        }
        assert(fifths(0) == Single::of(false, 0));
        let a = units(0);
        lemma_parts(0);
        let b = units(Single::integer(5).magnitude());
        assert(a * b == 0) by (nonlinear_arith)
            requires
                a == 0,
        ;
        lemma_nearest_exact(0, pow2(149), 0);
        assert(nearest_fifth(fifths(0)) == 0);
    } else {
        lemma_fifths(c);
    }
}

/// A score close to `c` fifths counts as `c`.
proof fn lemma_close_score(x: Single, c: nat)
    requires
        0 < c <= 5,
        is_closest(x, c * pow2(149) as int, 5),
    ensures
        nearest_fifth(x) == c,
{
    let p = pow2(149);
    let q = pow2(145);
    let f = fifths(c);
    lemma_fifths(c);
    lemma_integer(c);
    lemma_integer(5);
    lemma_grain();
    lemma_one();
    lemma2_to64();
    lemma_pow2_adds(4, 145);
    lemma_pow2_adds(19, 126);
    let n = (c * p) * p;
    let d = 5 * p;
    lemma_nearest_range(n, d);
    assert(f == Single::of(false, nearest(n, d)));
    lemma_clipped_quotient(n, d);
    lemma_cancel(c * p, 5, p);
    lemma_units_monotone(f.magnitude(), ONE as nat);
    let g = grain();
    let v = f.value();
    let e = (c * p) as int;
    assert(e == c * p as int);
    assert(e / 5 <= p) by {
        assert(e <= 5 * p) by (nonlinear_arith)
            requires
                e == c * p,
                c <= 5,
        ;
    }
    assert(-g <= v - e / 5 <= g);
    reveal(is_closest);
    assert(distance(x.value() * 5, e) <= distance(f.value() * 5, e));
    let u = x.value();
    assert(-(5 * g + 5) <= 5 * u - e <= 5 * g + 5);
    assert(g >= 5) by {
        lemma_pow2_strictly_increases(3, 126);
    }
    assert(u > 0) by (nonlinear_arith)
        requires
            5 * u >= e - (5 * g + 5),
            e == c * p,
            c >= 1,
            p == 8_388_608 * g,
            g >= 5,
    ;
    lemma_parts(0);
    assert(!x.is_negative());
    if x.magnitude() >= 0x4000_0000 {
        lemma_power_pattern(0x4000_0000, 127);
        lemma_pow2_adds(23, 127);
        lemma_pow2_unfold(150);
        lemma_units_monotone(0x4000_0000, x.magnitude());
        assert(5 * u <= 5 * p + 5 * g + 5);
        assert(false);
    }
    if c == 5 {
        assert(v == p) by {
            assert(5 * p * p == n) by (nonlinear_arith)
                requires
                    n == (c * p) * p,
                    c == 5,
            ;
            assert(d * units(ONE as nat) == n) by (nonlinear_arith)
                requires
                    d == 5 * p,
                    units(ONE as nat) == p,
                    5 * p * p == n,
            ;
            lemma_nearest_exact(n, d, ONE as nat);
        }
        assert(u == p);
        lemma_sixteenths(0x40a0_0000, 80, 17);
        assert(16 * q == p);
        lemma_back_to_count(x, 5, 16, 0x40a0_0000, 16, 0x40a0_0000);
    } else if c == 1 {
        lemma_sixteenths(0x3f70_0000, 15, 20);
        lemma_sixteenths(0x3fa0_0000, 20, 19);
        lemma_back_to_count(x, 1, 3, 0x3f70_0000, 4, 0x3fa0_0000);
    } else if c == 2 {
        lemma_sixteenths(0x3ff0_0000, 30, 19);
        lemma_sixteenths(0x400c_0000, 35, 18);
        lemma_back_to_count(x, 2, 6, 0x3ff0_0000, 7, 0x400c_0000);
    } else if c == 3 {
        lemma_sixteenths(0x4034_0000, 45, 18);
        lemma_sixteenths(0x4048_0000, 50, 18);
        lemma_back_to_count(x, 3, 9, 0x4034_0000, 10, 0x4048_0000);
    } else {
        lemma_sixteenths(0x4070_0000, 60, 18);
        lemma_sixteenths(0x4082_0000, 65, 17);
        lemma_back_to_count(x, 4, 12, 0x4070_0000, 13, 0x4082_0000);
    }
}

/// The text of the answer when `c` of five neighbours mark fraud, piece by piece.
pub open spec fn answer_text(c: nat) -> Seq<char> {
    "HTTP/1.1 200 OK\r\nContent-Type: application/json\r\nContent-Length: "@ + (if c < 3 {
        "35"@
    } else {
        "36"@
    }) + "\r\n\r\n{\"approved\":"@ + (if c < 3 {
        "true"@
    } else {
        "false"@
    }) + ",\"fraud_score\":"@ + (if c < 5 {
        "0."@
    } else {
        "1."@
    }) + seq![((2 * c) % 10 + 48) as char] + "}"@
}

/// The answer to a score that is closest to `c` fifths says how many they are, in tenths, and
/// approves if they are fewer than three. A search that came to nothing is answered as if
/// there were none.
#[verifier::rlimit(60)]
pub proof fn law_answer_says_the_share(score: Single, c: nat)
    requires
        c <= 5,
        is_closest(score, c * pow2(149) as int, 5),
    ensures
        answer_for(SearchResult::Score(score)) == answer_text(c),
        answer_for(SearchResult::TimedOut) == answer_text(0),
{
    if c == 0 {
        lemma_no_score(score);
    } else {
        lemma_close_score(score, c);
    }
    lemma_answer_text(c);
    lemma_answer_text(0);
}

/// A score closest to nothing is nothing.
proof fn lemma_no_score(score: Single)
    requires
        is_closest(score, 0 * pow2(149) as int, 5),
    ensures
        nearest_fifth(score) == 0,
{
    let zero = Single::from_bits(ZERO);
    reveal(is_closest);
    lemma_parts(0);
    lemma2_to64();
    assert(0 * pow2(149) as int == 0) by (nonlinear_arith);
    assert(zero.value() == 0 && zero.is_finite());
    assert(distance(score.value() * 5, 0) <= distance(zero.value() * 5, 0));
    assert(score.value() == 0);
    if score.magnitude() > 0 {
        lemma_units_grow(0, score.magnitude());
    }
    let five = Single::integer(5);
    lemma_integer(5);
    let a = units(0);
    let b = units(five.magnitude());
    assert(a * b == 0) by (nonlinear_arith)
        requires
            a == 0,
    ;
    lemma_pow2_pos(149);
    lemma_nearest_exact(0, pow2(149), 0);
    assert(score.product(five).magnitude() == 0);
}

pub proof fn lemma_answer_text(c: nat)
    requires
        c <= 5,
    ensures
        answer(c) == answer_text(c),
{
    reveal_strlit("HTTP/1.1 200 OK\r\nContent-Type: application/json\r\nContent-Length: 35\r\n\r\n");
    reveal_strlit("HTTP/1.1 200 OK\r\nContent-Type: application/json\r\nContent-Length: 36\r\n\r\n");
    reveal_strlit("{\"approved\":true,\"fraud_score\":0.0}");
    reveal_strlit("{\"approved\":true,\"fraud_score\":0.2}");
    reveal_strlit("{\"approved\":true,\"fraud_score\":0.4}");
    reveal_strlit("{\"approved\":false,\"fraud_score\":0.6}");
    reveal_strlit("{\"approved\":false,\"fraud_score\":0.8}");
    reveal_strlit("{\"approved\":false,\"fraud_score\":1.0}");
    reveal_strlit("HTTP/1.1 200 OK\r\nContent-Type: application/json\r\nContent-Length: ");
    reveal_strlit("35");
    reveal_strlit("36");
    reveal_strlit("\r\n\r\n{\"approved\":");
    reveal_strlit("true");
    reveal_strlit("false");
    reveal_strlit(",\"fraud_score\":");
    reveal_strlit("0.");
    reveal_strlit("1.");
    reveal_strlit("}");
    if c == 0 {
        assert(answer(c) =~= answer_text(c));
    } else if c == 1 {
        assert(answer(c) =~= answer_text(c));
    } else if c == 2 {
        assert(answer(c) =~= answer_text(c));
    } else if c == 3 {
        assert(answer(c) =~= answer_text(c));
    } else if c == 4 {
        assert(answer(c) =~= answer_text(c));
    } else {
        assert(answer(c) =~= answer_text(c));
    }
}

/// A score counts as the number of fifths that it is nearest to, but for an error of 2^-22: a
/// negative one as none, and one above one as five.
pub proof fn law_scores_count_as_the_nearest_fifth(x: Single)
    ensures
        nearest_fifth(x) <= 5,
        x.is_nan() || x.rank() <= 0 ==> nearest_fifth(x) == 0,
        !x.is_nan() && 0 <= x.rank() <= ONE ==> 2 * distance(
            5 * x.value(),
            nearest_fifth(x) * pow2(149) as int,
        ) <= pow2(149) + pow2(128),
        !x.is_nan() && x.rank() > ONE ==> nearest_fifth(x) == 5,
{
    let p = pow2(149);
    let five = Single::integer(5);
    let y = x.product(five);
    let a = units(x.magnitude());
    let n = a * (5 * p);
    lemma_integer(5);
    lemma_one();
    lemma_parts(0);
    lemma2_to64();
    lemma_pow2_pos(149);
    lemma_pow2_unfold(150);
    assert(units(0) == 0);
    lemma_nearest_range(n, p);
    if !x.is_nan() && x.rank() > 0 {
        if x.rank() > ONE {
            lemma_units_monotone(ONE as nat, x.magnitude());
            assert(n >= p * (5 * p)) by (nonlinear_arith)
                requires
                    n == a * (5 * p),
                    a >= p,
            ;
            lemma_nearest_at_least(n, p, five.magnitude());
            lemma_units_monotone(five.magnitude(), nearest(n, p));
            if x.is_infinite() {
                assert(y == Single::of(false, crate::rounding::INFINITY_BITS as nat));
            } else {
                assert(y == Single::of(false, nearest(n, p)));
                crate::single::lemma_rounded_monotone(five, y);
                crate::single::lemma_rounded_bounds(five, 5, 5);
            }
        } else {
            lemma_units_monotone(x.magnitude(), ONE as nat);
            assert(n <= p * (5 * p)) by (nonlinear_arith)
                requires
                    n == a * (5 * p),
                    a <= p,
            ;
            lemma_nearest_at_most(n, p, five.magnitude());
            assert(y == Single::of(false, nearest(n, p)));
            lemma_pow2_adds(3, 149);
            assert(n < p * (8 * p)) by (nonlinear_arith)
                requires
                    n <= p * (5 * p),
                    p > 0,
            ;
            crate::vector::lemma_steps(n, p, 128);
            let v = units(y.magnitude());
            let step = pow2(128) as int;
            assert(-step <= 2 * (v - 5 * a) <= step) by (nonlinear_arith)
                requires
                    -(p * step) <= 2 * (v * p - n) <= p * step,
                    n == a * (5 * p),
                    p > 0,
            ;
            lemma_units_monotone(y.magnitude(), five.magnitude());
            crate::single::lemma_rounded_bounds(y, 0, 5);
            let k = y.rounded();
            vstd::arithmetic::div_mod::lemma_fundamental_div_mod(
                (2 * v + p) as int,
                (2 * p) as int,
            );
            let rest = (2 * v + p) % (2 * p);
            assert(2 * v + p == (2 * p) * k + rest);
            assert((2 * p) * k == 2 * (k * p)) by (nonlinear_arith);
            if y.rank() <= 0 {
                assert(v == 0);
                assert(k == 0) by (nonlinear_arith)
                    requires
                        p == (2 * p) * k + rest,
                        rest >= 0,
                        p > 0,
                        k >= 0,
                ;
            }
        }
    } else if !x.is_nan() && x.rank() == 0 {
        assert(a == 0);
        assert(0 * p as int == 0) by (nonlinear_arith);
    }
    if !x.is_nan() && x.rank() <= 0 {
        if x.is_zero() {
            assert(n == 0) by (nonlinear_arith)
                requires
                    n == a * (5 * p),
                    a == 0,
            ;
            lemma_nearest_exact(0, p, 0);
        }
    }
}

} // verus!
