//! A request that is written as a JSON text is read back.
//!
//! Blanks may stand wherever JSON allows them. Texts are written as they are, without
//! escapes.

use vstd::prelude::*;
use vstd::utf8::encode_utf8;

use crate::agreement::{
    corresponds, law_reading_agrees_with_the_request, law_timestamps_are_moments,
};
use crate::calendar::{
    hour_of, is_timestamp, lemma_timestamp_range, number_at, timestamp_offset, timestamp_seconds,
    weekday_of,
};
use crate::closeness::{are_next, is_close, law_next_requests_have_close_vectors};
use crate::decimal::denoted;
use crate::fast_parse::{
    member, members, moment_at, next_member, nothing_read, quoted_texts, request,
    request_components, root_member, root_members, section_at, Next, Reading, Section,
};
use crate::grammar::{is_json, is_value, json_text, law_json_values_are_passed_over, Json};
use crate::json::{
    array_at, blanks_end, bool_at, byte_at, closing_bracket, decimal_at, is_blank, is_number_byte,
    lemma_quote_from, null_end, number_end, quote_from, quoted_end, string_end, text_at, uint_at,
    value_end,
};
use crate::layout::DIMS;
use crate::payload::{FraudRequest, Timestamp};
use crate::single::Single;
use crate::text::{ascii, digits_end, has_text_at, is_digit, number};
use crate::vector::{components, features_of, is_known};

verus! {

/// Whether a byte may stand around what is written: a space, a tab or the end of a line.
pub open spec fn is_white(b: u8) -> bool {
    b == 32 || b == 9 || b == 13 || b == 10
}

/// Whether a byte may stand in a numeral: a digit, a sign, a point or an exponent.
pub open spec fn is_of_numeral(b: u8) -> bool {
    48 <= b <= 57 || b == 43 || b == 45 || b == 46 || b == 69 || b == 101
}

pub open spec fn are_blanks(b: Seq<u8>) -> bool {
    forall|k: int| 0 <= k < b.len() ==> is_white(#[trigger] b[k])
}

/// Whether a text can be written without escapes.
pub open spec fn is_plain(t: Seq<u8>) -> bool {
    forall|k: int| 0 <= k < t.len() ==> #[trigger] t[k] != '"' as u8 && t[k] != '\\' as u8
}

/// A text in quotation marks.
pub open spec fn quoted(t: Seq<u8>) -> Seq<u8> {
    seq!['"' as u8] + t + seq!['"' as u8]
}

/// A member of an object, as it is written.
pub struct Written {
    pub before: Seq<u8>,
    pub key: Seq<u8>,
    pub between: Seq<u8>,
    pub gap: Seq<u8>,
    pub value: Seq<u8>,
    pub after: Seq<u8>,
}

/// Whether there are only blanks around key and value.
pub open spec fn is_laid_out(m: Written) -> bool {
    &&& are_blanks(m.before)
    &&& are_blanks(m.between)
    &&& are_blanks(m.gap)
    &&& are_blanks(m.after)
    &&& is_plain(m.key)
    &&& m.value.len() > 0
    &&& !is_white(m.value[0])
}

/// Where the value of a member begins, counted from the beginning of the member.
pub open spec fn value_place(m: Written) -> nat {
    m.before.len() + m.key.len() + m.between.len() + m.gap.len() + 3
}

pub open spec fn member_text(m: Written) -> Seq<u8> {
    m.before + quoted(m.key) + m.between + seq![':' as u8] + m.gap + m.value + m.after
}

/// Members with commas between them.
pub open spec fn members_text(ms: Seq<Written>) -> Seq<u8>
    decreases ms.len(),
{
    if ms.len() == 0 {
        Seq::empty()
    } else if ms.len() == 1 {
        member_text(ms[0])
    } else {
        member_text(ms[0]) + seq![',' as u8] + members_text(ms.drop_first())
    }
}

pub open spec fn object_text(ms: Seq<Written>) -> Seq<u8> {
    seq!['{' as u8] + members_text(ms) + seq!['}' as u8]
}

/// An element of a list of texts, as it is written.
pub struct Listed {
    pub before: Seq<u8>,
    pub text: Seq<u8>,
    pub after: Seq<u8>,
}

pub open spec fn element_text(x: Listed) -> Seq<u8> {
    x.before + quoted(x.text) + x.after
}

/// Texts in quotation marks with commas between them.
pub open spec fn listed(xs: Seq<Listed>) -> Seq<u8>
    decreases xs.len(),
{
    if xs.len() == 0 {
        Seq::empty()
    } else if xs.len() == 1 {
        element_text(xs[0])
    } else {
        element_text(xs[0]) + seq![',' as u8] + listed(xs.drop_first())
    }
}

/// Whether there are only blanks around the texts, and none of them needs an escape.
pub open spec fn are_listed(xs: Seq<Listed>) -> bool {
    forall|i: int|
        0 <= i < xs.len() ==> are_blanks((#[trigger] xs[i]).before) && is_plain(xs[i].text)
            && are_blanks(xs[i].after)
}

/// Whether `t` stands at position `i`.
pub open spec fn placed(s: Seq<u8>, i: nat, t: Seq<u8>) -> bool {
    i + t.len() <= s.len() && s.subrange(i as int, (i + t.len()) as int) == t
}

/// Whether a value can end before position `j`.
pub open spec fn delimited(s: Seq<u8>, j: nat) -> bool {
    j < s.len() && (s[j as int] == ',' as u8 || s[j as int] == '}' as u8 || is_white(s[j as int]))
}

/// A part of what stands at a position stands there too.
pub proof fn lemma_part_placed(s: Seq<u8>, i: nat, a: Seq<u8>, b: Seq<u8>)
    requires
        placed(s, i, a + b),
    ensures
        placed(s, i, a),
        placed(s, i + a.len(), b),
{
    let all = s.subrange(i as int, (i + a.len() + b.len()) as int);
    assert(all =~= a + b);
    assert(s.subrange(i as int, (i + a.len()) as int) =~= all.subrange(0, a.len() as int));
    assert((a + b).subrange(0, a.len() as int) =~= a);
    assert(s.subrange((i + a.len()) as int, (i + a.len() + b.len()) as int) =~= all.subrange(
        a.len() as int,
        all.len() as int,
    ));
    assert((a + b).subrange(a.len() as int, (a + b).len() as int) =~= b);
}

pub proof fn lemma_placed_byte(s: Seq<u8>, i: nat, t: Seq<u8>, k: int)
    requires
        placed(s, i, t),
        0 <= k < t.len(),
    ensures
        s[i + k] == t[k],
{
    assert(s.subrange(i as int, (i + t.len()) as int)[k] == s[i + k]);
}

pub proof fn lemma_blanks_are(s: Seq<u8>, i: nat, b: Seq<u8>)
    requires
        placed(s, i, b),
        are_blanks(b),
        i + b.len() < s.len() ==> !is_blank(s[(i + b.len()) as int]),
    ensures
        blanks_end(s, i) == i + b.len(),
    decreases b.len(),
{
    if b.len() > 0 {
        lemma_placed_byte(s, i, b, 0);
        let rest = b.drop_first();
        assert(b =~= seq![b[0]] + rest);
        lemma_part_placed(s, i, seq![b[0]], rest);
        assert forall|k: int| 0 <= k < rest.len() implies is_blank(#[trigger] rest[k]) by {
            assert(rest[k] == b[k + 1]);
        }
        lemma_blanks_are(s, i + 1, rest);
    }
}

pub proof fn lemma_quote_is(s: Seq<u8>, i: nat, j: nat)
    requires
        i <= j <= s.len(),
        forall|k: int| i <= k < j ==> s[k] != '"' as u8,
        j < s.len() ==> s[j as int] == '"' as u8,
    ensures
        quote_from(s, i) == j,
    decreases j - i,
{
    if i < j {
        lemma_quote_is(s, i + 1, j);
    }
}

/// A text in quotation marks is read, as a text and as a string.
pub proof fn lemma_text_placed(s: Seq<u8>, i: nat, t: Seq<u8>)
    requires
        placed(s, i, quoted(t)),
        is_plain(t),
    ensures
        text_at(s, i) == Some((t, i + t.len() + 2)),
        quoted_end(s, i) == Some((i + t.len() + 2) as nat),
{
    let q = quoted(t);
    lemma_placed_byte(s, i, q, 0);
    lemma_placed_byte(s, i, q, q.len() - 1);
    assert(q[q.len() - 1] == '"' as u8);
    let end = i + 1 + t.len();
    assert forall|k: int| i + 1 <= k < end implies s[k] != '"' as u8 && s[k] != '\\' as u8 by {
        lemma_placed_byte(s, i, q, k - i);
        assert(q[k - i] == t[k - i - 1]);
    }
    lemma_quote_is(s, i + 1, end);
    let inner = s.subrange(i as int + 1, end as int);
    assert forall|k: int| 0 <= k < t.len() implies inner[k] == t[k] by {
        lemma_placed_byte(s, i, q, 1 + k);
    }
    assert(inner =~= t);
    lemma_string_is(s, i + 1, end);
}

proof fn lemma_string_is(s: Seq<u8>, i: nat, j: nat)
    requires
        i <= j < s.len(),
        forall|k: int| i <= k < j ==> s[k] != '"' as u8 && s[k] != '\\' as u8,
        s[j as int] == '"' as u8,
    ensures
        string_end(s, i) == Some((j + 1) as nat),
    decreases j - i,
{
    if i < j {
        lemma_string_is(s, i + 1, j);
    }
}

pub proof fn lemma_number_is(s: Seq<u8>, i: nat, j: nat)
    requires
        i <= j < s.len(),
        forall|k: int| i <= k < j ==> is_number_byte(s[k]),
        !is_number_byte(s[j as int]),
    ensures
        number_end(s, i) == j,
    decreases j - i,
{
    if i < j {
        lemma_number_is(s, i + 1, j);
    }
}

pub proof fn lemma_digits_are(s: Seq<u8>, i: nat, j: nat)
    requires
        i <= j < s.len(),
        forall|k: int| i <= k < j ==> is_digit(s[k]),
        !is_digit(s[j as int]),
    ensures
        digits_end(s, i) == j,
    decreases j - i,
{
    if i < j {
        lemma_digits_are(s, i + 1, j);
    }
}

/// Whether a text writes a number as JSON does, or in any other way that is read.
pub open spec fn is_numeral(t: Seq<u8>) -> bool {
    t.len() > 0 && forall|k: int| 0 <= k < t.len() ==> is_of_numeral(#[trigger] t[k])
}

/// Whether a text writes an integer.
pub open spec fn is_integer(t: Seq<u8>) -> bool {
    t.len() > 0 && forall|k: int| 0 <= k < t.len() ==> 48 <= #[trigger] t[k] <= 57
}

proof fn lemma_decimal_placed(s: Seq<u8>, i: nat, t: Seq<u8>)
    requires
        placed(s, i, t),
        delimited(s, i + t.len()),
        is_numeral(t),
        denoted(t) is Some,
    ensures
        decimal_at(s, i) == Some((denoted(t).unwrap(), i + t.len())),
{
    assert forall|k: int| i <= k < i + t.len() implies is_number_byte(s[k]) by {
        lemma_placed_byte(s, i, t, k - i);
    }
    lemma_number_is(s, i, i + t.len());
}

proof fn lemma_uint_placed(s: Seq<u8>, i: nat, t: Seq<u8>)
    requires
        placed(s, i, t),
        delimited(s, i + t.len()),
        is_integer(t),
        number(t) <= u64::MAX,
    ensures
        uint_at(s, i) == Some((number(t) as u64, i + t.len())),
{
    assert forall|k: int| i <= k < i + t.len() implies is_digit(s[k]) by {
        lemma_placed_byte(s, i, t, k - i);
    }
    lemma_digits_are(s, i, i + t.len());
}

/// The text of a truth value.
pub open spec fn bool_text(b: bool) -> Seq<u8> {
    if b {
        ascii("true"@)
    } else {
        ascii("false"@)
    }
}

pub proof fn lemma_bool_placed(s: Seq<u8>, i: nat, b: bool)
    requires
        placed(s, i, bool_text(b)),
    ensures
        bool_at(s, i) == Some((b, i + bool_text(b).len())),
{
    reveal_strlit("true");
    reveal_strlit("false");
    lemma_placed_byte(s, i, bool_text(b), 0);
    if !b {
        if has_text_at(s, i as int, "true"@) {
            assert(s.subrange(i as int, i as int + 4)[0] == ascii("true"@)[0]);
        }
    }
}

/// What stands between two elements of a list holds no bracket and no quotation mark.
proof fn lemma_bracket_after_blanks(s: Seq<u8>, i: nat, j: nat)
    requires
        i <= j <= s.len(),
        forall|k: int|
            i <= k < j ==> s[k] != '"' as u8 && s[k] != '[' as u8 && s[k] != ']' as u8,
    ensures
        closing_bracket(s, i, 1) == closing_bracket(s, j, 1),
    decreases j - i,
{
    if i < j {
        lemma_bracket_after_blanks(s, i + 1, j);
    }
}

/// A list ends at its bracket.
proof fn lemma_list_placed(s: Seq<u8>, i: nat, xs: Seq<Listed>)
    requires
        placed(s, i, listed(xs) + seq![']' as u8]),
        are_listed(xs),
    ensures
        closing_bracket(s, i, 1) == Some((i + listed(xs).len()) as nat),
    decreases xs.len(),
{
    let t = listed(xs);
    lemma_part_placed(s, i, t, seq![']' as u8]);
    lemma_placed_byte(s, i + t.len(), seq![']' as u8], 0);
    if xs.len() > 0 {
        let x = xs[0];
        let rest = xs.drop_first();
        let tail = if xs.len() == 1 {
            seq![']' as u8]
        } else {
            seq![',' as u8] + (listed(rest) + seq![']' as u8])
        };
        assert(t + seq![']' as u8] =~= x.before + (quoted(x.text) + (x.after + tail)));
        lemma_part_placed(s, i, x.before, quoted(x.text) + (x.after + tail));
        let a = i + x.before.len();
        lemma_part_placed(s, a, quoted(x.text), x.after + tail);
        let b = a + quoted(x.text).len();
        lemma_part_placed(s, b, x.after, tail);
        assert forall|k: int| i <= k < a implies is_blank(s[k]) by {
            lemma_placed_byte(s, i, x.before, k - i);
        }
        lemma_bracket_after_blanks(s, i, a);
        lemma_placed_byte(s, a, quoted(x.text), 0);
        lemma_text_placed(s, a, x.text);
        assert(string_end(s, a + 1) == Some(b));
        assert forall|k: int| b <= k < b + x.after.len() implies is_blank(s[k]) by {
            lemma_placed_byte(s, b, x.after, k - b);
        }
        lemma_bracket_after_blanks(s, b, b + x.after.len());
        if xs.len() > 1 {
            let c = b + x.after.len();
            lemma_part_placed(s, c, seq![',' as u8], listed(rest) + seq![']' as u8]);
            lemma_placed_byte(s, c, seq![',' as u8], 0);
            assert forall|k: int| 0 <= k < rest.len() implies are_blanks((#[trigger] rest[k]).before)
                && is_plain(rest[k].text) && are_blanks(rest[k].after) by {
                assert(rest[k] == xs[k + 1]);
            }
            lemma_list_placed(s, c + 1, rest);
        }
    }
}

proof fn lemma_no_quotes(s: Seq<u8>, i: nat, j: nat)
    requires
        i <= j <= s.len(),
        forall|k: int| i <= k < j ==> s[k] != '"' as u8,
    ensures
        quoted_texts(s, i) == quoted_texts(s, j),
    decreases j - i,
{
    if i < j {
        lemma_no_quotes(s, i + 1, j);
        assert(quote_from(s, i) == quote_from(s, i + 1));
    }
}

/// What stands before a text does not matter.
proof fn lemma_quoted_texts_skip(a: Seq<u8>, b: Seq<u8>, i: nat)
    requires
        i <= b.len() + 1,
    ensures
        quoted_texts(a + b, a.len() + i) == quoted_texts(b, i),
    decreases b.len() + 1 - i,
{
    let s = a + b;
    lemma_quote_from(b, i);
    let open = quote_from(b, i);
    if i <= b.len() {
        lemma_quote_is(s, a.len() + i, a.len() + open);
    }
    if open < b.len() {
        lemma_quote_from(b, open + 1);
        let close = quote_from(b, open + 1);
        lemma_quote_is(s, a.len() + open + 1, a.len() + close);
        assert(s.subrange((a.len() + open + 1) as int, (a.len() + close) as int) =~= b.subrange(
            open as int + 1,
            close as int,
        ));
        lemma_quoted_texts_skip(a, b, close + 1);
    }
}

/// The first text of a list is read, and then what follows the element.
proof fn lemma_first_listed(x: Listed, tail: Seq<u8>)
    requires
        are_blanks(x.before),
        is_plain(x.text),
        are_blanks(x.after),
    ensures
        quoted_texts(element_text(x) + tail, 0) == seq![x.text] + quoted_texts(tail, 0),
{
    let s = element_text(x) + tail;
    let q = quoted(x.text);
    let a = x.before.len();
    let b = a + q.len();
    let c = b + x.after.len();
    assert(s =~= x.before + (q + (x.after + tail)));
    assert(s.subrange(0, s.len() as int) =~= s);
    lemma_part_placed(s, 0, x.before, q + (x.after + tail));
    lemma_part_placed(s, a, q, x.after + tail);
    lemma_part_placed(s, b, x.after, tail);
    assert forall|k: int| 0 <= k < a implies s[k] != '"' as u8 by {
        lemma_placed_byte(s, 0, x.before, k);
    }
    lemma_placed_byte(s, a, q, 0);
    lemma_text_placed(s, a, x.text);
    lemma_quote_is(s, 0, a);
    assert(quoted_texts(s, 0) == seq![x.text] + quoted_texts(s, b));
    assert forall|k: int| b <= k < c implies s[k] != '"' as u8 by {
        lemma_placed_byte(s, b, x.after, k - b);
    }
    lemma_no_quotes(s, b, c);
    lemma_quoted_texts_skip(element_text(x), tail, 0);
}

/// Quoted texts are taken one after the other, whatever stands between them: the bytes from a mark
/// to the next, and then those behind it. Bytes without a mark hold none.
pub proof fn law_quoted_texts_are_taken_in_turn(a: Seq<u8>, t: Seq<u8>, b: Seq<u8>)
    requires
        forall|k: int| 0 <= k < a.len() ==> #[trigger] a[k] != '"' as u8,
        forall|k: int| 0 <= k < t.len() ==> #[trigger] t[k] != '"' as u8,
    ensures
        quoted_texts(a, 0) == Seq::<Seq<u8>>::empty(),
        quoted_texts(a + quoted(t) + b, 0) == seq![t] + quoted_texts(b, 0),
{
    let s = a + quoted(t) + b;
    let front = a + quoted(t);
    let open = a.len();
    let close = open + t.len() + 1;
    lemma_quote_is(a, 0, a.len());
    assert(quoted_texts(a, 0) =~= Seq::empty());
    assert forall|k: int| 0 <= k < open implies s[k] != '"' as u8 by {
        assert(s[k] == a[k]);
    }
    lemma_quote_is(s, 0, open);
    assert forall|k: int| open + 1 <= k < close implies s[k] != '"' as u8 by {
        assert(s[k] == t[k - open - 1]);
    }
    lemma_quote_is(s, open + 1, close);
    assert(s.subrange(open as int + 1, close as int) =~= t);
    lemma_quoted_texts_skip(front, b, 0);
    assert(quoted_texts(s, 0) == seq![t] + quoted_texts(s, close + 1));
}

/// The texts of a list are read back.
pub proof fn law_listed_texts_are_read_back(xs: Seq<Listed>)
    requires
        are_listed(xs),
    ensures
        quoted_texts(listed(xs), 0) == Seq::new(xs.len(), |i: int| xs[i].text),
    decreases xs.len(),
{
    let s = listed(xs);
    let texts = Seq::new(xs.len(), |i: int| xs[i].text);
    if xs.len() == 0 {
        assert(quoted_texts(s, 0) =~= texts);
    } else if xs.len() == 1 {
        let none = Seq::<u8>::empty();
        assert(s =~= element_text(xs[0]) + none);
        lemma_first_listed(xs[0], none);
        assert(quoted_texts(none, 0) =~= Seq::empty());
        assert(quoted_texts(s, 0) =~= texts);
    } else {
        let rest = xs.drop_first();
        let comma = seq![',' as u8];
        let tail = comma + listed(rest);
        assert(s =~= element_text(xs[0]) + tail);
        lemma_first_listed(xs[0], tail);
        lemma_no_quotes(tail, 0, 1);
        lemma_quoted_texts_skip(comma, listed(rest), 0);
        assert forall|k: int| 0 <= k < rest.len() implies are_blanks((#[trigger] rest[k]).before)
            && is_plain(rest[k].text) && are_blanks(rest[k].after) by {
            assert(rest[k] == xs[k + 1]);
        }
        law_listed_texts_are_read_back(rest);
        assert(quoted_texts(s, 0) =~= texts);
    }
}

/// The parts of a member stand in their places.
pub proof fn lemma_member_placed(s: Seq<u8>, at: nat, m: Written)
    requires
        placed(s, at, member_text(m)),
        is_laid_out(m),
    ensures
        ({
            let k = at + m.before.len();
            let after = k + m.key.len() + 2;
            let c = after + m.between.len();
            let v = at + value_place(m);
            &&& blanks_end(s, at) == k
            &&& text_at(s, k) == Some((m.key, after))
            &&& blanks_end(s, after) == c
            &&& byte_at(s, c, ':' as u8)
            &&& blanks_end(s, c + 1) == v
            &&& placed(s, v, m.value)
            &&& placed(s, v + m.value.len(), m.after)
            &&& byte_at(s, k, '"' as u8)
        }),
{
    let q = quoted(m.key);
    let colon = seq![':' as u8];
    let k = at + m.before.len();
    let after = k + q.len();
    let c = after + m.between.len();
    let v = c + 1 + m.gap.len();
    let t4 = m.value + m.after;
    let t3 = m.gap + t4;
    let t2 = colon + t3;
    let t1 = m.between + t2;
    assert(member_text(m) =~= m.before + (q + t1));
    lemma_part_placed(s, at, m.before, q + t1);
    lemma_part_placed(s, k, q, t1);
    lemma_part_placed(s, after, m.between, t2);
    lemma_part_placed(s, c, colon, t3);
    lemma_part_placed(s, c + 1, m.gap, t4);
    lemma_part_placed(s, v, m.value, m.after);
    lemma_placed_byte(s, k, q, 0);
    lemma_placed_byte(s, c, colon, 0);
    lemma_placed_byte(s, v, m.value, 0);
    lemma_text_placed(s, k, m.key);
    lemma_blanks_are(s, at, m.before);
    lemma_blanks_are(s, after, m.between);
    lemma_blanks_are(s, c + 1, m.gap);
}

/// A member comes next: the first one at `at`, another one behind the comma before `at`.
pub proof fn lemma_next_is(s: Seq<u8>, i: nat, first: bool, at: nat, m: Written)
    requires
        placed(s, at, member_text(m)),
        is_laid_out(m),
        first ==> i == at,
        !first ==> at > 0 && blanks_end(s, i) == at - 1 && byte_at(s, (at - 1) as nat, ',' as u8),
    ensures
        next_member(s, i, first) == Some(Next::Member(m.key, at + value_place(m))),
{
    lemma_member_placed(s, at, m);
}

/// Whether the value of a member is read as `g` makes of `f`, wherever it stands.
pub open spec fn is_read(section: Section, m: Written, f: Reading, g: Reading) -> bool {
    forall|s: Seq<u8>, v: nat|
        placed(s, v, m.value) && delimited(s, v + m.value.len()) ==> #[trigger] member(
            section,
            s,
            m.key,
            v,
            f,
        ) == Some((g, v + m.value.len()))
}

/// Whether the value of a member of the request is read as `g` makes of `f`, wherever it
/// stands.
pub open spec fn is_read_in_root(m: Written, f: Reading, g: Reading) -> bool {
    forall|s: Seq<u8>, v: nat|
        placed(s, v, m.value) && delimited(s, v + m.value.len()) ==> #[trigger] root_member(
            s,
            m.key,
            v,
            f,
        ) == Some((g, v + m.value.len()))
}

/// What follows the value of the first of some members, and where the next one begins.
pub proof fn lemma_after_value(s: Seq<u8>, at: nat, ms: Seq<Written>)
    requires
        ms.len() > 0,
        is_laid_out(ms[0]),
        placed(s, at, members_text(ms) + seq!['}' as u8]),
    ensures
        placed(s, at, member_text(ms[0])),
        ({
            let e = at + value_place(ms[0]) + ms[0].value.len();
            let c = e + ms[0].after.len();
            &&& delimited(s, e)
            &&& blanks_end(s, e) == c
            &&& ms.len() == 1 ==> byte_at(s, c, '}' as u8) && c == at + members_text(ms).len()
            &&& ms.len() > 1 ==> byte_at(s, c, ',' as u8) && placed(
                s,
                c + 1,
                members_text(ms.drop_first()) + seq!['}' as u8],
            ) && c + 1 + members_text(ms.drop_first()).len() == at + members_text(ms).len()
        }),
{
    let m = ms[0];
    let close = seq!['}' as u8];
    let comma = seq![',' as u8];
    let rest = members_text(ms.drop_first()) + close;
    let tail = if ms.len() == 1 {
        close
    } else {
        comma + rest
    };
    let e = at + value_place(m) + m.value.len();
    let c = e + m.after.len();
    assert(members_text(ms) + close =~= member_text(m) + tail);
    lemma_part_placed(s, at, member_text(m), tail);
    assert(at + member_text(m).len() == c);
    lemma_placed_byte(s, c, tail, 0);
    if ms.len() > 1 {
        lemma_part_placed(s, c, comma, rest);
    }
    lemma_member_placed(s, at, m);
    lemma_blanks_are(s, e, m.after);
    if m.after.len() > 0 {
        lemma_placed_byte(s, e, m.after, 0);
    }
}

/// The members of a section are read one after the other.
proof fn lemma_members_read(
    section: Section,
    s: Seq<u8>,
    i: nat,
    first: bool,
    at: nat,
    ms: Seq<Written>,
    fs: Seq<Reading>,
)
    requires
        ms.len() > 0,
        fs.len() == ms.len() + 1,
        forall|k: int| 0 <= k < ms.len() ==> is_laid_out(#[trigger] ms[k]),
        forall|k: int|
            0 <= k < ms.len() ==> is_read(section, #[trigger] ms[k], fs[k], fs[k + 1]),
        placed(s, at, members_text(ms) + seq!['}' as u8]),
        first ==> i == at,
        !first ==> at > 0 && blanks_end(s, i) == at - 1 && byte_at(s, (at - 1) as nat, ',' as u8),
    ensures
        members(section, s, i, first, fs[0]) == Some(
            (fs.last(), (at + members_text(ms).len() + 1) as nat),
        ),
    decreases ms.len(),
{
    let m = ms[0];
    let v = at + value_place(m);
    let e = v + m.value.len();
    let c = e + m.after.len();
    assert(is_laid_out(ms[0]));
    assert(is_read(section, ms[0], fs[0], fs[1]));
    lemma_after_value(s, at, ms);
    lemma_member_placed(s, at, m);
    lemma_next_is(s, i, first, at, m);
    assert(member(section, s, m.key, v, fs[0]) == Some((fs[1], e)));
    if ms.len() == 1 {
        assert(next_member(s, e, false) == Some(Next::Close(c + 1)));
        assert(members(section, s, e, false, fs[1]) == Some((fs[1], c + 1)));
    } else {
        let rest = ms.drop_first();
        let after = fs.drop_first();
        assert forall|k: int| 0 <= k < rest.len() implies is_laid_out(#[trigger] rest[k])
            && is_read(section, rest[k], after[k], after[k + 1]) by {
            assert(rest[k] == ms[k + 1]);
            assert(is_read(section, ms[k + 1], fs[k + 1], fs[k + 2]));
        }
        lemma_members_read(section, s, e, false, c + 1, rest, after);
    }
}

/// The members of a request are read one after the other.
proof fn lemma_root_read(
    s: Seq<u8>,
    i: nat,
    first: bool,
    at: nat,
    ms: Seq<Written>,
    fs: Seq<Reading>,
)
    requires
        ms.len() > 0,
        fs.len() == ms.len() + 1,
        forall|k: int| 0 <= k < ms.len() ==> is_laid_out(#[trigger] ms[k]),
        forall|k: int|
            0 <= k < ms.len() ==> is_read_in_root(#[trigger] ms[k], fs[k], fs[k + 1]),
        placed(s, at, members_text(ms) + seq!['}' as u8]),
        first ==> i == at,
        !first ==> at > 0 && blanks_end(s, i) == at - 1 && byte_at(s, (at - 1) as nat, ',' as u8),
    ensures
        root_members(s, i, first, fs[0]) == Some(
            (fs.last(), (at + members_text(ms).len() + 1) as nat),
        ),
    decreases ms.len(),
{
    let m = ms[0];
    let v = at + value_place(m);
    let e = v + m.value.len();
    let c = e + m.after.len();
    assert(is_laid_out(ms[0]));
    assert(is_read_in_root(ms[0], fs[0], fs[1]));
    lemma_after_value(s, at, ms);
    lemma_member_placed(s, at, m);
    lemma_next_is(s, i, first, at, m);
    assert(root_member(s, m.key, v, fs[0]) == Some((fs[1], e)));
    if ms.len() == 1 {
        assert(next_member(s, e, false) == Some(Next::Close(c + 1)));
        assert(root_members(s, e, false, fs[1]) == Some((fs[1], c + 1)));
    } else {
        let rest = ms.drop_first();
        let after = fs.drop_first();
        assert forall|k: int| 0 <= k < rest.len() implies is_laid_out(#[trigger] rest[k])
            && is_read_in_root(rest[k], after[k], after[k + 1]) by {
            assert(rest[k] == ms[k + 1]);
            assert(is_read_in_root(ms[k + 1], fs[k + 1], fs[k + 2]));
        }
        lemma_root_read(s, e, false, c + 1, rest, after);
    }
}

/// An object is read, wherever it stands.
proof fn lemma_section_placed(
    section: Section,
    s: Seq<u8>,
    v: nat,
    ms: Seq<Written>,
    fs: Seq<Reading>,
)
    requires
        placed(s, v, object_text(ms)),
        ms.len() > 0,
        fs.len() == ms.len() + 1,
        forall|k: int| 0 <= k < ms.len() ==> is_laid_out(#[trigger] ms[k]),
        forall|k: int|
            0 <= k < ms.len() ==> is_read(section, #[trigger] ms[k], fs[k], fs[k + 1]),
    ensures
        byte_at(s, v, '{' as u8),
        section_at(section, s, v, fs[0]) == Some((fs.last(), v + object_text(ms).len())),
{
    let open = seq!['{' as u8];
    let rest = members_text(ms) + seq!['}' as u8];
    assert(object_text(ms) =~= open + rest);
    lemma_part_placed(s, v, open, rest);
    lemma_placed_byte(s, v, open, 0);
    lemma_members_read(section, s, v + 1, true, v + 1, ms, fs);
}

/// A request with members in any order, known ones and others, of which each is read on its
/// own, is read member by member: the last of a repeated one counts.
pub proof fn law_members_are_read_in_turn(ms: Seq<Written>, fs: Seq<Reading>)
    requires
        ms.len() > 0,
        fs.len() == ms.len() + 1,
        fs[0] == nothing_read(),
        forall|k: int| 0 <= k < ms.len() ==> is_laid_out(#[trigger] ms[k]),
        forall|k: int|
            0 <= k < ms.len() ==> is_read_in_root(#[trigger] ms[k], fs[k], fs[k + 1]),
    ensures
        request(object_text(ms)) == Some((fs.last(), object_text(ms).len())),
{
    let s = object_text(ms);
    let open = seq!['{' as u8];
    let rest = members_text(ms) + seq!['}' as u8];
    assert(s =~= open + rest);
    assert(s.subrange(0, s.len() as int) =~= s);
    lemma_part_placed(s, 0, open, rest);
    assert(blanks_end(s, 0) == 0);
    lemma_root_read(s, 1, true, 1, ms, fs);
}

/// Whether `t` writes a number; rounding counts.
pub open spec fn writes_number(t: Seq<u8>, x: Single) -> bool {
    is_numeral(t) && denoted(t) == Some(x)
}

pub open spec fn writes_integer(t: Seq<u8>, n: u32) -> bool {
    is_integer(t) && number(t) == n
}

pub open spec fn writes_text(t: Seq<u8>, x: Seq<char>) -> bool {
    is_plain(encode_utf8(x)) && t == quoted(encode_utf8(x))
}

/// What stands between the quotation marks.
pub open spec fn unquoted(t: Seq<u8>) -> Seq<u8> {
    t.subrange(1, t.len() - 1)
}

/// Whether `t` writes a moment, to the second: in UTC, or with an offset.
pub open spec fn writes_moment(t: Seq<u8>, at: Timestamp) -> bool {
    let text = unquoted(t);
    &&& t.len() >= 2 && t == quoted(text)
    &&& is_plain(text)
    &&& is_timestamp(text)
    &&& timestamp_offset(text) is Some || (number_at(text, 11, 13) < 24 && number_at(text, 14, 16)
        < 60 && number_at(text, 17, 19) < 60)
    &&& timestamp_seconds(text) == at.seconds()
    &&& at.nanoseconds() == 0
}

/// A list of names, as it is written: its elements, or the blanks in a list without any.
pub struct Names {
    pub elements: Seq<Listed>,
    pub gap: Seq<u8>,
}

/// What stands between the brackets of a list.
pub open spec fn names_text(xs: Names) -> Seq<u8> {
    if xs.elements.len() == 0 {
        xs.gap
    } else {
        listed(xs.elements)
    }
}

/// Whether `t` writes a list of names.
pub open spec fn writes_names(t: Seq<u8>, names: Seq<String>, xs: Names) -> bool {
    &&& are_listed(xs.elements)
    &&& are_blanks(xs.gap)
    &&& t == seq!['[' as u8] + names_text(xs) + seq![']' as u8]
    &&& xs.elements.len() == names.len()
    &&& forall|i: int|
        0 <= i < names.len() ==> (#[trigger] xs.elements[i]).text == encode_utf8(names[i]@)
}

/// Whether there is a member with the given key.
pub open spec fn has_key(ms: Seq<Written>, key: Seq<char>) -> bool {
    exists|k: int| 0 <= k < ms.len() && (#[trigger] ms[k]).key == ascii(key)
}

/// How a request is written: the members of its objects in any order, and the elements of its
/// list.
pub struct Layout {
    pub root: Seq<Written>,
    pub transaction: Seq<Written>,
    pub customer: Seq<Written>,
    pub known_merchants: Names,
    pub merchant: Seq<Written>,
    pub terminal: Seq<Written>,
    pub last_transaction: Seq<Written>,
}

/// Whether a member of the transaction has its value; others are passed over.
pub open spec fn writes_in_transaction(r: FraudRequest, m: Written) -> bool {
    if m.key == ascii("amount"@) {
        writes_number(m.value, r.transaction.amount)
    } else if m.key == ascii("installments"@) {
        writes_integer(m.value, r.transaction.installments)
    } else if m.key == ascii("requested_at"@) {
        writes_moment(m.value, r.transaction.requested_at)
    } else {
        is_value(m.value)
    }
}

/// Whether a member of the customer has its value; others are passed over.
pub open spec fn writes_in_customer(r: FraudRequest, xs: Names, m: Written) -> bool {
    if m.key == ascii("avg_amount"@) {
        writes_number(m.value, r.customer.avg_amount)
    } else if m.key == ascii("tx_count_24h"@) {
        writes_integer(m.value, r.customer.tx_count_24h)
    } else if m.key == ascii("known_merchants"@) {
        writes_names(m.value, r.customer.known_merchants@, xs)
    } else {
        is_value(m.value)
    }
}

/// Whether a member of the merchant has its value; others are passed over.
pub open spec fn writes_in_merchant(r: FraudRequest, m: Written) -> bool {
    if m.key == ascii("id"@) {
        writes_text(m.value, r.merchant.id@)
    } else if m.key == ascii("mcc"@) {
        writes_text(m.value, r.merchant.mcc@)
    } else if m.key == ascii("avg_amount"@) {
        writes_number(m.value, r.merchant.avg_amount)
    } else {
        is_value(m.value)
    }
}

/// Whether a member of the terminal has its value; others are passed over.
pub open spec fn writes_in_terminal(r: FraudRequest, m: Written) -> bool {
    if m.key == ascii("is_online"@) {
        m.value == bool_text(r.terminal.is_online)
    } else if m.key == ascii("card_present"@) {
        m.value == bool_text(r.terminal.card_present)
    } else if m.key == ascii("km_from_home"@) {
        writes_number(m.value, r.terminal.km_from_home)
    } else {
        is_value(m.value)
    }
}

/// Whether a member of the last transaction has its value; others are passed over.
pub open spec fn writes_in_last(r: FraudRequest, m: Written) -> bool {
    if m.key == ascii("timestamp"@) {
        writes_moment(m.value, r.last_transaction.unwrap().timestamp)
    } else if m.key == ascii("km_from_current"@) {
        writes_number(m.value, r.last_transaction.unwrap().km_from_current)
    } else {
        is_value(m.value)
    }
}

/// Whether a member of a section has its value; others are passed over.
pub open spec fn writes_in(section: Section, r: FraudRequest, xs: Names, m: Written) -> bool {
    match section {
        Section::Transaction => writes_in_transaction(r, m),
        Section::Customer => writes_in_customer(r, xs, m),
        Section::Merchant => writes_in_merchant(r, m),
        Section::Terminal => writes_in_terminal(r, m),
        Section::LastTransaction => writes_in_last(r, m),
    }
}

/// Whether a section has all its members.
pub open spec fn is_complete(section: Section, ms: Seq<Written>) -> bool {
    match section {
        Section::Transaction => has_key(ms, "amount"@) && has_key(ms, "installments"@) && has_key(
            ms,
            "requested_at"@,
        ),
        Section::Customer => has_key(ms, "avg_amount"@) && has_key(ms, "tx_count_24h"@) && has_key(
            ms,
            "known_merchants"@,
        ),
        Section::Merchant => has_key(ms, "id"@) && has_key(ms, "mcc"@) && has_key(
            ms,
            "avg_amount"@,
        ),
        Section::Terminal => has_key(ms, "is_online"@) && has_key(ms, "card_present"@) && has_key(
            ms,
            "km_from_home"@,
        ),
        Section::LastTransaction => has_key(ms, "timestamp"@) && has_key(ms, "km_from_current"@),
    }
}

/// Whether the members of a section write it.
pub open spec fn writes_section(
    section: Section,
    r: FraudRequest,
    xs: Names,
    ms: Seq<Written>,
) -> bool {
    &&& is_complete(section, ms)
    &&& forall|k: int|
        0 <= k < ms.len() ==> is_laid_out(#[trigger] ms[k]) && writes_in(section, r, xs, ms[k])
}

/// Whether a member of the request has its value; others are passed over.
pub open spec fn writes_in_root(r: FraudRequest, w: Layout, m: Written) -> bool {
    let xs = w.known_merchants;
    if m.key == ascii("transaction"@) {
        m.value == object_text(w.transaction) && writes_section(
            Section::Transaction,
            r,
            xs,
            w.transaction,
        )
    } else if m.key == ascii("customer"@) {
        m.value == object_text(w.customer) && writes_section(Section::Customer, r, xs, w.customer)
    } else if m.key == ascii("merchant"@) {
        m.value == object_text(w.merchant) && writes_section(Section::Merchant, r, xs, w.merchant)
    } else if m.key == ascii("terminal"@) {
        m.value == object_text(w.terminal) && writes_section(Section::Terminal, r, xs, w.terminal)
    } else if m.key == ascii("last_transaction"@) {
        if r.last_transaction is Some {
            m.value == object_text(w.last_transaction) && writes_section(
                Section::LastTransaction,
                r,
                xs,
                w.last_transaction,
            )
        } else {
            m.value == ascii("null"@)
        }
    } else if m.key == ascii("id"@) {
        writes_text(m.value, r.id@)
    } else {
        is_value(m.value)
    }
}

/// Whether a request is written in the given way. Its last transaction, if there is none, is
/// written as `null` or not at all.
pub open spec fn writes(r: FraudRequest, w: Layout) -> bool {
    &&& has_key(w.root, "transaction"@)
    &&& has_key(w.root, "customer"@)
    &&& has_key(w.root, "merchant"@)
    &&& has_key(w.root, "terminal"@)
    &&& r.last_transaction is Some ==> has_key(w.root, "last_transaction"@)
    &&& forall|k: int|
        0 <= k < w.root.len() ==> is_laid_out(#[trigger] w.root[k]) && writes_in_root(
            r,
            w,
            w.root[k],
        )
}

/// The fields after a member of a section.
spec fn step(section: Section, r: FraudRequest, xs: Names, key: Seq<u8>, f: Reading) -> Reading {
    let e = r.transaction.requested_at.seconds();
    match section {
        Section::Transaction => if key == ascii("amount"@) {
            Reading { amount: r.transaction.amount, ..f }
        } else if key == ascii("installments"@) {
            Reading { installments: r.transaction.installments as u64, ..f }
        } else if key == ascii("requested_at"@) {
            Reading {
                req_hour: hour_of(e) as u8,
                req_weekday: weekday_of(e / 86_400) as u8,
                req_epoch: e as i64,
                ..f
            }
        } else {
            f
        },
        Section::Customer => if key == ascii("avg_amount"@) {
            Reading { avg_amount: r.customer.avg_amount, ..f }
        } else if key == ascii("tx_count_24h"@) {
            Reading { tx_count_24h: r.customer.tx_count_24h as u64, ..f }
        } else if key == ascii("known_merchants"@) {
            Reading { known: names_text(xs), ..f }
        } else {
            f
        },
        Section::Merchant => if key == ascii("id"@) {
            Reading { merchant_id: encode_utf8(r.merchant.id@), ..f }
        } else if key == ascii("mcc"@) {
            Reading { mcc: encode_utf8(r.merchant.mcc@), ..f }
        } else if key == ascii("avg_amount"@) {
            Reading { merchant_avg: r.merchant.avg_amount, ..f }
        } else {
            f
        },
        Section::Terminal => if key == ascii("is_online"@) {
            Reading { is_online: r.terminal.is_online, ..f }
        } else if key == ascii("card_present"@) {
            Reading { card_present: r.terminal.card_present, ..f }
        } else if key == ascii("km_from_home"@) {
            Reading { km_from_home: r.terminal.km_from_home, ..f }
        } else {
            f
        },
        Section::LastTransaction => if key == ascii("timestamp"@) {
            Reading { last_epoch: r.last_transaction.unwrap().timestamp.seconds() as i64, ..f }
        } else if key == ascii("km_from_current"@) {
            Reading { last_km: r.last_transaction.unwrap().km_from_current, ..f }
        } else {
            f
        },
    }
}

/// The fields after a whole section.
spec fn with(section: Section, r: FraudRequest, xs: Names, f: Reading) -> Reading {
    let e = r.transaction.requested_at.seconds();
    match section {
        Section::Transaction => Reading {
            amount: r.transaction.amount,
            installments: r.transaction.installments as u64,
            req_hour: hour_of(e) as u8,
            req_weekday: weekday_of(e / 86_400) as u8,
            req_epoch: e as i64,
            ..f
        },
        Section::Customer => Reading {
            avg_amount: r.customer.avg_amount,
            tx_count_24h: r.customer.tx_count_24h as u64,
            known: names_text(xs),
            ..f
        },
        Section::Merchant => Reading {
            merchant_id: encode_utf8(r.merchant.id@),
            mcc: encode_utf8(r.merchant.mcc@),
            merchant_avg: r.merchant.avg_amount,
            ..f
        },
        Section::Terminal => Reading {
            is_online: r.terminal.is_online,
            card_present: r.terminal.card_present,
            km_from_home: r.terminal.km_from_home,
            ..f
        },
        Section::LastTransaction => Reading {
            last_epoch: r.last_transaction.unwrap().timestamp.seconds() as i64,
            last_km: r.last_transaction.unwrap().km_from_current,
            ..f
        },
    }
}

/// A value that is not looked at is passed over.
proof fn lemma_value_placed(s: Seq<u8>, v: nat, t: Seq<u8>)
    requires
        is_value(t),
        placed(s, v, t),
        delimited(s, v + t.len()),
    ensures
        value_end(s, v) == Some(v + t.len()),
{
    let j = choose|j: Json| #[trigger] is_json(j) && t == json_text(j);
    law_json_values_are_passed_over(j);
}

pub proof fn lemma_section_keys()
    ensures
        ascii("amount"@).len() == 6,
        ascii("installments"@).len() == 12 && ascii("installments"@)[0] == 'i' as u8,
        ascii("requested_at"@).len() == 12 && ascii("requested_at"@)[0] == 'r' as u8,
        ascii("avg_amount"@).len() == 10,
        ascii("tx_count_24h"@).len() == 12,
        ascii("known_merchants"@).len() == 15,
        ascii("id"@).len() == 2,
        ascii("mcc"@).len() == 3,
        ascii("is_online"@).len() == 9,
        ascii("card_present"@).len() == 12 && ascii("card_present"@)[0] == 'c' as u8,
        ascii("km_from_home"@).len() == 12 && ascii("km_from_home"@)[0] == 'k' as u8,
        ascii("timestamp"@).len() == 9,
        ascii("km_from_current"@).len() == 15,
{
    reveal_strlit("amount");
    reveal_strlit("installments");
    reveal_strlit("requested_at");
    reveal_strlit("avg_amount");
    reveal_strlit("tx_count_24h");
    reveal_strlit("known_merchants");
    reveal_strlit("id");
    reveal_strlit("mcc");
    reveal_strlit("is_online");
    reveal_strlit("card_present");
    reveal_strlit("km_from_home");
    reveal_strlit("timestamp");
    reveal_strlit("km_from_current");
}

pub proof fn lemma_root_keys()
    ensures
        ascii("id"@).len() == 2,
        ascii("transaction"@).len() == 11,
        ascii("customer"@).len() == 8 && ascii("customer"@)[0] == 'c' as u8,
        ascii("merchant"@).len() == 8 && ascii("merchant"@)[0] == 'm' as u8,
        ascii("terminal"@).len() == 8 && ascii("terminal"@)[0] == 't' as u8,
        ascii("last_transaction"@).len() == 16,
{
    reveal_strlit("id");
    reveal_strlit("transaction");
    reveal_strlit("customer");
    reveal_strlit("merchant");
    reveal_strlit("terminal");
    reveal_strlit("last_transaction");
}

proof fn lemma_read_in_transaction(r: FraudRequest, xs: Names, m: Written, f: Reading)
    requires
        writes_in_transaction(r, m),
    ensures
        is_read(Section::Transaction, m, f, step(Section::Transaction, r, xs, m.key, f)),
{
    let section = Section::Transaction;
    let g = step(section, r, xs, m.key, f);
    assert forall|s: Seq<u8>, v: nat|
        placed(s, v, m.value) && delimited(s, v + m.value.len()) implies #[trigger] member(
        section,
        s,
        m.key,
        v,
        f,
    ) == Some((g, v + m.value.len())) by {
        if m.key == ascii("amount"@) {
            lemma_decimal_placed(s, v, m.value);
        } else if m.key == ascii("installments"@) {
            lemma_uint_placed(s, v, m.value);
        } else if m.key == ascii("requested_at"@) {
            lemma_moment_placed(s, v, m.value, r.transaction.requested_at);
        } else {
            lemma_value_placed(s, v, m.value);
        }
    }
}

proof fn lemma_read_in_customer(r: FraudRequest, xs: Names, m: Written, f: Reading)
    requires
        writes_in_customer(r, xs, m),
    ensures
        is_read(Section::Customer, m, f, step(Section::Customer, r, xs, m.key, f)),
{
    let section = Section::Customer;
    let g = step(section, r, xs, m.key, f);
    assert forall|s: Seq<u8>, v: nat|
        placed(s, v, m.value) && delimited(s, v + m.value.len()) implies #[trigger] member(
        section,
        s,
        m.key,
        v,
        f,
    ) == Some((g, v + m.value.len())) by {
        if m.key == ascii("avg_amount"@) {
            lemma_decimal_placed(s, v, m.value);
        } else if m.key == ascii("tx_count_24h"@) {
            lemma_uint_placed(s, v, m.value);
        } else if m.key == ascii("known_merchants"@) {
            lemma_names_placed(s, v, xs);
        } else {
            lemma_value_placed(s, v, m.value);
        }
    }
}

proof fn lemma_read_in_merchant(r: FraudRequest, xs: Names, m: Written, f: Reading)
    requires
        writes_in_merchant(r, m),
    ensures
        is_read(Section::Merchant, m, f, step(Section::Merchant, r, xs, m.key, f)),
{
    let section = Section::Merchant;
    let g = step(section, r, xs, m.key, f);
    assert forall|s: Seq<u8>, v: nat|
        placed(s, v, m.value) && delimited(s, v + m.value.len()) implies #[trigger] member(
        section,
        s,
        m.key,
        v,
        f,
    ) == Some((g, v + m.value.len())) by {
        if m.key == ascii("id"@) {
            lemma_text_placed(s, v, encode_utf8(r.merchant.id@));
        } else if m.key == ascii("mcc"@) {
            lemma_text_placed(s, v, encode_utf8(r.merchant.mcc@));
        } else if m.key == ascii("avg_amount"@) {
            lemma_decimal_placed(s, v, m.value);
        } else {
            lemma_value_placed(s, v, m.value);
        }
    }
}

proof fn lemma_read_in_terminal(r: FraudRequest, xs: Names, m: Written, f: Reading)
    requires
        writes_in_terminal(r, m),
    ensures
        is_read(Section::Terminal, m, f, step(Section::Terminal, r, xs, m.key, f)),
{
    let section = Section::Terminal;
    let g = step(section, r, xs, m.key, f);
    assert forall|s: Seq<u8>, v: nat|
        placed(s, v, m.value) && delimited(s, v + m.value.len()) implies #[trigger] member(
        section,
        s,
        m.key,
        v,
        f,
    ) == Some((g, v + m.value.len())) by {
        if m.key == ascii("is_online"@) {
            lemma_bool_placed(s, v, r.terminal.is_online);
        } else if m.key == ascii("card_present"@) {
            lemma_bool_placed(s, v, r.terminal.card_present);
        } else if m.key == ascii("km_from_home"@) {
            lemma_decimal_placed(s, v, m.value);
        } else {
            lemma_value_placed(s, v, m.value);
        }
    }
}

proof fn lemma_read_in_last(r: FraudRequest, xs: Names, m: Written, f: Reading)
    requires
        writes_in_last(r, m),
    ensures
        is_read(Section::LastTransaction, m, f, step(Section::LastTransaction, r, xs, m.key, f)),
{
    let section = Section::LastTransaction;
    let g = step(section, r, xs, m.key, f);
    assert forall|s: Seq<u8>, v: nat|
        placed(s, v, m.value) && delimited(s, v + m.value.len()) implies #[trigger] member(
        section,
        s,
        m.key,
        v,
        f,
    ) == Some((g, v + m.value.len())) by {
        if m.key == ascii("timestamp"@) {
            lemma_moment_placed(s, v, m.value, r.last_transaction.unwrap().timestamp);
        } else if m.key == ascii("km_from_current"@) {
            lemma_decimal_placed(s, v, m.value);
        } else {
            lemma_value_placed(s, v, m.value);
        }
    }
}

/// A moment is read: its hour and its day of the week in UTC, and its seconds.
proof fn lemma_moment_placed(s: Seq<u8>, v: nat, t: Seq<u8>, at: Timestamp)
    requires
        placed(s, v, t),
        writes_moment(t, at),
    ensures
        ({
            let e = at.seconds();
            &&& moment_at(s, v) == Some(
                (
                    hour_of(e) as u8,
                    weekday_of(e / 86_400) as u8,
                    e as i64,
                    v + t.len(),
                ),
            )
            &&& -1_000_000_000_000 < e < 1_000_000_000_000
        }),
{
    let text = unquoted(t);
    lemma_text_placed(s, v, text);
    law_timestamps_are_moments(text);
    lemma_timestamp_range(text);
}

proof fn lemma_names_placed(s: Seq<u8>, v: nat, xs: Names)
    requires
        are_listed(xs.elements),
        are_blanks(xs.gap),
        placed(s, v, seq!['[' as u8] + names_text(xs) + seq![']' as u8]),
    ensures
        array_at(s, v) == Some((names_text(xs), v + names_text(xs).len() + 2)),
{
    let open = seq!['[' as u8];
    let close = seq![']' as u8];
    let inner = names_text(xs);
    let e = v + 1 + inner.len();
    assert(open + inner + close =~= open + (inner + close));
    lemma_part_placed(s, v, open, inner + close);
    lemma_placed_byte(s, v, open, 0);
    lemma_part_placed(s, v + 1, inner, close);
    lemma_placed_byte(s, e, close, 0);
    if xs.elements.len() == 0 {
        assert forall|k: int| v + 1 <= k < e implies s[k] != '"' as u8 && s[k] != '[' as u8 && s[k]
            != ']' as u8 by {
            lemma_placed_byte(s, v + 1, inner, k - v - 1);
            assert(is_blank(inner[k - v - 1]));
        }
        lemma_bracket_after_blanks(s, v + 1, e);
    } else {
        lemma_list_placed(s, v + 1, xs.elements);
    }
}

/// The names of a list are read back.
proof fn lemma_names_read_back(xs: Names, names: Seq<String>)
    requires
        writes_names(seq!['[' as u8] + names_text(xs) + seq![']' as u8], names, xs),
    ensures
        quoted_texts(names_text(xs), 0) == Seq::new(names.len(), |i: int| encode_utf8(names[i]@)),
{
    let expected = Seq::new(names.len(), |i: int| encode_utf8(names[i]@));
    if xs.elements.len() == 0 {
        let gap = xs.gap;
        assert forall|k: int| 0 <= k < gap.len() implies gap[k] != '"' as u8 by {
            assert(is_blank(gap[k]));
        }
        lemma_no_quotes(gap, 0, gap.len());
        assert(quoted_texts(gap, gap.len()) =~= Seq::empty());
        assert(quoted_texts(gap, 0) =~= expected);
    } else {
        law_listed_texts_are_read_back(xs.elements);
        assert(Seq::new(xs.elements.len(), |i: int| xs.elements[i].text) =~= expected);
    }
}

/// The fields after some members of a section.
spec fn steps(section: Section, r: FraudRequest, xs: Names, ms: Seq<Written>, f: Reading) -> Reading
    decreases ms.len(),
{
    if ms.len() == 0 {
        f
    } else {
        step(section, r, xs, ms.last().key, steps(section, r, xs, ms.drop_last(), f))
    }
}

/// A member that is there is there before the last one, or is the last one.
proof fn lemma_has_key(ms: Seq<Written>, key: Seq<char>)
    requires
        ms.len() > 0,
    ensures
        has_key(ms, key) == (has_key(ms.drop_last(), key) || ms.last().key == ascii(key)),
{
    let head = ms.drop_last();
    if has_key(ms, key) {
        let k = choose|k: int| 0 <= k < ms.len() && (#[trigger] ms[k]).key == ascii(key);
        if k < head.len() {
            assert(head[k].key == ascii(key));
        }
    }
    if has_key(head, key) {
        let k = choose|k: int| 0 <= k < head.len() && (#[trigger] head[k]).key == ascii(key);
        assert(ms[k].key == ascii(key));
    }
    if ms.last().key == ascii(key) {
        assert(ms[ms.len() - 1].key == ascii(key));
    }
}

proof fn lemma_steps_in_transaction(r: FraudRequest, xs: Names, ms: Seq<Written>, f: Reading)
    ensures
        ({
            let g = steps(Section::Transaction, r, xs, ms, f);
            let all = with(Section::Transaction, r, xs, f);
            &&& with(Section::Transaction, r, xs, g) == all
            &&& has_key(ms, "amount"@) ==> g.amount == all.amount
            &&& has_key(ms, "installments"@) ==> g.installments == all.installments
            &&& has_key(ms, "requested_at"@) ==> g.req_hour == all.req_hour
            &&& has_key(ms, "requested_at"@) ==> g.req_weekday == all.req_weekday
            &&& has_key(ms, "requested_at"@) ==> g.req_epoch == all.req_epoch
        }),
    decreases ms.len(),
{
    if ms.len() > 0 {
        lemma_steps_in_transaction(r, xs, ms.drop_last(), f);
        lemma_section_keys();
        lemma_has_key(ms, "amount"@);
        lemma_has_key(ms, "installments"@);
        lemma_has_key(ms, "requested_at"@);
    }
}

proof fn lemma_steps_in_customer(r: FraudRequest, xs: Names, ms: Seq<Written>, f: Reading)
    ensures
        ({
            let g = steps(Section::Customer, r, xs, ms, f);
            let all = with(Section::Customer, r, xs, f);
            &&& with(Section::Customer, r, xs, g) == all
            &&& has_key(ms, "avg_amount"@) ==> g.avg_amount == all.avg_amount
            &&& has_key(ms, "tx_count_24h"@) ==> g.tx_count_24h == all.tx_count_24h
            &&& has_key(ms, "known_merchants"@) ==> g.known == all.known
        }),
    decreases ms.len(),
{
    if ms.len() > 0 {
        lemma_steps_in_customer(r, xs, ms.drop_last(), f);
        lemma_section_keys();
        lemma_has_key(ms, "avg_amount"@);
        lemma_has_key(ms, "tx_count_24h"@);
        lemma_has_key(ms, "known_merchants"@);
    }
}

proof fn lemma_steps_in_merchant(r: FraudRequest, xs: Names, ms: Seq<Written>, f: Reading)
    ensures
        ({
            let g = steps(Section::Merchant, r, xs, ms, f);
            let all = with(Section::Merchant, r, xs, f);
            &&& with(Section::Merchant, r, xs, g) == all
            &&& has_key(ms, "id"@) ==> g.merchant_id == all.merchant_id
            &&& has_key(ms, "mcc"@) ==> g.mcc == all.mcc
            &&& has_key(ms, "avg_amount"@) ==> g.merchant_avg == all.merchant_avg
        }),
    decreases ms.len(),
{
    if ms.len() > 0 {
        lemma_steps_in_merchant(r, xs, ms.drop_last(), f);
        lemma_section_keys();
        lemma_has_key(ms, "id"@);
        lemma_has_key(ms, "mcc"@);
        lemma_has_key(ms, "avg_amount"@);
    }
}

proof fn lemma_steps_in_terminal(r: FraudRequest, xs: Names, ms: Seq<Written>, f: Reading)
    ensures
        ({
            let g = steps(Section::Terminal, r, xs, ms, f);
            let all = with(Section::Terminal, r, xs, f);
            &&& with(Section::Terminal, r, xs, g) == all
            &&& has_key(ms, "is_online"@) ==> g.is_online == all.is_online
            &&& has_key(ms, "card_present"@) ==> g.card_present == all.card_present
            &&& has_key(ms, "km_from_home"@) ==> g.km_from_home == all.km_from_home
        }),
    decreases ms.len(),
{
    if ms.len() > 0 {
        lemma_steps_in_terminal(r, xs, ms.drop_last(), f);
        lemma_section_keys();
        lemma_has_key(ms, "is_online"@);
        lemma_has_key(ms, "card_present"@);
        lemma_has_key(ms, "km_from_home"@);
    }
}

proof fn lemma_steps_in_last(r: FraudRequest, xs: Names, ms: Seq<Written>, f: Reading)
    ensures
        ({
            let g = steps(Section::LastTransaction, r, xs, ms, f);
            let all = with(Section::LastTransaction, r, xs, f);
            &&& with(Section::LastTransaction, r, xs, g) == all
            &&& has_key(ms, "timestamp"@) ==> g.last_epoch == all.last_epoch
            &&& has_key(ms, "km_from_current"@) ==> g.last_km == all.last_km
        }),
    decreases ms.len(),
{
    if ms.len() > 0 {
        lemma_steps_in_last(r, xs, ms.drop_last(), f);
        lemma_section_keys();
        lemma_has_key(ms, "timestamp"@);
        lemma_has_key(ms, "km_from_current"@);
    }
}

/// A section that has all its members leaves all its fields.
proof fn lemma_complete(section: Section, r: FraudRequest, xs: Names, ms: Seq<Written>, f: Reading)
    requires
        is_complete(section, ms),
    ensures
        steps(section, r, xs, ms, f) == with(section, r, xs, f),
        ms.len() > 0,
{
    match section {
        Section::Transaction => {
            lemma_steps_in_transaction(r, xs, ms, f);
        },
        Section::Customer => {
            lemma_steps_in_customer(r, xs, ms, f);
        },
        Section::Merchant => {
            lemma_steps_in_merchant(r, xs, ms, f);
        },
        Section::Terminal => {
            lemma_steps_in_terminal(r, xs, ms, f);
        },
        Section::LastTransaction => {
            lemma_steps_in_last(r, xs, ms, f);
        },
    }
}

/// A section is read, wherever it stands.
proof fn lemma_written_section(
    section: Section,
    r: FraudRequest,
    xs: Names,
    ms: Seq<Written>,
    s: Seq<u8>,
    v: nat,
    f: Reading,
)
    requires
        writes_section(section, r, xs, ms),
        placed(s, v, object_text(ms)),
    ensures
        byte_at(s, v, '{' as u8),
        section_at(section, s, v, f) == Some(
            (with(section, r, xs, f), v + object_text(ms).len()),
        ),
{
    let fs = Seq::new(
        ms.len() + 1,
        |k: int| steps(section, r, xs, ms.subrange(0, k), f),
    );
    lemma_complete(section, r, xs, ms, f);
    assert(ms.subrange(0, 0) =~= Seq::empty());
    assert(ms.subrange(0, ms.len() as int) =~= ms);
    assert forall|k: int| 0 <= k < ms.len() implies is_read(
        section,
        #[trigger] ms[k],
        fs[k],
        fs[k + 1],
    ) by {
        let next = ms.subrange(0, k + 1);
        assert(next.drop_last() =~= ms.subrange(0, k));
        assert(next.last() == ms[k]);
        assert(writes_in(section, r, xs, ms[k]));
        match section {
            Section::Transaction => {
                lemma_read_in_transaction(r, xs, ms[k], fs[k]);
            },
            Section::Customer => {
                lemma_read_in_customer(r, xs, ms[k], fs[k]);
            },
            Section::Merchant => {
                lemma_read_in_merchant(r, xs, ms[k], fs[k]);
            },
            Section::Terminal => {
                lemma_read_in_terminal(r, xs, ms[k], fs[k]);
            },
            Section::LastTransaction => {
                lemma_read_in_last(r, xs, ms[k], fs[k]);
            },
        }
    }
    lemma_section_placed(section, s, v, ms, fs);
}

/// The fields after the last transaction, if there is one.
spec fn with_last(r: FraudRequest, xs: Names, f: Reading) -> Reading {
    if r.last_transaction is Some {
        with(Section::LastTransaction, r, xs, Reading { last_present: true, ..f })
    } else {
        f
    }
}

/// The fields after a member of the request.
spec fn root_step(r: FraudRequest, xs: Names, key: Seq<u8>, f: Reading) -> Reading {
    if key == ascii("transaction"@) {
        with(Section::Transaction, r, xs, f)
    } else if key == ascii("customer"@) {
        with(Section::Customer, r, xs, f)
    } else if key == ascii("merchant"@) {
        with(Section::Merchant, r, xs, f)
    } else if key == ascii("terminal"@) {
        with(Section::Terminal, r, xs, f)
    } else if key == ascii("last_transaction"@) {
        with_last(r, xs, f)
    } else {
        f
    }
}

/// The fields after the whole request.
spec fn with_all(r: FraudRequest, xs: Names, f: Reading) -> Reading {
    with_last(
        r,
        xs,
        with(
            Section::Terminal,
            r,
            xs,
            with(
                Section::Merchant,
                r,
                xs,
                with(Section::Customer, r, xs, with(Section::Transaction, r, xs, f)),
            ),
        ),
    )
}

pub proof fn lemma_null_placed(s: Seq<u8>, v: nat)
    requires
        placed(s, v, ascii("null"@)),
    ensures
        byte_at(s, v, 'n' as u8),
        null_end(s, v) == Some((v + ascii("null"@).len()) as nat),
{
    reveal_strlit("null");
    lemma_placed_byte(s, v, ascii("null"@), 0);
}

proof fn lemma_read_in_root(r: FraudRequest, w: Layout, m: Written, f: Reading)
    requires
        writes_in_root(r, w, m),
    ensures
        is_read_in_root(m, f, root_step(r, w.known_merchants, m.key, f)),
{
    let xs = w.known_merchants;
    let g = root_step(r, xs, m.key, f);
    lemma_root_keys();
    assert forall|s: Seq<u8>, v: nat|
        placed(s, v, m.value) && delimited(s, v + m.value.len()) implies #[trigger] root_member(
        s,
        m.key,
        v,
        f,
    ) == Some((g, v + m.value.len())) by {
        if m.key == ascii("transaction"@) {
            lemma_written_section(Section::Transaction, r, xs, w.transaction, s, v, f);
        } else if m.key == ascii("customer"@) {
            lemma_written_section(Section::Customer, r, xs, w.customer, s, v, f);
        } else if m.key == ascii("merchant"@) {
            lemma_written_section(Section::Merchant, r, xs, w.merchant, s, v, f);
        } else if m.key == ascii("terminal"@) {
            lemma_written_section(Section::Terminal, r, xs, w.terminal, s, v, f);
        } else if m.key == ascii("last_transaction"@) {
            if r.last_transaction is Some {
                lemma_written_section(
                    Section::LastTransaction,
                    r,
                    xs,
                    w.last_transaction,
                    s,
                    v,
                    Reading { last_present: true, ..f },
                );
            } else {
                lemma_null_placed(s, v);
            }
        } else if m.key == ascii("id"@) {
            lemma_text_placed(s, v, encode_utf8(r.id@));
        } else {
            lemma_value_placed(s, v, m.value);
        }
    }
}

/// The fields after some members of the request.
spec fn root_steps(r: FraudRequest, xs: Names, ms: Seq<Written>, f: Reading) -> Reading
    decreases ms.len(),
{
    if ms.len() == 0 {
        f
    } else {
        root_step(r, xs, ms.last().key, root_steps(r, xs, ms.drop_last(), f))
    }
}

proof fn lemma_root_steps(r: FraudRequest, xs: Names, ms: Seq<Written>, f: Reading)
    ensures
        ({
            let g = root_steps(r, xs, ms, f);
            &&& with_all(r, xs, g) == with_all(r, xs, f)
            &&& has_key(ms, "transaction"@) ==> with(Section::Transaction, r, xs, g) == g
            &&& has_key(ms, "customer"@) ==> with(Section::Customer, r, xs, g) == g
            &&& has_key(ms, "merchant"@) ==> with(Section::Merchant, r, xs, g) == g
            &&& has_key(ms, "terminal"@) ==> with(Section::Terminal, r, xs, g) == g
            &&& has_key(ms, "last_transaction"@) ==> with_last(r, xs, g) == g
        }),
    decreases ms.len(),
{
    if ms.len() > 0 {
        lemma_root_steps(r, xs, ms.drop_last(), f);
        lemma_root_keys();
        lemma_has_key(ms, "transaction"@);
        lemma_has_key(ms, "customer"@);
        lemma_has_key(ms, "merchant"@);
        lemma_has_key(ms, "terminal"@);
        lemma_has_key(ms, "last_transaction"@);
    }
}

proof fn lemma_fields_correspond(r: FraudRequest, w: Layout)
    requires
        writes(r, w),
        r.merchant.id@.len() > 0 || !is_known(r.customer.known_merchants@, r.merchant.id@),
    ensures
        corresponds(r, with_all(r, w.known_merchants, nothing_read())),
{
    let xs = w.known_merchants;
    let known = r.customer.known_merchants@;
    lemma_root_keys();
    lemma_section_keys();
    let a = choose|k: int| 0 <= k < w.root.len() && (#[trigger] w.root[k]).key == ascii(
        "transaction"@,
    );
    assert(writes_in_root(r, w, w.root[a]));
    let b = choose|k: int|
        0 <= k < w.transaction.len() && (#[trigger] w.transaction[k]).key == ascii(
            "requested_at"@,
        );
    assert(writes_in(Section::Transaction, r, xs, w.transaction[b]));
    lemma_timestamp_range(unquoted(w.transaction[b].value));
    let c = choose|k: int| 0 <= k < w.root.len() && (#[trigger] w.root[k]).key == ascii(
        "customer"@,
    );
    assert(writes_in_root(r, w, w.root[c]));
    let d = choose|k: int|
        0 <= k < w.customer.len() && (#[trigger] w.customer[k]).key == ascii("known_merchants"@);
    assert(writes_in(Section::Customer, r, xs, w.customer[d]));
    lemma_names_read_back(xs, known);
    if r.last_transaction is Some {
        let e = choose|k: int| 0 <= k < w.root.len() && (#[trigger] w.root[k]).key == ascii(
            "last_transaction"@,
        );
        assert(writes_in_root(r, w, w.root[e]));
        let g = choose|k: int|
            0 <= k < w.last_transaction.len() && (#[trigger] w.last_transaction[k]).key == ascii(
                "timestamp"@,
            );
        assert(writes_in(Section::LastTransaction, r, xs, w.last_transaction[g]));
        lemma_timestamp_range(unquoted(w.last_transaction[g].value));
    }
}

/// A request that is written as a JSON text is read back: the vector of the text is the
/// vector of the request. Members may come in any order, with others between them. A merchant
/// without a name is not among those that are known.
#[verifier::rlimit(40)]
pub proof fn law_written_request_is_read_back(r: FraudRequest, w: Layout)
    requires
        writes(r, w),
        r.merchant.id@.len() > 0 || !is_known(r.customer.known_merchants@, r.merchant.id@),
    ensures
        request(object_text(w.root)) matches Some((f, e)) && corresponds(r, f) && e == object_text(
            w.root,
        ).len(),
        request_components(object_text(w.root)) == Some(components(features_of(r))),
{
    let ms = w.root;
    let xs = w.known_merchants;
    let f = nothing_read();
    let fs = Seq::new(ms.len() + 1, |k: int| root_steps(r, xs, ms.subrange(0, k), f));
    assert(ms.subrange(0, 0) =~= Seq::empty());
    assert(ms.subrange(0, ms.len() as int) =~= ms);
    assert forall|k: int| 0 <= k < ms.len() implies is_read_in_root(
        #[trigger] ms[k],
        fs[k],
        fs[k + 1],
    ) by {
        let next = ms.subrange(0, k + 1);
        assert(next.drop_last() =~= ms.subrange(0, k));
        assert(next.last() == ms[k]);
        assert(writes_in_root(r, w, ms[k]));
        lemma_read_in_root(r, w, ms[k], fs[k]);
    }
    law_members_are_read_in_turn(ms, fs);
    lemma_root_steps(r, xs, ms, f);
    let g = root_steps(r, xs, ms, f);
    assert(g == with_all(r, xs, f));
    lemma_fields_correspond(r, w);
    law_reading_agrees_with_the_request(r, g);
}

/// A request whose numbers are next to those that its text denotes, as they are when numerals
/// are read by way of double precision, has nearly the vector of the text: no component
/// differs by more than 1/100000. `t` is the request with the numbers that the text denotes.
pub proof fn law_written_request_is_nearly_read_back(r: FraudRequest, t: FraudRequest, w: Layout)
    requires
        writes(t, w),
        are_next(r, t),
        r.merchant.id@.len() > 0 || !is_known(r.customer.known_merchants@, r.merchant.id@),
    ensures
        request_components(object_text(w.root)) matches Some(v) && v.len() == DIMS && (forall|
            d: int,
        |
            0 <= d < DIMS ==> is_close(#[trigger] v[d], components(features_of(r))[d])),
{
    law_written_request_is_read_back(t, w);
    law_next_requests_have_close_vectors(r, t);
    let v = components(features_of(t));
    assert forall|d: int| 0 <= d < DIMS implies is_close(
        #[trigger] v[d],
        components(features_of(r))[d],
    ) by {
        assert(is_close(components(features_of(r))[d], v[d]));
    }
}

} // verus!
