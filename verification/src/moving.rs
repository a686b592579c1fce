//! A text reads the same wherever it stands.

use vstd::prelude::*;

use crate::fast_parse::{
    customer_member, last_tx_member, law_request_ignores_what_follows, lemma_member,
    lemma_next_member, lemma_root_member, member, members, merchant_member, moment_at, next_member,
    nothing_read, request, request_at, request_components, root_member, root_members, section_at,
    terminal_member, transaction_member, Next, Reading, Section,
};
use crate::json::{
    array_at, array_end, blanks_end, bool_at, braces_end, brackets_end, byte_at, closing_bracket,
    decimal_at, is_blank, is_number_byte, lemma_braces_end, lemma_closing_bracket, lemma_number_end,
    lemma_quote_from, lemma_string_end, null_end, number_end, object_end, quote_from, quoted_end,
    string_end, text_at, uint_at, value_end,
};
use crate::text::{digits_end, has_text_at, is_digit, lemma_digits_end};
use crate::written::is_white;

verus! {

/// What is read, `n` places on.
pub open spec fn moved<T>(r: Option<(T, nat)>, n: nat) -> Option<(T, nat)> {
    match r {
        Some((x, e)) => Some((x, e + n)),
        None => None,
    }
}

/// A position, `n` places on.
pub open spec fn moved_end(r: Option<nat>, n: nat) -> Option<nat> {
    match r {
        Some(e) => Some(e + n),
        None => None,
    }
}

/// What comes next in an object, `n` places on.
pub open spec fn moved_next(r: Option<Next>, n: nat) -> Option<Next> {
    match r {
        Some(Next::Close(e)) => Some(Next::Close(e + n)),
        Some(Next::Member(key, v)) => Some(Next::Member(key, v + n)),
        None => None,
    }
}

proof fn lemma_blanks_move(w: Seq<u8>, s: Seq<u8>, i: nat)
    ensures
        blanks_end(w + s, i + w.len()) == blanks_end(s, i) + w.len(),
    decreases s.len() - i,
{
    if i < s.len() {
        assert((w + s)[(i + w.len()) as int] == s[i as int]);
        if is_blank(s[i as int]) {
            lemma_blanks_move(w, s, i + 1);
        }
    }
}

proof fn lemma_quote_moves(w: Seq<u8>, s: Seq<u8>, i: nat)
    ensures
        quote_from(w + s, i + w.len()) == quote_from(s, i) + w.len(),
    decreases s.len() - i,
{
    if i < s.len() {
        assert((w + s)[(i + w.len()) as int] == s[i as int]);
        if s[i as int] != '"' as u8 {
            lemma_quote_moves(w, s, i + 1);
        }
    }
}

proof fn lemma_digits_move(w: Seq<u8>, s: Seq<u8>, i: nat)
    ensures
        digits_end(w + s, i + w.len()) == digits_end(s, i) + w.len(),
    decreases s.len() - i,
{
    if i < s.len() {
        assert((w + s)[(i + w.len()) as int] == s[i as int]);
        if is_digit(s[i as int]) {
            lemma_digits_move(w, s, i + 1);
        }
    }
}

proof fn lemma_number_moves(w: Seq<u8>, s: Seq<u8>, i: nat)
    ensures
        number_end(w + s, i + w.len()) == number_end(s, i) + w.len(),
    decreases s.len() - i,
{
    if i < s.len() {
        assert((w + s)[(i + w.len()) as int] == s[i as int]);
        if is_number_byte(s[i as int]) {
            lemma_number_moves(w, s, i + 1);
        }
    }
}

proof fn lemma_string_moves(w: Seq<u8>, s: Seq<u8>, i: nat)
    ensures
        string_end(w + s, i + w.len()) == moved_end(string_end(s, i), w.len()),
    decreases s.len() + 1 - i,
{
    if i < s.len() {
        assert((w + s)[(i + w.len()) as int] == s[i as int]);
        if s[i as int] != '"' as u8 {
            if s[i as int] == '\\' as u8 {
                lemma_string_moves(w, s, i + 2);
            } else {
                lemma_string_moves(w, s, i + 1);
            }
        }
    }
}

proof fn lemma_bracket_moves(w: Seq<u8>, s: Seq<u8>, i: nat, depth: nat)
    ensures
        closing_bracket(w + s, i + w.len(), depth) == moved_end(
            closing_bracket(s, i, depth),
            w.len(),
        ),
    decreases s.len() - i,
{
    if i < s.len() {
        assert((w + s)[(i + w.len()) as int] == s[i as int]);
        if s[i as int] == '"' as u8 {
            lemma_string_end(s, i + 1);
            lemma_string_moves(w, s, i + 1);
            if let Some(e) = string_end(s, i + 1) {
                lemma_bracket_moves(w, s, e, depth);
            }
        } else if s[i as int] == '[' as u8 {
            lemma_bracket_moves(w, s, i + 1, depth + 1);
        } else if s[i as int] == ']' as u8 {
            if depth > 1 {
                lemma_bracket_moves(w, s, i + 1, (depth - 1) as nat);
            }
        } else {
            lemma_bracket_moves(w, s, i + 1, depth);
        }
    }
}

proof fn lemma_braces_move(w: Seq<u8>, s: Seq<u8>, i: nat, depth: nat)
    ensures
        braces_end(w + s, i + w.len(), depth) == moved_end(braces_end(s, i, depth), w.len()),
    decreases s.len() - i,
{
    if depth > 0 && i < s.len() {
        assert((w + s)[(i + w.len()) as int] == s[i as int]);
        if s[i as int] == '"' as u8 {
            lemma_string_end(s, i + 1);
            lemma_string_moves(w, s, i + 1);
            if let Some(e) = string_end(s, i + 1) {
                lemma_braces_move(w, s, e, depth);
            }
        } else if s[i as int] == '{' as u8 {
            lemma_braces_move(w, s, i + 1, depth + 1);
        } else if s[i as int] == '}' as u8 {
            lemma_braces_move(w, s, i + 1, (depth - 1) as nat);
        } else {
            lemma_braces_move(w, s, i + 1, depth);
        }
    }
}

proof fn lemma_brackets_move(w: Seq<u8>, s: Seq<u8>, i: nat, depth: nat)
    ensures
        brackets_end(w + s, i + w.len(), depth) == moved_end(brackets_end(s, i, depth), w.len()),
    decreases s.len() - i,
{
    if depth > 0 && i < s.len() {
        assert((w + s)[(i + w.len()) as int] == s[i as int]);
        if s[i as int] == '"' as u8 {
            lemma_string_end(s, i + 1);
            lemma_string_moves(w, s, i + 1);
            if let Some(e) = string_end(s, i + 1) {
                lemma_brackets_move(w, s, e, depth);
            }
        } else if s[i as int] == '{' as u8 {
            lemma_braces_end(s, i + 1, 1);
            lemma_braces_move(w, s, i + 1, 1);
            if let Some(e) = braces_end(s, i + 1, 1) {
                lemma_brackets_move(w, s, e, depth);
            }
        } else if s[i as int] == '[' as u8 {
            lemma_brackets_move(w, s, i + 1, depth + 1);
        } else if s[i as int] == ']' as u8 {
            lemma_brackets_move(w, s, i + 1, (depth - 1) as nat);
        } else {
            lemma_brackets_move(w, s, i + 1, depth);
        }
    }
}

proof fn lemma_has_text_moves(w: Seq<u8>, s: Seq<u8>, i: nat, text: Seq<char>)
    ensures
        has_text_at(w + s, (i + w.len()) as int, text) == has_text_at(s, i as int, text),
{
    let at = (i + w.len()) as int;
    if i + text.len() <= s.len() {
        assert((w + s).subrange(at, at + text.len()) =~= s.subrange(
            i as int,
            i as int + text.len(),
        ));
    }
}

proof fn lemma_text_moves(w: Seq<u8>, s: Seq<u8>, i: nat)
    ensures
        text_at(w + s, i + w.len()) == moved(text_at(s, i), w.len()),
        quoted_end(w + s, i + w.len()) == moved_end(quoted_end(s, i), w.len()),
{
    lemma_quote_moves(w, s, i + 1);
    lemma_string_moves(w, s, i + 1);
    lemma_quote_from(s, i + 1);
    let end = quote_from(s, i + 1);
    let n = w.len() as int;
    if i < s.len() && end < s.len() {
        assert((w + s).subrange(i + n + 1, end + n) =~= s.subrange(i as int + 1, end as int));
    }
}

proof fn lemma_numbers_move(w: Seq<u8>, s: Seq<u8>, i: nat)
    ensures
        uint_at(w + s, i + w.len()) == moved(uint_at(s, i), w.len()),
        decimal_at(w + s, i + w.len()) == moved(decimal_at(s, i), w.len()),
{
    let n = w.len() as int;
    lemma_digits_move(w, s, i);
    lemma_number_moves(w, s, i);
    lemma_number_end(s, i);
    if i < s.len() {
        lemma_digits_end(s, i);
        assert((w + s).subrange(i + n, digits_end(s, i) + n) =~= s.subrange(
            i as int,
            digits_end(s, i) as int,
        ));
        assert((w + s).subrange(i + n, number_end(s, i) + n) =~= s.subrange(
            i as int,
            number_end(s, i) as int,
        ));
    }
}

proof fn lemma_words_move(w: Seq<u8>, s: Seq<u8>, i: nat)
    ensures
        bool_at(w + s, i + w.len()) == moved(bool_at(s, i), w.len()),
        null_end(w + s, i + w.len()) == moved_end(null_end(s, i), w.len()),
{
    lemma_has_text_moves(w, s, i, "true"@);
    lemma_has_text_moves(w, s, i, "false"@);
    lemma_has_text_moves(w, s, i, "null"@);
}

proof fn lemma_array_moves(w: Seq<u8>, s: Seq<u8>, i: nat)
    ensures
        array_at(w + s, i + w.len()) == moved(array_at(s, i), w.len()),
{
    let n = w.len() as int;
    lemma_bracket_moves(w, s, i + 1, 1);
    lemma_closing_bracket(s, i + 1, 1);
    if let Some(e) = closing_bracket(s, i + 1, 1) {
        assert((w + s).subrange(i + n + 1, e + n) =~= s.subrange(i as int + 1, e as int));
    }
}

proof fn lemma_value_moves(w: Seq<u8>, s: Seq<u8>, i: nat)
    ensures
        value_end(w + s, i + w.len()) == moved_end(value_end(s, i), w.len()),
{
    let j = blanks_end(s, i);
    lemma_blanks_move(w, s, i);
    if j < s.len() {
        assert((w + s)[(j + w.len()) as int] == s[j as int]);
        lemma_text_moves(w, s, j);
        lemma_braces_move(w, s, j + 1, 1);
        lemma_brackets_move(w, s, j + 1, 1);
        lemma_words_move(w, s, j);
        lemma_number_moves(w, s, j);
        assert(object_end(w + s, j + w.len()) == moved_end(object_end(s, j), w.len()));
        assert(array_end(w + s, j + w.len()) == moved_end(array_end(s, j), w.len()));
    }
}

proof fn lemma_byte_moves(w: Seq<u8>, s: Seq<u8>, i: nat, b: u8)
    ensures
        byte_at(w + s, i + w.len(), b) == byte_at(s, i, b),
{
}

proof fn lemma_next_moves(w: Seq<u8>, s: Seq<u8>, i: nat, first: bool)
    ensures
        next_member(w + s, i + w.len(), first) == moved_next(next_member(s, i, first), w.len()),
{
    let j = blanks_end(s, i);
    let k = if first {
        j
    } else {
        blanks_end(s, j + 1)
    };
    lemma_blanks_move(w, s, i);
    lemma_blanks_move(w, s, j + 1);
    lemma_byte_moves(w, s, j, '}' as u8);
    lemma_byte_moves(w, s, j, ',' as u8);
    lemma_text_moves(w, s, k);
    if let Some((_, after)) = text_at(s, k) {
        let c = blanks_end(s, after);
        lemma_blanks_move(w, s, after);
        lemma_byte_moves(w, s, c, ':' as u8);
        lemma_blanks_move(w, s, c + 1);
    }
}

proof fn lemma_moment_moves(w: Seq<u8>, s: Seq<u8>, v: nat)
    ensures
        moment_at(w + s, v + w.len()) == match moment_at(s, v) {
            Some((hour, weekday, epoch, e)) => Some((hour, weekday, epoch, e + w.len())),
            None => None,
        },
{
    lemma_text_moves(w, s, v);
}

proof fn lemma_transaction_moves(w: Seq<u8>, s: Seq<u8>, key: Seq<u8>, v: nat, f: Reading)
    ensures
        transaction_member(w + s, key, v + w.len(), f) == moved(
            transaction_member(s, key, v, f),
            w.len(),
        ),
{
    lemma_value_moves(w, s, v);
    lemma_numbers_move(w, s, v);
    lemma_moment_moves(w, s, v);
}

proof fn lemma_customer_moves(w: Seq<u8>, s: Seq<u8>, key: Seq<u8>, v: nat, f: Reading)
    ensures
        customer_member(w + s, key, v + w.len(), f) == moved(
            customer_member(s, key, v, f),
            w.len(),
        ),
{
    lemma_value_moves(w, s, v);
    lemma_numbers_move(w, s, v);
    lemma_array_moves(w, s, v);
}

proof fn lemma_merchant_moves(w: Seq<u8>, s: Seq<u8>, key: Seq<u8>, v: nat, f: Reading)
    ensures
        merchant_member(w + s, key, v + w.len(), f) == moved(
            merchant_member(s, key, v, f),
            w.len(),
        ),
{
    lemma_value_moves(w, s, v);
    lemma_text_moves(w, s, v);
    lemma_numbers_move(w, s, v);
}

proof fn lemma_terminal_moves(w: Seq<u8>, s: Seq<u8>, key: Seq<u8>, v: nat, f: Reading)
    ensures
        terminal_member(w + s, key, v + w.len(), f) == moved(
            terminal_member(s, key, v, f),
            w.len(),
        ),
{
    lemma_value_moves(w, s, v);
    lemma_words_move(w, s, v);
    lemma_numbers_move(w, s, v);
}

proof fn lemma_last_tx_moves(w: Seq<u8>, s: Seq<u8>, key: Seq<u8>, v: nat, f: Reading)
    ensures
        last_tx_member(w + s, key, v + w.len(), f) == moved(
            last_tx_member(s, key, v, f),
            w.len(),
        ),
{
    lemma_value_moves(w, s, v);
    lemma_moment_moves(w, s, v);
    lemma_numbers_move(w, s, v);
}

proof fn lemma_member_moves(
    section: Section,
    w: Seq<u8>,
    s: Seq<u8>,
    key: Seq<u8>,
    v: nat,
    f: Reading,
)
    ensures
        member(section, w + s, key, v + w.len(), f) == moved(
            member(section, s, key, v, f),
            w.len(),
        ),
{
    lemma_transaction_moves(w, s, key, v, f);
    lemma_customer_moves(w, s, key, v, f);
    lemma_merchant_moves(w, s, key, v, f);
    lemma_terminal_moves(w, s, key, v, f);
    lemma_last_tx_moves(w, s, key, v, f);
}

proof fn lemma_members_move(
    section: Section,
    w: Seq<u8>,
    s: Seq<u8>,
    i: nat,
    first: bool,
    f: Reading,
)
    ensures
        members(section, w + s, i + w.len(), first, f) == moved(
            members(section, s, i, first, f),
            w.len(),
        ),
    decreases s.len() - i,
{
    lemma_next_member(s, i, first);
    lemma_next_moves(w, s, i, first);
    if let Some(Next::Member(key, v)) = next_member(s, i, first) {
        lemma_member(section, s, key, v, f);
        lemma_member_moves(section, w, s, key, v, f);
        if let Some((g, e)) = member(section, s, key, v, f) {
            lemma_members_move(section, w, s, e, false, g);
        }
    }
}

proof fn lemma_section_moves(section: Section, w: Seq<u8>, s: Seq<u8>, i: nat, f: Reading)
    ensures
        section_at(section, w + s, i + w.len(), f) == moved(section_at(section, s, i, f), w.len()),
{
    lemma_byte_moves(w, s, i, '{' as u8);
    lemma_members_move(section, w, s, i + 1, true, f);
}

proof fn lemma_root_member_moves(w: Seq<u8>, s: Seq<u8>, key: Seq<u8>, v: nat, f: Reading)
    ensures
        root_member(w + s, key, v + w.len(), f) == moved(root_member(s, key, v, f), w.len()),
{
    lemma_section_moves(Section::Transaction, w, s, v, f);
    lemma_section_moves(Section::Customer, w, s, v, f);
    lemma_section_moves(Section::Merchant, w, s, v, f);
    lemma_section_moves(Section::Terminal, w, s, v, f);
    lemma_section_moves(Section::LastTransaction, w, s, v, Reading { last_present: true, ..f });
    lemma_byte_moves(w, s, v, 'n' as u8);
    lemma_words_move(w, s, v);
    lemma_text_moves(w, s, v);
    lemma_value_moves(w, s, v);
}

proof fn lemma_root_members_move(w: Seq<u8>, s: Seq<u8>, i: nat, first: bool, f: Reading)
    ensures
        root_members(w + s, i + w.len(), first, f) == moved(
            root_members(s, i, first, f),
            w.len(),
        ),
    decreases s.len() - i,
{
    lemma_next_member(s, i, first);
    lemma_next_moves(w, s, i, first);
    if let Some(Next::Member(key, v)) = next_member(s, i, first) {
        lemma_root_member(s, key, v, f);
        lemma_root_member_moves(w, s, key, v, f);
        if let Some((g, e)) = root_member(s, key, v, f) {
            lemma_root_members_move(w, s, e, false, g);
        }
    }
}

/// A request reads the same wherever it stands.
pub proof fn law_place_does_not_matter(before: Seq<u8>, s: Seq<u8>, i: nat)
    ensures
        request_at(before + s, i + before.len()) == moved(request_at(s, i), before.len()),
{
    let j = blanks_end(s, i);
    lemma_blanks_move(before, s, i);
    lemma_byte_moves(before, s, j, '{' as u8);
    lemma_root_members_move(before, s, j + 1, true, nothing_read());
}

proof fn lemma_all_blank(w: Seq<u8>, s: Seq<u8>, i: nat)
    requires
        i <= w.len(),
        forall|k: int| 0 <= k < w.len() ==> is_blank(#[trigger] w[k]),
    ensures
        blanks_end(w + s, i) == blanks_end(w + s, w.len()),
    decreases w.len() - i,
{
    if i < w.len() {
        assert((w + s)[i as int] == w[i as int]);
        lemma_all_blank(w, s, i + 1);
    }
}

/// Blanks before a request change nothing: it is read as it is without them, and bytes that
/// are no request do not become one.
pub proof fn law_blanks_before_change_nothing(blanks: Seq<u8>, s: Seq<u8>)
    requires
        forall|k: int| 0 <= k < blanks.len() ==> is_white(#[trigger] blanks[k]),
    ensures
        request(blanks + s) == moved(request(s), blanks.len()),
        request_components(blanks + s) == request_components(s),
{
    lemma_all_blank(blanks, s, 0);
    law_place_does_not_matter(blanks, s, 0);
}

/// A request is the same with blanks before it and anything behind it.
pub proof fn law_surroundings_change_nothing(blanks: Seq<u8>, s: Seq<u8>, more: Seq<u8>)
    requires
        request(s) is Some,
        forall|k: int| 0 <= k < blanks.len() ==> is_white(#[trigger] blanks[k]),
    ensures
        request(blanks + s + more) == moved(request(s), blanks.len()),
        request_components(blanks + s + more) == request_components(s),
{
    let t = s + more;
    assert(blanks + s + more =~= blanks + t);
    law_request_ignores_what_follows(s, more);
    law_blanks_before_change_nothing(blanks, t);
    lemma_same_components(t, s);
}

proof fn lemma_same_components(a: Seq<u8>, b: Seq<u8>)
    requires
        request(a) == request(b),
    ensures
        request_components(a) == request_components(b),
{
}

} // verus!
