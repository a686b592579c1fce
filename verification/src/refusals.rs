//! What a request lacks, and what makes it none.

use vstd::prelude::*;

use crate::calendar::timestamp;
use crate::decimal::denoted;
use crate::fast_parse::{
    lemma_member, lemma_next_member, lemma_root_member, member, members, next_member, nothing_read,
    request, root_member, root_members, section_at, Next, Reading, Section,
};
use crate::json::{
    blanks_end, byte_at, is_blank, is_number_byte, lemma_quote_from, number_end, quote_from,
    quoted_end, text_at, value_end,
};
use crate::text::{ascii, digits_end, has_text_at, is_digit, number};
use crate::written::{
    are_blanks, delimited, is_integer, is_laid_out, is_numeral, is_of_numeral, is_plain, is_read,
    is_read_in_root, is_white, law_members_are_read_in_turn, lemma_after_value, lemma_blanks_are,
    lemma_digits_are, lemma_member_placed, lemma_next_is, lemma_number_is, lemma_part_placed,
    lemma_placed_byte, lemma_quote_is, lemma_root_keys, lemma_section_keys, lemma_text_placed,
    member_text, members_text, object_text, placed, quoted, unquoted, value_place, Written,
};

verus! {

/// What no member of a request writes counts as nothing: numbers are zero, flags are off,
/// texts are empty, and there is no last transaction.
pub proof fn law_missing_members_count_as_nothing(ms: Seq<Written>, fs: Seq<Reading>)
    requires
        ms.len() > 0,
        fs.len() == ms.len() + 1,
        fs[0] == nothing_read(),
        forall|k: int| 0 <= k < ms.len() ==> is_laid_out(#[trigger] ms[k]),
        forall|k: int|
            0 <= k < ms.len() ==> is_read_in_root(#[trigger] ms[k], fs[k], fs[k + 1]),
    ensures
        request(object_text(ms)) matches Some((f, _)) && {
            &&& (forall|k: int| 0 <= k < ms.len() ==> (#[trigger] fs[k]).amount == fs[k + 1].amount)
                ==> f.amount.bits == 0
            &&& (forall|k: int|
                0 <= k < ms.len() ==> (#[trigger] fs[k]).installments == fs[k + 1].installments)
                ==> f.installments == 0
            &&& (forall|k: int|
                0 <= k < ms.len() ==> (#[trigger] fs[k]).req_hour == fs[k + 1].req_hour && fs[k].req_weekday
                    == fs[k + 1].req_weekday && fs[k].req_epoch == fs[k + 1].req_epoch)
                ==> f.req_hour == 0 && f.req_weekday == 0 && f.req_epoch == 0
            &&& (forall|k: int|
                0 <= k < ms.len() ==> (#[trigger] fs[k]).avg_amount == fs[k + 1].avg_amount)
                ==> f.avg_amount.bits == 0
            &&& (forall|k: int|
                0 <= k < ms.len() ==> (#[trigger] fs[k]).tx_count_24h == fs[k + 1].tx_count_24h)
                ==> f.tx_count_24h == 0
            &&& (forall|k: int| 0 <= k < ms.len() ==> (#[trigger] fs[k]).known == fs[k + 1].known)
                ==> f.known.len() == 0
            &&& (forall|k: int|
                0 <= k < ms.len() ==> (#[trigger] fs[k]).merchant_id == fs[k + 1].merchant_id)
                ==> f.merchant_id.len() == 0
            &&& (forall|k: int| 0 <= k < ms.len() ==> (#[trigger] fs[k]).mcc == fs[k + 1].mcc)
                ==> f.mcc.len() == 0
            &&& (forall|k: int|
                0 <= k < ms.len() ==> (#[trigger] fs[k]).merchant_avg == fs[k + 1].merchant_avg)
                ==> f.merchant_avg.bits == 0
            &&& (forall|k: int|
                0 <= k < ms.len() ==> (#[trigger] fs[k]).is_online == fs[k + 1].is_online)
                ==> !f.is_online
            &&& (forall|k: int|
                0 <= k < ms.len() ==> (#[trigger] fs[k]).card_present == fs[k + 1].card_present)
                ==> !f.card_present
            &&& (forall|k: int|
                0 <= k < ms.len() ==> (#[trigger] fs[k]).km_from_home == fs[k + 1].km_from_home)
                ==> f.km_from_home.bits == 0
            &&& (forall|k: int|
                0 <= k < ms.len() ==> (#[trigger] fs[k]).last_present == fs[k + 1].last_present)
                ==> !f.last_present
            &&& (forall|k: int|
                0 <= k < ms.len() ==> (#[trigger] fs[k]).last_epoch == fs[k + 1].last_epoch)
                ==> f.last_epoch == 0
            &&& (forall|k: int|
                0 <= k < ms.len() ==> (#[trigger] fs[k]).last_km == fs[k + 1].last_km)
                ==> f.last_km.bits == 0
        },
{
    law_members_are_read_in_turn(ms, fs);
    let n = ms.len() as int;
    lemma_stays(fs, |f: Reading| f.amount, n);
    lemma_stays(fs, |f: Reading| f.installments, n);
    lemma_stays(fs, |f: Reading| f.req_hour, n);
    lemma_stays(fs, |f: Reading| f.req_weekday, n);
    lemma_stays(fs, |f: Reading| f.req_epoch, n);
    lemma_stays(fs, |f: Reading| f.avg_amount, n);
    lemma_stays(fs, |f: Reading| f.tx_count_24h, n);
    lemma_stays(fs, |f: Reading| f.known, n);
    lemma_stays(fs, |f: Reading| f.merchant_id, n);
    lemma_stays(fs, |f: Reading| f.mcc, n);
    lemma_stays(fs, |f: Reading| f.merchant_avg, n);
    lemma_stays(fs, |f: Reading| f.is_online, n);
    lemma_stays(fs, |f: Reading| f.card_present, n);
    lemma_stays(fs, |f: Reading| f.km_from_home, n);
    lemma_stays(fs, |f: Reading| f.last_present, n);
    lemma_stays(fs, |f: Reading| f.last_epoch, n);
    lemma_stays(fs, |f: Reading| f.last_km, n);
}

/// What never changes stays what it was.
proof fn lemma_stays<T>(fs: Seq<Reading>, of: spec_fn(Reading) -> T, n: int)
    requires
        0 <= n < fs.len(),
    ensures
        (forall|k: int| 0 <= k < n ==> of(#[trigger] fs[k]) == of(fs[k + 1])) ==> of(fs[n]) == of(
            fs[0],
        ),
    decreases n,
{
    if n > 0 {
        lemma_stays(fs, of, n - 1);
        if forall|k: int| 0 <= k < n ==> of(#[trigger] fs[k]) == of(fs[k + 1]) {
            assert(of(fs[n - 1]) == of(fs[n - 1 + 1]));
        }
    }
}

/// Whether the value of a member of a section is refused, wherever it stands.
pub open spec fn is_refused(section: Section, m: Written, f: Reading) -> bool {
    forall|s: Seq<u8>, v: nat|
        placed(s, v, m.value) && delimited(s, v + m.value.len()) ==> #[trigger] member(
            section,
            s,
            m.key,
            v,
            f,
        ) is None
}

/// Whether a value begins as a number, as a natural number, as a text, as a truth value or as
/// a list.
pub open spec fn begins_as(kind: u8, b: u8) -> bool {
    if kind == 'n' as u8 {
        is_of_numeral(b)
    } else if kind == 'u' as u8 {
        48 <= b <= 57
    } else if kind == 't' as u8 {
        b == '"' as u8
    } else if kind == 'b' as u8 {
        b == 't' as u8 || b == 'f' as u8
    } else {
        b == '[' as u8
    }
}

/// The kind of value that a member takes, if it is one of its section: a number, a natural
/// number, a text, a truth value or a list.
pub open spec fn kind_of(section: Section, key: Seq<u8>) -> Option<u8> {
    match section {
        Section::Transaction => if key == ascii("amount"@) {
            Some('n' as u8)
        } else if key == ascii("installments"@) {
            Some('u' as u8)
        } else if key == ascii("requested_at"@) {
            Some('t' as u8)
        } else {
            None
        },
        Section::Customer => if key == ascii("avg_amount"@) {
            Some('n' as u8)
        } else if key == ascii("tx_count_24h"@) {
            Some('u' as u8)
        } else if key == ascii("known_merchants"@) {
            Some('l' as u8)
        } else {
            None
        },
        Section::Merchant => if key == ascii("id"@) || key == ascii("mcc"@) {
            Some('t' as u8)
        } else if key == ascii("avg_amount"@) {
            Some('n' as u8)
        } else {
            None
        },
        Section::Terminal => if key == ascii("is_online"@) || key == ascii("card_present"@) {
            Some('b' as u8)
        } else if key == ascii("km_from_home"@) {
            Some('n' as u8)
        } else {
            None
        },
        Section::LastTransaction => if key == ascii("timestamp"@) {
            Some('t' as u8)
        } else if key == ascii("km_from_current"@) {
            Some('n' as u8)
        } else {
            None
        },
    }
}

/// Whether a value can begin so.
pub open spec fn begins_value(b: u8) -> bool {
    ||| b == '"' as u8
    ||| b == '{' as u8
    ||| b == '[' as u8
    ||| b == 't' as u8
    ||| b == 'f' as u8
    ||| b == 'n' as u8
    ||| b == '-' as u8
    ||| 48 <= b <= 57
    ||| is_white(b)
}

/// Whether a value is none that its member takes: it begins as another kind of value, is a
/// natural number that 64 bits do not hold, a numeral that denotes no number, or a text that
/// is no timestamp.
pub open spec fn is_unreadable(section: Section, key: Seq<u8>, value: Seq<u8>) -> bool {
    ||| kind_of(section, key) is None && !begins_value(value[0])
    ||| kind_of(section, key) matches Some(kind) && {
        ||| !begins_as(kind, value[0])
        ||| kind == 'u' as u8 && is_integer(value) && number(value) > u64::MAX
        ||| kind == 'n' as u8 && is_numeral(value) && denoted(value) is None
        ||| (key == ascii("requested_at"@) || key == ascii("timestamp"@)) && is_moment_text(value)
            && timestamp(unquoted(value)) is None
    }
}

/// Whether a value is a text without escapes.
pub open spec fn is_moment_text(value: Seq<u8>) -> bool {
    value.len() >= 2 && value == quoted(unquoted(value)) && is_plain(unquoted(value))
}

/// A value that its member does not take is refused.
proof fn lemma_unreadable(section: Section, m: Written, f: Reading)
    requires
        m.value.len() > 0,
        is_unreadable(section, m.key, m.value),
    ensures
        is_refused(section, m, f),
{
    lemma_section_keys();
    reveal_strlit("true");
    reveal_strlit("false");
    assert forall|s: Seq<u8>, v: nat|
        placed(s, v, m.value) && delimited(s, v + m.value.len()) implies #[trigger] member(
        section,
        s,
        m.key,
        v,
        f,
    ) is None by {
        lemma_placed_byte(s, v, m.value, 0);
        assert(s[v as int] == m.value[0]);
        assert(number_end(s, v) == v || is_number_byte(s[v as int]));
        assert(digits_end(s, v) == v || is_digit(s[v as int]));
        if m.value[0] != 't' as u8 {
            lemma_first_letter(s, v as int, "true"@, 't');
        }
        if m.value[0] != 'f' as u8 {
            lemma_first_letter(s, v as int, "false"@, 'f');
        }
        let t = m.value;
        if kind_of(section, m.key) is None {
            assert(blanks_end(s, v) == v);
            assert(value_end(s, v) is None);
        } else if begins_as(kind_of(section, m.key).unwrap(), t[0]) {
            if is_integer(t) && number(t) > u64::MAX {
                assert forall|k: int| v <= k < v + t.len() implies is_digit(s[k]) by {
                    lemma_placed_byte(s, v, t, k - v);
                }
                lemma_digits_are(s, v, v + t.len());
            }
            if is_numeral(t) && denoted(t) is None {
                assert forall|k: int| v <= k < v + t.len() implies is_number_byte(s[k]) by {
                    lemma_placed_byte(s, v, t, k - v);
                }
                lemma_number_is(s, v, v + t.len());
            }
            if is_moment_text(t) {
                lemma_text_placed(s, v, unquoted(t));
            }
        }
    }
}

proof fn lemma_first_letter(s: Seq<u8>, v: int, text: Seq<char>, c: char)
    requires
        text.len() > 0,
        text[0] == c,
        0 <= v < s.len(),
        s[v] != c as u8,
    ensures
        !has_text_at(s, v, text),
{
    if has_text_at(s, v, text) {
        assert(s.subrange(v, v + text.len())[0] == ascii(text)[0]);
    }
}

/// A section that holds a refused member is refused.
proof fn lemma_members_refused(
    section: Section,
    s: Seq<u8>,
    i: nat,
    first: bool,
    at: nat,
    ms: Seq<Written>,
    fs: Seq<Reading>,
    j: int,
)
    requires
        0 <= j < ms.len() < fs.len(),
        forall|k: int| 0 <= k < ms.len() ==> is_laid_out(#[trigger] ms[k]),
        forall|k: int| 0 <= k < j ==> is_read(section, #[trigger] ms[k], fs[k], fs[k + 1]),
        is_refused(section, ms[j], fs[j]),
        placed(s, at, members_text(ms) + seq!['}' as u8]),
        first ==> i == at,
        !first ==> at > 0 && blanks_end(s, i) == at - 1 && byte_at(s, (at - 1) as nat, ',' as u8),
    ensures
        members(section, s, i, first, fs[0]) is None,
    decreases j,
{
    let m = ms[0];
    let v = at + value_place(m);
    let e = v + m.value.len();
    let c = e + m.after.len();
    assert(is_laid_out(ms[0]));
    lemma_after_value(s, at, ms);
    lemma_member_placed(s, at, m);
    lemma_next_is(s, i, first, at, m);
    if j == 0 {
        assert(member(section, s, m.key, v, fs[0]) is None);
    } else {
        assert(is_read(section, ms[0], fs[0], fs[1]));
        assert(member(section, s, m.key, v, fs[0]) == Some((fs[1], e)));
        let rest = ms.drop_first();
        let after = fs.drop_first();
        assert forall|k: int| 0 <= k < rest.len() implies is_laid_out(#[trigger] rest[k]) by {
            assert(rest[k] == ms[k + 1]);
        }
        assert forall|k: int| 0 <= k < j - 1 implies is_read(
            section,
            #[trigger] rest[k],
            after[k],
            after[k + 1],
        ) by {
            assert(is_read(section, ms[k + 1], fs[k + 1], fs[k + 2]));
        }
        lemma_members_refused(section, s, e, false, c + 1, rest, after, j - 1);
    }
}

/// A request that holds a refused member is none.
proof fn lemma_root_refused(
    s: Seq<u8>,
    i: nat,
    first: bool,
    at: nat,
    ms: Seq<Written>,
    fs: Seq<Reading>,
    j: int,
)
    requires
        0 <= j < ms.len() < fs.len(),
        forall|k: int| 0 <= k < ms.len() ==> is_laid_out(#[trigger] ms[k]),
        forall|k: int| 0 <= k < j ==> is_read_in_root(#[trigger] ms[k], fs[k], fs[k + 1]),
        is_refused_in_root(ms[j], fs[j]),
        placed(s, at, members_text(ms) + seq!['}' as u8]),
        first ==> i == at,
        !first ==> at > 0 && blanks_end(s, i) == at - 1 && byte_at(s, (at - 1) as nat, ',' as u8),
    ensures
        root_members(s, i, first, fs[0]) is None,
    decreases j,
{
    let m = ms[0];
    let v = at + value_place(m);
    let e = v + m.value.len();
    let c = e + m.after.len();
    assert(is_laid_out(ms[0]));
    lemma_after_value(s, at, ms);
    lemma_member_placed(s, at, m);
    lemma_next_is(s, i, first, at, m);
    if j == 0 {
        assert(root_member(s, m.key, v, fs[0]) is None);
    } else {
        assert(is_read_in_root(ms[0], fs[0], fs[1]));
        assert(root_member(s, m.key, v, fs[0]) == Some((fs[1], e)));
        let rest = ms.drop_first();
        let after = fs.drop_first();
        assert forall|k: int| 0 <= k < rest.len() implies is_laid_out(#[trigger] rest[k]) by {
            assert(rest[k] == ms[k + 1]);
        }
        assert forall|k: int| 0 <= k < j - 1 implies is_read_in_root(
            #[trigger] rest[k],
            after[k],
            after[k + 1],
        ) by {
            assert(is_read_in_root(ms[k + 1], fs[k + 1], fs[k + 2]));
        }
        lemma_root_refused(s, e, false, c + 1, rest, after, j - 1);
    }
}

/// Whether the value of a member of the request is refused, wherever it stands.
pub open spec fn is_refused_in_root(m: Written, f: Reading) -> bool {
    forall|s: Seq<u8>, v: nat|
        placed(s, v, m.value) && delimited(s, v + m.value.len()) ==> #[trigger] root_member(
            s,
            m.key,
            v,
            f,
        ) is None
}

/// The name of a section in a request.
pub open spec fn section_key(section: Section) -> Seq<u8> {
    match section {
        Section::Transaction => ascii("transaction"@),
        Section::Customer => ascii("customer"@),
        Section::Merchant => ascii("merchant"@),
        Section::Terminal => ascii("terminal"@),
        Section::LastTransaction => ascii("last_transaction"@),
    }
}

/// The fields when a section begins.
pub open spec fn at_section(section: Section, f: Reading) -> Reading {
    match section {
        Section::LastTransaction => Reading { last_present: true, ..f },
        _ => f,
    }
}

/// A request is none if one of its members does not take its value: if a section is no object
/// (the last transaction may be `null`), or if the value of a member of a section is none that
/// it takes. What comes before is read, and what comes after does not matter.
pub proof fn law_wrong_values_make_no_request(
    ms: Seq<Written>,
    fs: Seq<Reading>,
    j: int,
    section: Section,
    inner: Seq<Written>,
    gs: Seq<Reading>,
    i: int,
)
    requires
        0 <= j < ms.len() < fs.len(),
        fs[0] == nothing_read(),
        forall|k: int| 0 <= k < ms.len() ==> is_laid_out(#[trigger] ms[k]),
        forall|k: int| 0 <= k < j ==> is_read_in_root(#[trigger] ms[k], fs[k], fs[k + 1]),
        ms[j].key == section_key(section),
        ms[j].value.len() > 0,
    ensures
        ms[j].value[0] != '{' as u8 && (section is LastTransaction ==> ms[j].value[0] != 'n' as u8)
            ==> request(object_text(ms)) is None,
        ms[j].value == object_text(inner) && 0 <= i < inner.len() < gs.len() && gs[0] == at_section(
            section,
            fs[j],
        ) && (forall|k: int| 0 <= k < inner.len() ==> is_laid_out(#[trigger] inner[k])) && (forall|
            k: int,
        |
            0 <= k < i ==> is_read(section, #[trigger] inner[k], gs[k], gs[k + 1]))
            && inner[i].value.len() > 0 && is_unreadable(section, inner[i].key, inner[i].value)
            ==> request(object_text(ms)) is None,
{
    let m = ms[j];
    lemma_root_keys();
    lemma_text(ms);
    let bad = m.value[0] != '{' as u8 && (section is LastTransaction ==> m.value[0] != 'n' as u8);
    let wrong = m.value == object_text(inner) && 0 <= i < inner.len() < gs.len() && gs[0]
        == at_section(section, fs[j]) && (forall|k: int|
        0 <= k < inner.len() ==> is_laid_out(#[trigger] inner[k])) && (forall|k: int|
        0 <= k < i ==> is_read(section, #[trigger] inner[k], gs[k], gs[k + 1]))
        && inner[i].value.len() > 0 && is_unreadable(section, inner[i].key, inner[i].value);
    if wrong {
        lemma_unreadable(section, inner[i], gs[i]);
    }
    if bad || wrong {
        assert forall|s: Seq<u8>, v: nat|
            placed(s, v, m.value) && delimited(s, v + m.value.len()) implies #[trigger] root_member(
            s,
            m.key,
            v,
            fs[j],
        ) is None by {
            lemma_placed_byte(s, v, m.value, 0);
            if bad {
                assert(section_at(section, s, v, at_section(section, fs[j])) is None);
            } else {
                lemma_section_refused(section, s, v, inner, gs, i);
            }
        }
        assert(is_refused_in_root(m, fs[j]));
        lemma_root_refused(object_text(ms), 1, true, 1, ms, fs, j);
    }
}

/// An object that holds a refused member.
proof fn lemma_section_refused(
    section: Section,
    s: Seq<u8>,
    v: nat,
    inner: Seq<Written>,
    gs: Seq<Reading>,
    i: int,
)
    requires
        placed(s, v, object_text(inner)),
        0 <= i < inner.len() < gs.len(),
        forall|k: int| 0 <= k < inner.len() ==> is_laid_out(#[trigger] inner[k]),
        forall|k: int| 0 <= k < i ==> is_read(section, #[trigger] inner[k], gs[k], gs[k + 1]),
        is_refused(section, inner[i], gs[i]),
    ensures
        byte_at(s, v, '{' as u8),
        section_at(section, s, v, gs[0]) is None,
{
    let open = seq!['{' as u8];
    let rest = members_text(inner) + seq!['}' as u8];
    assert(object_text(inner) =~= open + rest);
    lemma_part_placed(s, v, open, rest);
    lemma_placed_byte(s, v, open, 0);
    lemma_members_refused(section, s, v + 1, true, v + 1, inner, gs, i);
}

/// The text of a request begins with a brace, behind which its members stand.
proof fn lemma_text(ms: Seq<Written>)
    ensures
        ({
            let s = object_text(ms);
            &&& placed(s, 1, members_text(ms) + seq!['}' as u8])
            &&& byte_at(s, 0, '{' as u8)
            &&& blanks_end(s, 0) == 0
        }),
{
    let s = object_text(ms);
    let open = seq!['{' as u8];
    let rest = members_text(ms) + seq!['}' as u8];
    assert(s =~= open + rest);
    assert(s.subrange(0, s.len() as int) =~= s);
    lemma_part_placed(s, 0, open, rest);
}

/// A text ends at the next quotation mark, whatever else it holds.
pub proof fn law_texts_end_at_the_next_mark(s: Seq<u8>, i: nat, t: Seq<u8>)
    requires
        placed(s, i, quoted(t)),
        forall|k: int| 0 <= k < t.len() ==> #[trigger] t[k] != '"' as u8,
    ensures
        text_at(s, i) == Some((t, i + t.len() + 2)),
{
    let q = quoted(t);
    lemma_placed_byte(s, i, q, 0);
    lemma_placed_byte(s, i, q, q.len() - 1);
    assert(q[q.len() - 1] == '"' as u8);
    let end = i + 1 + t.len();
    assert forall|k: int| i + 1 <= k < end implies s[k] != '"' as u8 by {
        lemma_placed_byte(s, i, q, k - i);
        assert(q[k - i] == t[k - i - 1]);
    }
    lemma_quote_is(s, i + 1, end);
    let inner = s.subrange(i as int + 1, end as int);
    assert forall|k: int| 0 <= k < t.len() implies inner[k] == t[k] by {
        lemma_placed_byte(s, i, q, 1 + k);
    }
    assert(inner =~= t);
}

/// Whether a key names a section.
pub open spec fn names_section(key: Seq<u8>) -> bool {
    ||| key == ascii("transaction"@)
    ||| key == ascii("customer"@)
    ||| key == ascii("merchant"@)
    ||| key == ascii("terminal"@)
    ||| key == ascii("last_transaction"@)
}

/// A request is none either if its `id` is no text, or if another member that is not looked at
/// has no value.
pub proof fn law_wrong_members_make_no_request(ms: Seq<Written>, fs: Seq<Reading>, j: int)
    requires
        0 <= j < ms.len() < fs.len(),
        fs[0] == nothing_read(),
        forall|k: int| 0 <= k < ms.len() ==> is_laid_out(#[trigger] ms[k]),
        forall|k: int| 0 <= k < j ==> is_read_in_root(#[trigger] ms[k], fs[k], fs[k + 1]),
        ms[j].value.len() > 0,
        ms[j].key == ascii("id"@) && ms[j].value[0] != '"' as u8 || !names_section(ms[j].key)
            && ms[j].key != ascii("id"@) && !begins_value(ms[j].value[0]),
    ensures
        request(object_text(ms)) is None,
{
    let m = ms[j];
    lemma_root_keys();
    lemma_text(ms);
    assert forall|s: Seq<u8>, v: nat|
        placed(s, v, m.value) && delimited(s, v + m.value.len()) implies #[trigger] root_member(
        s,
        m.key,
        v,
        fs[j],
    ) is None by {
        lemma_placed_byte(s, v, m.value, 0);
        if m.key == ascii("id"@) {
            assert(quoted_end(s, v) is None);
        } else {
            assert(blanks_end(s, v) == v);
            assert(value_end(s, v) is None);
        }
    }
    assert(is_refused_in_root(m, fs[j]));
    lemma_root_refused(object_text(ms), 1, true, 1, ms, fs, j);
}

/// Whether something is written as a member: a key in quotation marks, a colon and a value, with
/// nothing but blanks around them.
pub open spec fn is_member(m: Written) -> bool {
    &&& are_blanks(m.before)
    &&& are_blanks(m.between)
    &&& are_blanks(m.gap)
    &&& are_blanks(m.after)
    &&& forall|k: int| 0 <= k < m.key.len() ==> #[trigger] m.key[k] != '"' as u8
    &&& m.value.len() > 0
}

pub open spec fn are_members(ms: Seq<Written>) -> bool {
    forall|k: int| 0 <= k < ms.len() ==> is_member(#[trigger] ms[k])
}

/// What follows the opening brace of an object: its members or blanks, and the closing brace.
pub open spec fn inner_text(gap: Seq<u8>, ms: Seq<Written>) -> Seq<u8> {
    (if ms.len() == 0 {
        gap
    } else {
        members_text(ms)
    }) + seq!['}' as u8]
}

/// Whether a text is an object: members with commas between them, in braces.
pub open spec fn is_object(t: Seq<u8>) -> bool {
    exists|gap: Seq<u8>, ms: Seq<Written>|
        are_blanks(gap) && are_members(ms) && t == seq!['{' as u8] + #[trigger] inner_text(gap, ms)
}

/// What follows a member: a comma and further ones, and the closing brace.
spec fn following_text(ms: Seq<Written>) -> Seq<u8> {
    if ms.len() == 0 {
        seq!['}' as u8]
    } else {
        seq![',' as u8] + members_text(ms) + seq!['}' as u8]
    }
}

/// The member whose text begins at `at`, with the value from `v` to `end`.
spec fn written_member(s: Seq<u8>, at: nat, key: Seq<u8>, v: nat, end: nat, after: Seq<u8>) -> Written {
    let k = blanks_end(s, at);
    let a = k + key.len() + 2;
    let c = blanks_end(s, a);
    Written {
        before: s.subrange(at as int, k as int),
        key,
        between: s.subrange(a as int, c as int),
        gap: s.subrange(c as int + 1, v as int),
        value: s.subrange(v as int, end as int),
        after,
    }
}

proof fn lemma_blanks_are_white(s: Seq<u8>, i: nat)
    requires
        i <= s.len(),
    ensures
        i <= blanks_end(s, i) <= s.len(),
        are_blanks(s.subrange(i as int, blanks_end(s, i) as int)),
    decreases s.len() - i,
{
    let j = blanks_end(s, i);
    if i < s.len() && is_blank(s[i as int]) {
        lemma_blanks_are_white(s, i + 1);
        let rest = s.subrange(i as int + 1, j as int);
        let all = s.subrange(i as int, j as int);
        assert forall|k: int| 0 <= k < all.len() implies is_white(#[trigger] all[k]) by {
            if k > 0 {
                assert(rest[k - 1] == all[k]);
            }
        }
    }
}

/// A key, a colon and the beginning of a value.
proof fn lemma_member_shape(s: Seq<u8>, at: nat, key: Seq<u8>, v: nat)
    requires
        at <= s.len(),
        next_member(s, at, true) == Some(Next::Member(key, v)),
    ensures
        ({
            let k = blanks_end(s, at);
            let a = k + key.len() + 2;
            let c = blanks_end(s, a);
            &&& at <= k && a <= c && c + 1 <= v <= s.len()
            &&& are_blanks(s.subrange(at as int, k as int))
            &&& are_blanks(s.subrange(a as int, c as int))
            &&& are_blanks(s.subrange(c as int + 1, v as int))
            &&& s.subrange(k as int, a as int) == quoted(key)
            &&& s[c as int] == ':' as u8
            &&& forall|i: int| 0 <= i < key.len() ==> #[trigger] key[i] != '"' as u8
        }),
{
    let k = blanks_end(s, at);
    let end = quote_from(s, k + 1);
    lemma_blanks_are_white(s, at);
    lemma_quote_from(s, k + 1);
    assert(key == s.subrange(k as int + 1, end as int));
    let a = end + 1;
    assert(s.subrange(k as int, a as int) =~= quoted(key));
    lemma_blanks_are_white(s, a);
    let c = blanks_end(s, a);
    lemma_blanks_are_white(s, c + 1);
}

/// The text of a member is what stands there.
proof fn lemma_value_and_rest(
    s: Seq<u8>,
    at: nat,
    key: Seq<u8>,
    v: nat,
    end: nat,
    after: Seq<u8>,
    rest: Seq<Written>,
    e: nat,
)
    requires
        at <= s.len(),
        next_member(s, at, true) == Some(Next::Member(key, v)),
        v < end <= e <= s.len(),
        s.subrange(end as int, e as int) == after + following_text(rest),
    ensures
        s.subrange(at as int, e as int) == member_text(
            written_member(s, at, key, v, end, after),
        ) + following_text(rest),
        are_blanks(after) ==> is_member(written_member(s, at, key, v, end, after)),
{
    let m = written_member(s, at, key, v, end, after);
    let tail = following_text(rest);
    let k = blanks_end(s, at) as int;
    let a = k + key.len() + 2;
    let c = blanks_end(s, a as nat) as int;
    let x = at as int;
    let y = v as int;
    let z = end as int;
    lemma_member_shape(s, at, key, v);
    let colon = seq![':' as u8];
    assert(s.subrange(c, c + 1) =~= colon);
    assert(s.subrange(x, a) =~= m.before + quoted(key));
    assert(s.subrange(x, c) =~= s.subrange(x, a) + m.between);
    assert(s.subrange(x, c + 1) =~= s.subrange(x, c) + colon);
    assert(s.subrange(x, y) =~= s.subrange(x, c + 1) + m.gap);
    assert(s.subrange(x, z) =~= s.subrange(x, y) + m.value);
    assert(s.subrange(x, e as int) =~= s.subrange(x, z) + s.subrange(z, e as int));
    assert(s.subrange(x, z) + (after + tail) =~= (s.subrange(x, z) + after) + tail);
}

/// A member and those that follow it.
proof fn lemma_prepended(
    s: Seq<u8>,
    i: nat,
    first: bool,
    key: Seq<u8>,
    v: nat,
    end: nat,
    after: Seq<u8>,
    rest: Seq<Written>,
    e: nat,
) -> (r: (Seq<u8>, Seq<Written>))
    requires
        i <= s.len(),
        next_member(s, i, first) == Some(Next::Member(key, v)),
        v < end < e <= s.len(),
        are_blanks(after),
        are_members(rest),
        s.subrange(end as int, e as int) == after + following_text(rest),
    ensures
        is_read_so(s, i, first, e, r.0, r.1),
{
    let j = blanks_end(s, i);
    let blanks = s.subrange(i as int, j as int);
    let at = if first {
        i
    } else {
        j + 1
    };
    lemma_blanks_are_white(s, i);
    lemma_next_member(s, i, first);
    assert(next_member(s, at, true) == Some(Next::Member(key, v)));
    lemma_value_and_rest(s, at, key, v, end, after, rest, e);
    let m = written_member(s, at, key, v, end, after);
    let ms = seq![m] + rest;
    let tail = following_text(rest);
    lemma_member_shape(s, at, key, v);
    assert(s.subrange(at as int, e as int) == member_text(m) + tail);
    assert(ms.drop_first() =~= rest);
    assert(members_text(ms) + seq!['}' as u8] =~= member_text(m) + tail);
    assert forall|k: int| 0 <= k < ms.len() implies is_member(#[trigger] ms[k]) by {
        if k > 0 {
            assert(ms[k] == rest[k - 1]);
        }
    }
    if first {
        (Seq::empty(), ms)
    } else {
        assert(s.subrange(i as int, e as int) =~= blanks + (seq![',' as u8] + s.subrange(
            at as int,
            e as int,
        )));
        assert(following_text(ms) =~= seq![',' as u8] + (members_text(ms) + seq!['}' as u8]));
        (blanks, ms)
    }
}

/// Whether the bytes from `i` to `e` are blanks and members up to a closing brace, the first of
/// them or those behind another.
spec fn is_read_so(
    s: Seq<u8>,
    i: nat,
    first: bool,
    e: nat,
    blanks: Seq<u8>,
    ms: Seq<Written>,
) -> bool {
    &&& i < e <= s.len()
    &&& are_blanks(blanks)
    &&& are_members(ms)
    &&& first ==> s.subrange(i as int, e as int) == inner_text(blanks, ms)
    &&& !first ==> s.subrange(i as int, e as int) == blanks + following_text(ms)
}

/// A closing brace after blanks.
proof fn lemma_closed(s: Seq<u8>, i: nat, first: bool, e: nat) -> (r: (Seq<u8>, Seq<Written>))
    requires
        i <= s.len(),
        next_member(s, i, first) == Some(Next::Close(e)),
    ensures
        is_read_so(s, i, first, e, r.0, r.1),
{
    let j = blanks_end(s, i);
    let blanks = s.subrange(i as int, j as int);
    let none = Seq::<Written>::empty();
    lemma_blanks_are_white(s, i);
    assert(s.subrange(i as int, e as int) =~= blanks + seq!['}' as u8]);
    (blanks, none)
}

/// The members of a section, as they are written.
proof fn lemma_section_shape(
    section: Section,
    s: Seq<u8>,
    i: nat,
    first: bool,
    f: Reading,
) -> (r: (Seq<u8>, Seq<Written>))
    requires
        i <= s.len(),
        members(section, s, i, first, f) is Some,
    ensures
        is_read_so(s, i, first, members(section, s, i, first, f).unwrap().1, r.0, r.1),
    decreases s.len() - i,
{
    let e = members(section, s, i, first, f).unwrap().1;
    lemma_next_member(s, i, first);
    match next_member(s, i, first).unwrap() {
        Next::Close(_) => lemma_closed(s, i, first, e),
        Next::Member(key, v) => {
            lemma_member(section, s, key, v, f);
            let (g, end) = member(section, s, key, v, f).unwrap();
            let (after, rest) = lemma_section_shape(section, s, end, false, g);
            lemma_prepended(s, i, first, key, v, end, after, rest, e)
        },
    }
}

/// The members of a request, as they are written.
proof fn lemma_root_shape(s: Seq<u8>, i: nat, first: bool, f: Reading) -> (r: (
    Seq<u8>,
    Seq<Written>,
))
    requires
        i <= s.len(),
        root_members(s, i, first, f) is Some,
    ensures
        is_read_so(s, i, first, root_members(s, i, first, f).unwrap().1, r.0, r.1),
    decreases s.len() - i,
{
    let e = root_members(s, i, first, f).unwrap().1;
    lemma_next_member(s, i, first);
    match next_member(s, i, first).unwrap() {
        Next::Close(_) => lemma_closed(s, i, first, e),
        Next::Member(key, v) => {
            lemma_root_member(s, key, v, f);
            let (g, end) = root_member(s, key, v, f).unwrap();
            let (after, rest) = lemma_root_shape(s, end, false, g);
            lemma_prepended(s, i, first, key, v, end, after, rest, e)
        },
    }
}

/// Only objects are requests, and only objects are sections of one: members with commas between
/// them, each with its key in quotation marks and a colon before its value, in braces.
pub proof fn law_only_objects_are_requests(s: Seq<u8>, section: Section, v: nat, f: Reading)
    ensures
        request(s) matches Some((_, e)) ==> e <= s.len() && exists|blanks: Seq<u8>, t: Seq<u8>|
            are_blanks(blanks) && #[trigger] is_object(t) && s.subrange(0, e as int) == #[trigger] (
            blanks + t),
        section_at(section, s, v, f) matches Some((_, e)) ==> e <= s.len() && is_object(
            s.subrange(v as int, e as int),
        ),
{
    if let Some((_, e)) = request(s) {
        let j = blanks_end(s, 0);
        let blanks = s.subrange(0, j as int);
        lemma_blanks_are_white(s, 0);
        let (gap, ms) = lemma_root_shape(s, j + 1, true, nothing_read());
        let t = seq!['{' as u8] + inner_text(gap, ms);
        assert(is_object(t));
        assert(s.subrange(0, e as int) =~= blanks + (seq!['{' as u8] + s.subrange(
            j as int + 1,
            e as int,
        )));
        assert(s.subrange(0, e as int) == blanks + t);
    }
    if let Some((_, e)) = section_at(section, s, v, f) {
        let (gap, ms) = lemma_section_shape(section, s, v + 1, true, f);
        assert(s.subrange(v as int, e as int) =~= seq!['{' as u8] + s.subrange(
            v as int + 1,
            e as int,
        ));
        assert(s.subrange(v as int, e as int) == seq!['{' as u8] + inner_text(gap, ms));
    }
}

/// Whether two readings are the same but for the fields that a member of a section sets; a member
/// that is not known sets none.
pub open spec fn sets_its_own(section: Section, key: Seq<u8>, f: Reading, g: Reading) -> bool {
    match section {
        Section::Transaction => if key == ascii("amount"@) {
            g == (Reading { amount: g.amount, ..f })
        } else if key == ascii("installments"@) {
            g == (Reading { installments: g.installments, ..f })
        } else if key == ascii("requested_at"@) {
            g == (Reading { req_hour: g.req_hour, req_weekday: g.req_weekday, req_epoch: g.req_epoch, ..f })
        } else {
            g == f
        },
        Section::Customer => if key == ascii("avg_amount"@) {
            g == (Reading { avg_amount: g.avg_amount, ..f })
        } else if key == ascii("tx_count_24h"@) {
            g == (Reading { tx_count_24h: g.tx_count_24h, ..f })
        } else if key == ascii("known_merchants"@) {
            g == (Reading { known: g.known, ..f })
        } else {
            g == f
        },
        Section::Merchant => if key == ascii("id"@) {
            g == (Reading { merchant_id: g.merchant_id, ..f })
        } else if key == ascii("mcc"@) {
            g == (Reading { mcc: g.mcc, ..f })
        } else if key == ascii("avg_amount"@) {
            g == (Reading { merchant_avg: g.merchant_avg, ..f })
        } else {
            g == f
        },
        Section::Terminal => if key == ascii("is_online"@) {
            g == (Reading { is_online: g.is_online, ..f })
        } else if key == ascii("card_present"@) {
            g == (Reading { card_present: g.card_present, ..f })
        } else if key == ascii("km_from_home"@) {
            g == (Reading { km_from_home: g.km_from_home, ..f })
        } else {
            g == f
        },
        Section::LastTransaction => if key == ascii("timestamp"@) {
            g == (Reading { last_epoch: g.last_epoch, ..f })
        } else if key == ascii("km_from_current"@) {
            g == (Reading { last_km: g.last_km, ..f })
        } else {
            g == f
        },
    }
}

/// A member of a section sets its own fields and no others; neither a last transaction that is
/// `null` nor the `id` of the request nor a member that is not known sets any. An object without
/// members sets nothing.
pub proof fn law_members_set_their_own_fields(
    section: Section,
    s: Seq<u8>,
    key: Seq<u8>,
    v: nat,
    f: Reading,
    gap: Seq<u8>,
)
    ensures
        member(section, s, key, v, f) matches Some((g, _)) ==> sets_its_own(section, key, f, g),
        root_member(s, key, v, f) matches Some((g, _)) ==> !names_section(key) || (key == ascii(
            "last_transaction"@,
        ) && v < s.len() && s[v as int] == 'n' as u8) ==> g == f,
        are_blanks(gap) ==> request(seq!['{' as u8] + gap + seq!['}' as u8]) == Some(
            (nothing_read(), gap.len() + 2),
        ),
{
    lemma_section_keys();
    lemma_root_keys();
    if are_blanks(gap) {
        let t = seq!['{' as u8] + gap + seq!['}' as u8];
        assert(t.subrange(1, gap.len() as int + 1) =~= gap);
        assert(blanks_end(t, 0) == 0);
        lemma_blanks_are(t, 1, gap);
    }
}

} // verus!
