//! JSON values as they are written, and how they are passed over.

use vstd::prelude::*;

use crate::json::{
    array_at, array_end, blanks_end, braces_end, brackets_end, closing_bracket, is_blank,
    is_number_byte, object_end, quoted_end, string_end, value_end,
};
use crate::text::ascii;
use crate::written::{
    are_blanks, bool_text, delimited, is_numeral, lemma_bool_placed, lemma_null_placed,
    lemma_number_is, lemma_part_placed, lemma_placed_byte, placed, quoted,
};

verus! {

/// A JSON value.
pub enum Json {
    /// A string: what stands between its quotation marks, escapes as they are written.
    Text(Seq<u8>),
    Number(Seq<u8>),
    Bool(bool),
    Null,
    /// The elements, or the blanks in an array without any.
    Array(Seq<Element>, Seq<u8>),
    /// The entries, or the blanks in an object without any.
    Object(Seq<Entry>, Seq<u8>),
}

/// An element of an array, with the blanks around it.
pub struct Element {
    pub before: Seq<u8>,
    pub value: Json,
    pub after: Seq<u8>,
}

/// An entry of an object, with the blanks around its key and its value.
pub struct Entry {
    pub before: Seq<u8>,
    pub key: Seq<u8>,
    pub between: Seq<u8>,
    pub gap: Seq<u8>,
    pub value: Json,
    pub after: Seq<u8>,
}

/// Whether bytes can stand between quotation marks: a mark within them has a backslash before
/// it, which takes the byte after it along.
pub open spec fn is_raw(t: Seq<u8>) -> bool
    decreases t.len(),
{
    if t.len() == 0 {
        true
    } else if t[0] == '"' as u8 {
        false
    } else if t[0] == '\\' as u8 {
        t.len() >= 2 && is_raw(t.subrange(2, t.len() as int))
    } else {
        is_raw(t.subrange(1, t.len() as int))
    }
}

/// Whether a value is well formed. Any run of digits, signs, points and exponents that begins
/// with a digit or a minus counts as a number, and any byte may follow a backslash.
pub open spec fn is_json(j: Json) -> bool
    decreases j,
{
    match j {
        Json::Text(t) => is_raw(t),
        Json::Number(t) => is_numeral(t) && (48 <= t[0] <= 57 || t[0] == '-' as u8),
        Json::Bool(_) => true,
        Json::Null => true,
        Json::Array(xs, gap) => are_blanks(gap) && are_elements(xs),
        Json::Object(xs, gap) => are_blanks(gap) && are_entries(xs),
    }
}

pub open spec fn are_elements(xs: Seq<Element>) -> bool
    decreases xs,
{
    if xs.len() == 0 {
        true
    } else {
        &&& are_blanks(xs[0].before)
        &&& is_json(xs[0].value)
        &&& are_blanks(xs[0].after)
        &&& are_elements(xs.subrange(1, xs.len() as int))
    }
}

pub open spec fn are_entries(xs: Seq<Entry>) -> bool
    decreases xs,
{
    if xs.len() == 0 {
        true
    } else {
        &&& are_blanks(xs[0].before)
        &&& is_raw(xs[0].key)
        &&& are_blanks(xs[0].between)
        &&& are_blanks(xs[0].gap)
        &&& is_json(xs[0].value)
        &&& are_blanks(xs[0].after)
        &&& are_entries(xs.subrange(1, xs.len() as int))
    }
}

/// The text of a value.
pub open spec fn json_text(j: Json) -> Seq<u8>
    decreases j,
{
    match j {
        Json::Text(t) => quoted(t),
        Json::Number(t) => t,
        Json::Bool(b) => bool_text(b),
        Json::Null => ascii("null"@),
        Json::Array(xs, gap) => seq!['[' as u8] + (if xs.len() == 0 {
            gap
        } else {
            elements_text(xs)
        }) + seq![']' as u8],
        Json::Object(xs, gap) => seq!['{' as u8] + (if xs.len() == 0 {
            gap
        } else {
            entries_text(xs)
        }) + seq!['}' as u8],
    }
}

/// Elements with commas between them.
pub open spec fn elements_text(xs: Seq<Element>) -> Seq<u8>
    decreases xs,
{
    if xs.len() == 0 {
        Seq::empty()
    } else {
        let first = xs[0].before + json_text(xs[0].value) + xs[0].after;
        if xs.len() == 1 {
            first
        } else {
            first + seq![',' as u8] + elements_text(xs.subrange(1, xs.len() as int))
        }
    }
}

/// Entries with commas between them.
pub open spec fn entries_text(xs: Seq<Entry>) -> Seq<u8>
    decreases xs,
{
    if xs.len() == 0 {
        Seq::empty()
    } else {
        let first = xs[0].before + quoted(xs[0].key) + xs[0].between + seq![':' as u8] + xs[0].gap
            + json_text(xs[0].value) + xs[0].after;
        if xs.len() == 1 {
            first
        } else {
            first + seq![',' as u8] + entries_text(xs.subrange(1, xs.len() as int))
        }
    }
}

/// Whether bytes are the text of a JSON value.
pub open spec fn is_value(t: Seq<u8>) -> bool {
    exists|j: Json| #[trigger] is_json(j) && t == json_text(j)
}

/// Whether a value is passed over as a whole, wherever it stands.
pub open spec fn is_passed_over(t: Seq<u8>) -> bool {
    forall|s: Seq<u8>, v: nat|
        placed(s, v, t) && delimited(s, v + t.len()) ==> #[trigger] value_end(s, v) == Some(
            v + t.len(),
        )
}

proof fn lemma_raw_end(s: Seq<u8>, i: nat, t: Seq<u8>)
    requires
        is_raw(t),
        placed(s, i, t + seq!['"' as u8]),
    ensures
        string_end(s, i) == Some((i + t.len() + 1) as nat),
    decreases t.len(),
{
    let mark = seq!['"' as u8];
    let all = t + mark;
    lemma_placed_byte(s, i, all, 0);
    if t.len() > 0 {
        assert(all[0] == t[0]);
        let n: int = if t[0] == '\\' as u8 {
            2
        } else {
            1
        };
        let rest = t.subrange(n, t.len() as int);
        assert(all =~= t.subrange(0, n) + (rest + mark));
        lemma_part_placed(s, i, t.subrange(0, n), rest + mark);
        lemma_raw_end(s, (i + n) as nat, rest);
    }
}

/// A string ends at its second quotation mark.
proof fn lemma_string_placed(s: Seq<u8>, i: nat, t: Seq<u8>)
    requires
        is_raw(t),
        placed(s, i, quoted(t)),
    ensures
        i < s.len() && s[i as int] == '"' as u8,
        string_end(s, i + 1) == Some((i + t.len() + 2) as nat),
{
    let mark = seq!['"' as u8];
    assert(quoted(t) =~= mark + (t + mark));
    lemma_part_placed(s, i, mark, t + mark);
    lemma_placed_byte(s, i, mark, 0);
    lemma_raw_end(s, i + 1, t);
}

/// Whether what stands from `i` to `e` opens no brace or bracket that it does not close.
pub open spec fn is_balanced(s: Seq<u8>, i: nat, e: nat) -> bool {
    &&& forall|depth: nat|
        depth > 0 ==> #[trigger] braces_end(s, i, depth) == braces_end(s, e, depth)
    &&& forall|depth: nat|
        depth > 0 ==> #[trigger] brackets_end(s, i, depth) == brackets_end(s, e, depth)
    &&& forall|depth: nat|
        depth > 0 ==> #[trigger] closing_bracket(s, i, depth) == closing_bracket(s, e, depth)
}

proof fn lemma_plain_is_balanced(s: Seq<u8>, i: nat, e: nat)
    requires
        i <= e <= s.len(),
        forall|k: int|
            i <= k < e ==> s[k] != '"' as u8 && s[k] != '{' as u8 && s[k] != '}' as u8 && s[k]
                != '[' as u8 && s[k] != ']' as u8,
    ensures
        is_balanced(s, i, e),
    decreases e - i,
{
    if i < e {
        lemma_plain_is_balanced(s, i + 1, e);
        assert forall|depth: nat| depth > 0 implies #[trigger] braces_end(s, i, depth)
            == braces_end(s, e, depth) by {
            assert(braces_end(s, i, depth) == braces_end(s, i + 1, depth));
        }
        assert forall|depth: nat| depth > 0 implies #[trigger] brackets_end(s, i, depth)
            == brackets_end(s, e, depth) by {
            assert(brackets_end(s, i, depth) == brackets_end(s, i + 1, depth));
        }
        assert forall|depth: nat| depth > 0 implies #[trigger] closing_bracket(s, i, depth)
            == closing_bracket(s, e, depth) by {
            assert(closing_bracket(s, i, depth) == closing_bracket(s, i + 1, depth));
        }
    }
}

proof fn lemma_balanced_parts(s: Seq<u8>, i: nat, m: nat, e: nat)
    requires
        is_balanced(s, i, m),
        is_balanced(s, m, e),
    ensures
        is_balanced(s, i, e),
{
    assert forall|depth: nat| depth > 0 implies #[trigger] braces_end(s, i, depth) == braces_end(
        s,
        e,
        depth,
    ) by {
        assert(braces_end(s, i, depth) == braces_end(s, m, depth));
    }
    assert forall|depth: nat| depth > 0 implies #[trigger] brackets_end(s, i, depth)
        == brackets_end(s, e, depth) by {
        assert(brackets_end(s, i, depth) == brackets_end(s, m, depth));
    }
}

proof fn lemma_blanks_balanced(s: Seq<u8>, i: nat, b: Seq<u8>)
    requires
        are_blanks(b),
        placed(s, i, b),
    ensures
        is_balanced(s, i, i + b.len()),
{
    assert forall|k: int| i <= k < i + b.len() implies s[k] != '"' as u8 && s[k] != '{' as u8
        && s[k] != '}' as u8 && s[k] != '[' as u8 && s[k] != ']' as u8 by {
        lemma_placed_byte(s, i, b, k - i);
        assert(is_blank(b[k - i]));
    }
    lemma_plain_is_balanced(s, i, i + b.len());
}

proof fn lemma_string_balanced(s: Seq<u8>, i: nat, t: Seq<u8>)
    requires
        is_raw(t),
        placed(s, i, quoted(t)),
    ensures
        is_balanced(s, i, i + quoted(t).len()),
{
    lemma_string_placed(s, i, t);
}

/// One byte that is no mark, brace or bracket.
proof fn lemma_byte_balanced(s: Seq<u8>, i: nat, b: u8)
    requires
        placed(s, i, seq![b]),
        b == ',' as u8 || b == ':' as u8,
    ensures
        is_balanced(s, i, i + 1),
{
    lemma_placed_byte(s, i, seq![b], 0);
    lemma_plain_is_balanced(s, i, i + 1);
}

/// Brackets around something balanced.
proof fn lemma_brackets_balanced(s: Seq<u8>, i: nat, k: nat)
    requires
        i < k < s.len(),
        s[i as int] == '[' as u8,
        s[k as int] == ']' as u8,
        is_balanced(s, i + 1, k),
    ensures
        is_balanced(s, i, k + 1),
        array_end(s, i) == Some((k + 1) as nat),
{
    assert forall|depth: nat| depth > 0 implies #[trigger] braces_end(s, i, depth) == braces_end(
        s,
        k + 1,
        depth,
    ) by {
        assert(braces_end(s, i + 1, depth) == braces_end(s, k, depth));
    }
    assert forall|depth: nat| depth > 0 implies #[trigger] brackets_end(s, i, depth)
        == brackets_end(s, k + 1, depth) by {
        assert(brackets_end(s, i + 1, depth + 1) == brackets_end(s, k, depth + 1));
        assert((depth + 1 - 1) as nat == depth);
    }
    assert forall|depth: nat| depth > 0 implies #[trigger] closing_bracket(s, i, depth)
        == closing_bracket(s, k + 1, depth) by {
        assert(closing_bracket(s, i + 1, depth + 1) == closing_bracket(s, k, depth + 1));
        assert((depth + 1 - 1) as nat == depth);
    }
    assert(brackets_end(s, i + 1, 1) == brackets_end(s, k, 1));
    assert(brackets_end(s, k + 1, 0) == Some((k + 1) as nat));
}

/// Braces around something balanced.
proof fn lemma_braces_balanced(s: Seq<u8>, i: nat, k: nat)
    requires
        i < k < s.len(),
        s[i as int] == '{' as u8,
        s[k as int] == '}' as u8,
        is_balanced(s, i + 1, k),
    ensures
        is_balanced(s, i, k + 1),
        object_end(s, i) == Some((k + 1) as nat),
{
    assert(braces_end(s, i + 1, 1) == braces_end(s, k, 1));
    assert(braces_end(s, k + 1, 0) == Some((k + 1) as nat));
    assert forall|depth: nat| depth > 0 implies #[trigger] braces_end(s, i, depth) == braces_end(
        s,
        k + 1,
        depth,
    ) by {
        assert(braces_end(s, i + 1, depth + 1) == braces_end(s, k, depth + 1));
        assert((depth + 1 - 1) as nat == depth);
    }
    assert forall|depth: nat| depth > 0 implies #[trigger] closing_bracket(s, i, depth)
        == closing_bracket(s, k + 1, depth) by {
        assert(closing_bracket(s, i + 1, depth) == closing_bracket(s, k, depth));
    }
}

/// A value is balanced.
proof fn lemma_json_balanced(j: Json, s: Seq<u8>, i: nat)
    requires
        is_json(j),
        placed(s, i, json_text(j)),
    ensures
        is_balanced(s, i, i + json_text(j).len()),
        j is Array ==> array_end(s, i) == Some((i + json_text(j).len()) as nat),
        j is Object ==> object_end(s, i) == Some((i + json_text(j).len()) as nat),
    decreases j,
{
    let t = json_text(j);
    match j {
        Json::Text(raw) => {
            lemma_string_balanced(s, i, raw);
        },
        Json::Number(_) => {
            assert forall|k: int| i <= k < i + t.len() implies is_number_byte(s[k]) by {
                lemma_placed_byte(s, i, t, k - i);
            }
            lemma_plain_is_balanced(s, i, i + t.len());
        },
        Json::Bool(_) => {
            reveal_strlit("true");
            reveal_strlit("false");
            assert forall|k: int| i <= k < i + t.len() implies 'a' as u8 <= #[trigger] s[k] && s[k]
                <= 'z' as u8 by {
                lemma_placed_byte(s, i, t, k - i);
            }
            lemma_plain_is_balanced(s, i, i + t.len());
        },
        Json::Null => {
            reveal_strlit("null");
            assert forall|k: int| i <= k < i + t.len() implies 'a' as u8 <= #[trigger] s[k] && s[k]
                <= 'z' as u8 by {
                lemma_placed_byte(s, i, t, k - i);
            }
            lemma_plain_is_balanced(s, i, i + t.len());
        },
        Json::Array(xs, gap) => {
            let inner = if xs.len() == 0 {
                gap
            } else {
                elements_text(xs)
            };
            lemma_between(s, i, '[' as u8, inner, ']' as u8);
            if xs.len() == 0 {
                lemma_blanks_balanced(s, i + 1, gap);
            } else {
                lemma_elements_balanced(xs, s, i + 1);
            }
            lemma_brackets_balanced(s, i, i + 1 + inner.len());
        },
        Json::Object(xs, gap) => {
            let inner = if xs.len() == 0 {
                gap
            } else {
                entries_text(xs)
            };
            lemma_between(s, i, '{' as u8, inner, '}' as u8);
            if xs.len() == 0 {
                lemma_blanks_balanced(s, i + 1, gap);
            } else {
                lemma_entries_balanced(xs, s, i + 1);
            }
            lemma_braces_balanced(s, i, i + 1 + inner.len());
        },
    }
}

/// What stands between two bytes.
proof fn lemma_between(s: Seq<u8>, i: nat, open: u8, inner: Seq<u8>, close: u8)
    requires
        placed(s, i, seq![open] + inner + seq![close]),
    ensures
        s[i as int] == open,
        placed(s, i + 1, inner),
        i + 1 + inner.len() < s.len(),
        s[(i + 1 + inner.len()) as int] == close,
{
    assert(seq![open] + inner + seq![close] =~= seq![open] + (inner + seq![close]));
    lemma_part_placed(s, i, seq![open], inner + seq![close]);
    lemma_part_placed(s, i + 1, inner, seq![close]);
    lemma_placed_byte(s, i, seq![open], 0);
    lemma_placed_byte(s, i + 1 + inner.len(), seq![close], 0);
}

proof fn lemma_elements_balanced(xs: Seq<Element>, s: Seq<u8>, i: nat)
    requires
        are_elements(xs),
        xs.len() > 0,
        placed(s, i, elements_text(xs)),
    ensures
        is_balanced(s, i, i + elements_text(xs).len()),
    decreases xs,
{
    let x = xs[0];
    let v = json_text(x.value);
    let rest = xs.subrange(1, xs.len() as int);
    let comma = seq![',' as u8];
    let tail = if xs.len() == 1 {
        Seq::empty()
    } else {
        comma + elements_text(rest)
    };
    assert(elements_text(xs) =~= x.before + (v + (x.after + tail)));
    let a = i + x.before.len();
    let b = a + v.len();
    let c = b + x.after.len();
    lemma_part_placed(s, i, x.before, v + (x.after + tail));
    lemma_part_placed(s, a, v, x.after + tail);
    lemma_part_placed(s, b, x.after, tail);
    lemma_blanks_balanced(s, i, x.before);
    lemma_json_balanced(x.value, s, a);
    lemma_blanks_balanced(s, b, x.after);
    lemma_balanced_parts(s, i, a, b);
    lemma_balanced_parts(s, i, b, c);
    if xs.len() > 1 {
        lemma_part_placed(s, c, comma, elements_text(rest));
        lemma_byte_balanced(s, c, ',' as u8);
        lemma_elements_balanced(rest, s, c + 1);
        lemma_balanced_parts(s, i, c, c + 1);
        lemma_balanced_parts(s, i, c + 1, i + elements_text(xs).len());
    }
}

proof fn lemma_entries_balanced(xs: Seq<Entry>, s: Seq<u8>, i: nat)
    requires
        are_entries(xs),
        xs.len() > 0,
        placed(s, i, entries_text(xs)),
    ensures
        is_balanced(s, i, i + entries_text(xs).len()),
    decreases xs,
{
    let x = xs[0];
    let q = quoted(x.key);
    let colon = seq![':' as u8];
    let v = json_text(x.value);
    let rest = xs.subrange(1, xs.len() as int);
    let comma = seq![',' as u8];
    let tail = if xs.len() == 1 {
        Seq::empty()
    } else {
        comma + entries_text(rest)
    };
    let t5 = x.after + tail;
    let t4 = v + t5;
    let t3 = x.gap + t4;
    let t2 = colon + t3;
    let t1 = x.between + t2;
    assert(entries_text(xs) =~= x.before + (q + t1));
    let a = i + x.before.len();
    let b = a + q.len();
    let c = b + x.between.len();
    let d = c + 1;
    let e = d + x.gap.len();
    let f = e + v.len();
    let g = f + x.after.len();
    lemma_part_placed(s, i, x.before, q + t1);
    lemma_part_placed(s, a, q, t1);
    lemma_part_placed(s, b, x.between, t2);
    lemma_part_placed(s, c, colon, t3);
    lemma_part_placed(s, d, x.gap, t4);
    lemma_part_placed(s, e, v, t5);
    lemma_part_placed(s, f, x.after, tail);
    lemma_blanks_balanced(s, i, x.before);
    lemma_string_balanced(s, a, x.key);
    lemma_blanks_balanced(s, b, x.between);
    lemma_byte_balanced(s, c, ':' as u8);
    lemma_blanks_balanced(s, d, x.gap);
    lemma_json_balanced(x.value, s, e);
    lemma_blanks_balanced(s, f, x.after);
    lemma_balanced_parts(s, i, a, b);
    lemma_balanced_parts(s, i, b, c);
    lemma_balanced_parts(s, i, c, d);
    lemma_balanced_parts(s, i, d, e);
    lemma_balanced_parts(s, i, e, f);
    lemma_balanced_parts(s, i, f, g);
    if xs.len() > 1 {
        lemma_part_placed(s, g, comma, entries_text(rest));
        lemma_byte_balanced(s, g, ',' as u8);
        lemma_entries_balanced(rest, s, g + 1);
        lemma_balanced_parts(s, i, g, g + 1);
        lemma_balanced_parts(s, i, g + 1, i + entries_text(xs).len());
    }
}

/// The first byte of a value is no blank.
pub proof fn lemma_json_begins(j: Json)
    requires
        is_json(j),
    ensures
        json_text(j).len() > 0,
        !is_blank(json_text(j)[0]),
{
    reveal_strlit("true");
    reveal_strlit("false");
    reveal_strlit("null");
}

/// Every JSON value is passed over as a whole, wherever it stands: strings with their escapes,
/// numbers, words, and arrays and objects, however they are nested.
pub proof fn law_json_values_are_passed_over(j: Json)
    requires
        is_json(j),
    ensures
        is_passed_over(json_text(j)),
{
    let t = json_text(j);
    lemma_json_begins(j);
    reveal_strlit("true");
    reveal_strlit("false");
    reveal_strlit("null");
    assert forall|s: Seq<u8>, v: nat|
        placed(s, v, t) && delimited(s, v + t.len()) implies #[trigger] value_end(s, v) == Some(
        v + t.len(),
    ) by {
        lemma_placed_byte(s, v, t, 0);
        assert(blanks_end(s, v) == v);
        lemma_json_balanced(j, s, v);
        match j {
            Json::Text(raw) => {
                lemma_string_placed(s, v, raw);
                assert(quoted_end(s, v) == Some(v + t.len()));
            },
            Json::Number(_) => {
                assert forall|k: int| v <= k < v + t.len() implies is_number_byte(s[k]) by {
                    lemma_placed_byte(s, v, t, k - v);
                }
                lemma_number_is(s, v, v + t.len());
            },
            Json::Bool(b) => {
                lemma_bool_placed(s, v, b);
            },
            Json::Null => {
                lemma_null_placed(s, v);
            },
            Json::Array(_, _) => {},
            Json::Object(_, _) => {},
        }
    }
}

/// Every JSON array is cut out as a whole, wherever it stands: what lies between its brackets,
/// whatever brackets there are in its strings and in what is nested in it.
pub proof fn law_json_arrays_are_cut_out(j: Json, s: Seq<u8>, v: nat)
    requires
        is_json(j),
        j is Array,
        placed(s, v, json_text(j)),
    ensures
        array_at(s, v) == Some(
            (json_text(j).subrange(1, json_text(j).len() - 1), v + json_text(j).len()),
        ),
{
    let t = json_text(j);
    let open = seq!['[' as u8];
    let inner = t.subrange(1, t.len() - 1);
    let close = seq![']' as u8];
    assert(t =~= open + (inner + close));
    lemma_part_placed(s, v, open, inner + close);
    lemma_part_placed(s, v + 1, inner, close);
    lemma_placed_byte(s, v, open, 0);
    let e = v + 1 + inner.len();
    lemma_placed_byte(s, e, close, 0);
    if let Json::Array(xs, gap) = j {
        if xs.len() == 0 {
            assert(inner =~= gap);
            lemma_blanks_balanced(s, v + 1, gap);
        } else {
            assert(inner =~= elements_text(xs));
            lemma_elements_balanced(xs, s, v + 1);
        }
    }
    assert(is_balanced(s, v + 1, e));
    assert(closing_bracket(s, v + 1, 1) == closing_bracket(s, e, 1));
    assert(s.subrange(v as int + 1, e as int) =~= inner);
}

} // verus!
