//! A scanner for JSON text, without allocation.
//!
//! Positions are byte offsets. Each reader states what it reads from a position on and
//! where it stops, also when it fails.

use vstd::prelude::*;

use crate::decimal::{denoted, parse_decimal};
use crate::single::Single;
use crate::text::{
    check_digit, digits_end, has_text_at, is_digit, lemma_digits_end, number, starts_with_at,
};

verus! {

/// Whether `b` stands at position `i`.
pub open spec fn byte_at(s: Seq<u8>, i: nat, b: u8) -> bool {
    i < s.len() && s[i as int] == b
}

pub open spec fn is_blank(b: u8) -> bool {
    b == ' ' as u8 || b == '\t' as u8 || b == '\r' as u8 || b == '\n' as u8
}

/// The first position from `i` on that holds no blank.
pub open spec fn blanks_end(s: Seq<u8>, i: nat) -> nat
    decreases s.len() - i,
{
    if i < s.len() && is_blank(s[i as int]) {
        blanks_end(s, i + 1)
    } else {
        i
    }
}

/// The first position from `i` on that holds a quotation mark, or the end of the text.
pub open spec fn quote_from(s: Seq<u8>, i: nat) -> nat
    decreases s.len() - i,
{
    if i < s.len() && s[i as int] != '"' as u8 {
        quote_from(s, i + 1)
    } else {
        i
    }
}

/// The text between a quotation mark at `i` and the next one, taken as it is.
pub open spec fn text_at(s: Seq<u8>, i: nat) -> Option<(Seq<u8>, nat)> {
    let end = quote_from(s, i + 1);
    if byte_at(s, i, '"' as u8) && end < s.len() {
        Some((s.subrange(i as int + 1, end as int), end + 1))
    } else {
        None
    }
}

/// The end of a string whose opening quotation mark is behind: a backslash takes the byte
/// after it along.
pub open spec fn string_end(s: Seq<u8>, i: nat) -> Option<nat>
    decreases s.len() + 1 - i,
{
    if i >= s.len() {
        None
    } else if s[i as int] == '"' as u8 {
        Some(i + 1)
    } else if s[i as int] == '\\' as u8 {
        string_end(s, i + 2)
    } else {
        string_end(s, i + 1)
    }
}

/// The string at `i`, escapes included.
pub open spec fn quoted_end(s: Seq<u8>, i: nat) -> Option<nat> {
    if byte_at(s, i, '"' as u8) {
        string_end(s, i + 1)
    } else {
        None
    }
}

/// The decimal digits at `i`, as a number of 64 bits.
pub open spec fn uint_at(s: Seq<u8>, i: nat) -> Option<(u64, nat)> {
    let end = digits_end(s, i);
    let n = number(s.subrange(i as int, end as int));
    if i < end && n <= u64::MAX {
        Some((n as u64, end))
    } else {
        None
    }
}

/// Whether a byte can be part of a number.
pub open spec fn is_number_byte(b: u8) -> bool {
    is_digit(b) || b == '.' as u8 || b == 'e' as u8 || b == 'E' as u8 || b == '+' as u8 || b
        == '-' as u8
}

/// The first position from `i` on that holds no part of a number.
pub open spec fn number_end(s: Seq<u8>, i: nat) -> nat
    decreases s.len() - i,
{
    if i < s.len() && is_number_byte(s[i as int]) {
        number_end(s, i + 1)
    } else {
        i
    }
}

/// The number at `i`.
pub open spec fn decimal_at(s: Seq<u8>, i: nat) -> Option<(Single, nat)> {
    let end = number_end(s, i);
    if i == end {
        None
    } else {
        match denoted(s.subrange(i as int, end as int)) {
            Some(n) => Some((n, end)),
            None => None,
        }
    }
}

/// `true` or `false` at `i`.
pub open spec fn bool_at(s: Seq<u8>, i: nat) -> Option<(bool, nat)> {
    if has_text_at(s, i as int, "true"@) {
        Some((true, i + 4))
    } else if has_text_at(s, i as int, "false"@) {
        Some((false, i + 5))
    } else {
        None
    }
}

/// `null` at `i`.
pub open spec fn null_end(s: Seq<u8>, i: nat) -> Option<nat> {
    if has_text_at(s, i as int, "null"@) {
        Some(i + 4)
    } else {
        None
    }
}

pub proof fn lemma_string_end(s: Seq<u8>, i: nat)
    ensures
        string_end(s, i) matches Some(e) ==> i < e <= s.len(),
    decreases s.len() + 1 - i,
{
    if i < s.len() && s[i as int] != '"' as u8 {
        if s[i as int] == '\\' as u8 {
            lemma_string_end(s, i + 2);
        } else {
            lemma_string_end(s, i + 1);
        }
    }
}

/// The position of the bracket that closes `depth` open ones. Brackets within strings do
/// not count.
pub open spec fn closing_bracket(s: Seq<u8>, i: nat, depth: nat) -> Option<nat>
    decreases s.len() - i,
{
    if i >= s.len() {
        None
    } else if s[i as int] == '"' as u8 {
        proof {
            lemma_string_end(s, i + 1);
        }
        match string_end(s, i + 1) {
            Some(e) => closing_bracket(s, e, depth),
            None => None,
        }
    } else if s[i as int] == '[' as u8 {
        closing_bracket(s, i + 1, depth + 1)
    } else if s[i as int] == ']' as u8 {
        if depth <= 1 {
            Some(i)
        } else {
            closing_bracket(s, i + 1, (depth - 1) as nat)
        }
    } else {
        closing_bracket(s, i + 1, depth)
    }
}

/// What stands between the bracket at `i` and the one that closes it.
pub open spec fn array_at(s: Seq<u8>, i: nat) -> Option<(Seq<u8>, nat)> {
    if byte_at(s, i, '[' as u8) {
        match closing_bracket(s, i + 1, 1) {
            Some(e) => Some((s.subrange(i as int + 1, e as int), e + 1)),
            None => None,
        }
    } else {
        None
    }
}

/// The position after the braces that close `depth` open ones. Braces within strings do
/// not count.
pub open spec fn braces_end(s: Seq<u8>, i: nat, depth: nat) -> Option<nat>
    decreases s.len() - i,
{
    if depth == 0 {
        Some(i)
    } else if i >= s.len() {
        None
    } else if s[i as int] == '"' as u8 {
        proof {
            lemma_string_end(s, i + 1);
        }
        match string_end(s, i + 1) {
            Some(e) => braces_end(s, e, depth),
            None => None,
        }
    } else if s[i as int] == '{' as u8 {
        braces_end(s, i + 1, depth + 1)
    } else if s[i as int] == '}' as u8 {
        braces_end(s, i + 1, (depth - 1) as nat)
    } else {
        braces_end(s, i + 1, depth)
    }
}

pub proof fn lemma_braces_end(s: Seq<u8>, i: nat, depth: nat)
    ensures
        braces_end(s, i, depth) matches Some(e) ==> i <= e && (depth > 0 ==> i < e <= s.len()),
    decreases s.len() - i,
{
    if depth > 0 && i < s.len() {
        if s[i as int] == '"' as u8 {
            lemma_string_end(s, i + 1);
            if let Some(e) = string_end(s, i + 1) {
                lemma_braces_end(s, e, depth);
            }
        } else if s[i as int] == '{' as u8 {
            lemma_braces_end(s, i + 1, depth + 1);
        } else if s[i as int] == '}' as u8 {
            lemma_braces_end(s, i + 1, (depth - 1) as nat);
        } else {
            lemma_braces_end(s, i + 1, depth);
        }
    }
}

/// The position after the brackets that close `depth` open ones. Brackets within strings
/// and within braces do not count.
pub open spec fn brackets_end(s: Seq<u8>, i: nat, depth: nat) -> Option<nat>
    decreases s.len() - i,
{
    if depth == 0 {
        Some(i)
    } else if i >= s.len() {
        None
    } else if s[i as int] == '"' as u8 {
        proof {
            lemma_string_end(s, i + 1);
        }
        match string_end(s, i + 1) {
            Some(e) => brackets_end(s, e, depth),
            None => None,
        }
    } else if s[i as int] == '{' as u8 {
        proof {
            lemma_braces_end(s, i + 1, 1);
        }
        match braces_end(s, i + 1, 1) {
            Some(e) => brackets_end(s, e, depth),
            None => None,
        }
    } else if s[i as int] == '[' as u8 {
        brackets_end(s, i + 1, depth + 1)
    } else if s[i as int] == ']' as u8 {
        brackets_end(s, i + 1, (depth - 1) as nat)
    } else {
        brackets_end(s, i + 1, depth)
    }
}

/// The end of the object at `i`.
pub open spec fn object_end(s: Seq<u8>, i: nat) -> Option<nat> {
    if byte_at(s, i, '{' as u8) {
        braces_end(s, i + 1, 1)
    } else {
        None
    }
}

/// The end of the array at `i`.
pub open spec fn array_end(s: Seq<u8>, i: nat) -> Option<nat> {
    if byte_at(s, i, '[' as u8) {
        brackets_end(s, i + 1, 1)
    } else {
        None
    }
}

/// The end of the value at `i`, of any kind, after blanks.
pub open spec fn value_end(s: Seq<u8>, i: nat) -> Option<nat> {
    let j = blanks_end(s, i);
    if j >= s.len() {
        None
    } else if s[j as int] == '"' as u8 {
        quoted_end(s, j)
    } else if s[j as int] == '{' as u8 {
        object_end(s, j)
    } else if s[j as int] == '[' as u8 {
        array_end(s, j)
    } else if s[j as int] == 't' as u8 || s[j as int] == 'f' as u8 {
        match bool_at(s, j) {
            Some((_, e)) => Some(e),
            None => None,
        }
    } else if s[j as int] == 'n' as u8 {
        null_end(s, j)
    } else if is_digit(s[j as int]) || s[j as int] == '-' as u8 {
        Some(number_end(s, j))
    } else {
        None
    }
}

pub proof fn lemma_blanks_end(s: Seq<u8>, i: nat)
    ensures
        i <= blanks_end(s, i),
        i <= s.len() ==> blanks_end(s, i) <= s.len(),
    decreases s.len() - i,
{
    if i < s.len() && is_blank(s[i as int]) {
        lemma_blanks_end(s, i + 1);
    }
}

pub proof fn lemma_quote_from(s: Seq<u8>, i: nat)
    ensures
        i <= quote_from(s, i),
        i <= s.len() ==> quote_from(s, i) <= s.len(),
        forall|k: int| i <= k < quote_from(s, i) ==> s[k] != '"' as u8,
        quote_from(s, i) < s.len() ==> s[quote_from(s, i) as int] == '"' as u8,
    decreases s.len() - i,
{
    if i < s.len() && s[i as int] != '"' as u8 {
        lemma_quote_from(s, i + 1);
    }
}

pub proof fn lemma_number_end(s: Seq<u8>, i: nat)
    ensures
        i <= number_end(s, i),
        i <= s.len() ==> number_end(s, i) <= s.len(),
    decreases s.len() - i,
{
    if i < s.len() && is_number_byte(s[i as int]) {
        lemma_number_end(s, i + 1);
    }
}

pub proof fn lemma_closing_bracket(s: Seq<u8>, i: nat, depth: nat)
    ensures
        closing_bracket(s, i, depth) matches Some(e) ==> i <= e < s.len(),
    decreases s.len() - i,
{
    if i < s.len() {
        if s[i as int] == '"' as u8 {
            lemma_string_end(s, i + 1);
            if let Some(e) = string_end(s, i + 1) {
                lemma_closing_bracket(s, e, depth);
            }
        } else if s[i as int] == '[' as u8 {
            lemma_closing_bracket(s, i + 1, depth + 1);
        } else if s[i as int] == ']' as u8 {
            if depth > 1 {
                lemma_closing_bracket(s, i + 1, (depth - 1) as nat);
            }
        } else {
            lemma_closing_bracket(s, i + 1, depth);
        }
    }
}

pub proof fn lemma_brackets_end(s: Seq<u8>, i: nat, depth: nat)
    ensures
        brackets_end(s, i, depth) matches Some(e) ==> i <= e && (depth > 0 ==> i < e <= s.len()),
    decreases s.len() - i,
{
    if depth > 0 && i < s.len() {
        if s[i as int] == '"' as u8 {
            lemma_string_end(s, i + 1);
            if let Some(e) = string_end(s, i + 1) {
                lemma_brackets_end(s, e, depth);
            }
        } else if s[i as int] == '{' as u8 {
            lemma_braces_end(s, i + 1, 1);
            if let Some(e) = braces_end(s, i + 1, 1) {
                lemma_brackets_end(s, e, depth);
            }
        } else if s[i as int] == '[' as u8 {
            lemma_brackets_end(s, i + 1, depth + 1);
        } else if s[i as int] == ']' as u8 {
            lemma_brackets_end(s, i + 1, (depth - 1) as nat);
        } else {
            lemma_brackets_end(s, i + 1, depth);
        }
    }
}

/// A value ends within the text, after its first byte.
pub proof fn lemma_value_end(s: Seq<u8>, i: nat)
    ensures
        value_end(s, i) matches Some(e) ==> i < e <= s.len(),
{
    let j = blanks_end(s, i);
    lemma_blanks_end(s, i);
    lemma_string_end(s, j + 1);
    lemma_braces_end(s, j + 1, 1);
    lemma_brackets_end(s, j + 1, 1);
    lemma_number_end(s, j + 1);
    reveal_strlit("true");
    reveal_strlit("false");
    reveal_strlit("null");
}

/// A place in a JSON text.
pub struct Parser<'a> {
    pub body: &'a [u8],
    pub pos: usize,
}

/// Where a reader fails that begins with the byte `open`: at once if it is not there, else
/// at the end of the text.
pub open spec fn stopped_at(p: Parser, open: u8) -> nat {
    if byte_at(p.body@, p.pos as nat, open) {
        p.body@.len()
    } else {
        p.pos as nat
    }
}

impl<'a> Parser<'a> {
    /// The place is in the text or at its end.
    pub open spec fn wf(self) -> bool {
        self.pos <= self.body@.len()
    }

    /// The beginning of a text.
    pub fn new(body: &'a [u8]) -> (r: Self)
        ensures
            r.wf(),
            r.body == body,
            r.pos == 0,
    {
        Parser { body, pos: 0 }
    }

    /// The byte at the place.
    pub fn peek(&self) -> (r: Option<u8>)
        ensures
            r == if self.pos < self.body@.len() {
                Some(self.body@[self.pos as int])
            } else {
                None
            },
    {
        if self.pos < self.body.len() {
            Some(self.body[self.pos])
        } else {
            None
        }
    }

    /// Goes one byte on.
    pub fn advance(&mut self)
        requires
            old(self).pos < usize::MAX,
        ensures
            final(self).body == old(self).body,
            final(self).pos == old(self).pos + 1,
    {
        self.pos = self.pos + 1;
    }

    /// Goes to the next byte that is no blank.
    pub fn skip_ws(&mut self)
        requires
            old(self).wf(),
        ensures
            final(self).wf(),
            final(self).body == old(self).body,
            final(self).pos == blanks_end(old(self).body@, old(self).pos as nat),
    {
        let ghost start = self.pos as nat;
        while self.pos < self.body.len()
            invariant
                self.wf(),
                self.body == old(self).body,
                start == old(self).pos,
                blanks_end(self.body@, self.pos as nat) == blanks_end(self.body@, start),
            decreases self.body@.len() - self.pos,
        {
            let b: u8 = self.body[self.pos];
            if b == ' ' as u8 || b == '\t' as u8 || b == '\r' as u8 || b == '\n' as u8 {
                self.pos = self.pos + 1;
            } else {
                return ;
            }
        }
    }

    /// Goes over the byte `want`.
    pub fn expect(&mut self, want: u8) -> (r: Option<()>)
        requires
            old(self).wf(),
        ensures
            final(self).wf(),
            final(self).body == old(self).body,
            r is Some == byte_at(old(self).body@, old(self).pos as nat, want),
            final(self).pos == if r is Some {
                old(self).pos + 1
            } else {
                old(self).pos as int
            },
    {
        if self.pos < self.body.len() && self.body[self.pos] == want {
            self.pos = self.pos + 1;
            Some(())
        } else {
            None
        }
    }

    /// Reads the text between two quotation marks.
    pub fn parse_key(&mut self) -> (r: Option<&'a [u8]>)
        requires
            old(self).wf(),
        ensures
            final(self).wf(),
            final(self).body == old(self).body,
            r is Some == text_at(old(self).body@, old(self).pos as nat) is Some,
            r matches Some(text) ==> text_at(old(self).body@, old(self).pos as nat) == Some(
                (text@, final(self).pos as nat),
            ),
            r is None ==> final(self).pos == stopped_at(*old(self), '"' as u8),
    {
        self.expect('"' as u8)?;
        let start: usize = self.pos;
        while self.pos < self.body.len() && self.body[self.pos] != '"' as u8
            invariant
                self.wf(),
                self.body == old(self).body,
                byte_at(self.body@, old(self).pos as nat, '"' as u8),
                start <= self.pos,
                quote_from(self.body@, self.pos as nat) == quote_from(self.body@, start as nat),
            decreases self.body@.len() - self.pos,
        {
            self.pos = self.pos + 1;
        }
        if self.pos >= self.body.len() {
            return None;
        }
        let end: usize = self.pos;
        self.pos = self.pos + 1;
        Some(&self.body[start..end])
    }

    /// Reads the text between two quotation marks.
    pub fn parse_string(&mut self) -> (r: Option<&'a [u8]>)
        requires
            old(self).wf(),
        ensures
            final(self).wf(),
            final(self).body == old(self).body,
            r is Some == text_at(old(self).body@, old(self).pos as nat) is Some,
            r matches Some(text) ==> text_at(old(self).body@, old(self).pos as nat) == Some(
                (text@, final(self).pos as nat),
            ),
            r is None ==> final(self).pos == stopped_at(*old(self), '"' as u8),
    {
        self.parse_key()
    }

    /// Goes over a string, escapes included.
    pub fn skip_string(&mut self) -> (r: Option<()>)
        requires
            old(self).wf(),
        ensures
            final(self).wf(),
            final(self).body == old(self).body,
            r is Some == quoted_end(old(self).body@, old(self).pos as nat) is Some,
            r is Some ==> quoted_end(old(self).body@, old(self).pos as nat) == Some(
                final(self).pos as nat,
            ),
            r is None ==> final(self).pos == stopped_at(*old(self), '"' as u8),
    {
        self.expect('"' as u8)?;
        let ghost start = self.pos as nat;
        while self.pos < self.body.len() && self.body[self.pos] != '"' as u8
            invariant
                self.wf(),
                self.body == old(self).body,
                byte_at(self.body@, old(self).pos as nat, '"' as u8),
                string_end(self.body@, self.pos as nat) == string_end(self.body@, start),
            decreases self.body@.len() - self.pos,
        {
            if self.body[self.pos] == '\\' as u8 {
                if self.pos + 1 < self.body.len() {
                    self.pos = self.pos + 2;
                } else {
                    assert(string_end(self.body@, self.pos as nat + 2) is None);
                    assert(string_end(self.body@, self.pos as nat + 1) is None);
                    self.pos = self.pos + 1;
                }
            } else {
                self.pos = self.pos + 1;
            }
        }
        if self.pos >= self.body.len() {
            return None;
        }
        self.pos = self.pos + 1;
        Some(())
    }

    /// Reads decimal digits.
    pub fn parse_uint(&mut self) -> (r: Option<u64>)
        requires
            old(self).wf(),
        ensures
            final(self).wf(),
            final(self).body == old(self).body,
            r is Some == uint_at(old(self).body@, old(self).pos as nat) is Some,
            r matches Some(n) ==> uint_at(old(self).body@, old(self).pos as nat) == Some(
                (n, final(self).pos as nat),
            ),
            final(self).pos == digits_end(old(self).body@, old(self).pos as nat),
    {
        let start: usize = self.pos;
        let mut v: u64 = 0;
        let mut fits: bool = true;
        let ghost s = self.body@;
        assert(s.subrange(start as int, start as int) =~= Seq::empty());
        while self.pos < self.body.len() && check_digit(self.body[self.pos])
            invariant
                self.wf(),
                self.body == old(self).body,
                s == self.body@,
                start <= self.pos,
                digits_end(s, self.pos as nat) == digits_end(s, start as nat),
                fits == (number(s.subrange(start as int, self.pos as int)) <= u64::MAX),
                fits ==> v == number(s.subrange(start as int, self.pos as int)),
            decreases s.len() - self.pos,
        {
            let digit: u64 = (self.body[self.pos] - '0' as u8) as u64;
            proof {
                let next = s.subrange(start as int, self.pos + 1);
                assert(next.drop_last() =~= s.subrange(start as int, self.pos as int));
            }
            if fits && (v < 0x1999_9999_9999_9999 || (v == 0x1999_9999_9999_9999 && digit <= 5)) {
                v = v * 10 + digit;
            } else {
                fits = false;
            }
            self.pos = self.pos + 1;
        }
        proof {
            lemma_digits_end(s, start as nat);
        }
        if self.pos == start || !fits {
            return None;
        }
        Some(v)
    }

    /// Reads a number.
    pub fn parse_f32(&mut self) -> (r: Option<Single>)
        requires
            old(self).wf(),
        ensures
            final(self).wf(),
            final(self).body == old(self).body,
            r is Some == decimal_at(old(self).body@, old(self).pos as nat) is Some,
            r matches Some(n) ==> decimal_at(old(self).body@, old(self).pos as nat) == Some(
                (n, final(self).pos as nat),
            ),
            final(self).pos == number_end(old(self).body@, old(self).pos as nat),
    {
        let start: usize = self.pos;
        self.skip_number()?;
        if self.pos == start {
            return None;
        }
        proof {
            lemma_number_end(self.body@, start as nat);
        }
        parse_decimal(&self.body[start..self.pos])
    }

    /// Reads `true` or `false`.
    pub fn parse_bool(&mut self) -> (r: Option<bool>)
        requires
            old(self).wf(),
        ensures
            final(self).wf(),
            final(self).body == old(self).body,
            r is Some == bool_at(old(self).body@, old(self).pos as nat) is Some,
            r matches Some(b) ==> bool_at(old(self).body@, old(self).pos as nat) == Some(
                (b, final(self).pos as nat),
            ),
            r is None ==> final(self).pos == old(self).pos,
    {
        proof {
            reveal_strlit("true");
            reveal_strlit("false");
        }
        if starts_with_at(self.body, self.pos, "true") {
            self.pos = self.pos + 4;
            Some(true)
        } else if starts_with_at(self.body, self.pos, "false") {
            self.pos = self.pos + 5;
            Some(false)
        } else {
            None
        }
    }

    /// Goes over `null`.
    pub fn parse_null(&mut self) -> (r: Option<()>)
        requires
            old(self).wf(),
        ensures
            final(self).wf(),
            final(self).body == old(self).body,
            r is Some == null_end(old(self).body@, old(self).pos as nat) is Some,
            r is Some ==> null_end(old(self).body@, old(self).pos as nat) == Some(
                final(self).pos as nat,
            ),
            r is None ==> final(self).pos == old(self).pos,
    {
        proof {
            reveal_strlit("null");
        }
        if starts_with_at(self.body, self.pos, "null") {
            self.pos = self.pos + 4;
            Some(())
        } else {
            None
        }
    }

    /// Reads what stands between two brackets.
    pub fn parse_array_slice(&mut self) -> (r: Option<&'a [u8]>)
        requires
            old(self).wf(),
        ensures
            final(self).wf(),
            final(self).body == old(self).body,
            r is Some == array_at(old(self).body@, old(self).pos as nat) is Some,
            r matches Some(inner) ==> array_at(old(self).body@, old(self).pos as nat) == Some(
                (inner@, final(self).pos as nat),
            ),
            r is None ==> final(self).pos == stopped_at(*old(self), '[' as u8),
    {
        self.expect('[' as u8)?;
        let start: usize = self.pos;
        let mut depth: usize = 1;
        let ghost s = self.body@;
        while self.pos < self.body.len()
            invariant
                self.wf(),
                self.body == old(self).body,
                s == self.body@,
                start <= self.pos,
                1 <= depth <= self.pos,
                closing_bracket(s, self.pos as nat, depth as nat) == closing_bracket(
                    s,
                    start as nat,
                    1,
                ),
                byte_at(s, old(self).pos as nat, '[' as u8),
                start == old(self).pos + 1,
            decreases s.len() - self.pos,
        {
            let b: u8 = self.body[self.pos];
            if b == '"' as u8 {
                let ghost from = self.pos as nat;
                proof {
                    lemma_string_end(s, from + 1);
                }
                self.skip_string()?;
            } else if b == '[' as u8 {
                depth = depth + 1;
                self.pos = self.pos + 1;
            } else if b == ']' as u8 {
                if depth == 1 {
                    let end: usize = self.pos;
                    self.pos = self.pos + 1;
                    return Some(&self.body[start..end]);
                }
                depth = depth - 1;
                self.pos = self.pos + 1;
            } else {
                self.pos = self.pos + 1;
            }
        }
        None
    }

    /// Goes over a value of any kind.
    pub fn skip_value(&mut self) -> (r: Option<()>)
        requires
            old(self).wf(),
        ensures
            final(self).wf(),
            final(self).body == old(self).body,
            r is Some == value_end(old(self).body@, old(self).pos as nat) is Some,
            r is Some ==> value_end(old(self).body@, old(self).pos as nat) == Some(
                final(self).pos as nat,
            ),
            r is None ==> {
                let j = blanks_end(old(self).body@, old(self).pos as nat);
                let b = old(self).body@[j as int];
                final(self).pos == if j < old(self).body@.len() && (b == '"' as u8 || b
                    == '{' as u8 || b == '[' as u8) {
                    old(self).body@.len()
                } else {
                    j
                }
            },
    {
        self.skip_ws();
        let b: u8 = self.peek()?;
        if b == '"' as u8 {
            self.skip_string()
        } else if b == '{' as u8 {
            self.skip_object()
        } else if b == '[' as u8 {
            self.skip_array_value()
        } else if b == 't' as u8 || b == 'f' as u8 {
            let _value: bool = self.parse_bool()?;
            Some(())
        } else if b == 'n' as u8 {
            self.parse_null()
        } else if check_digit(b) || b == '-' as u8 {
            self.skip_number()
        } else {
            None
        }
    }

    /// Goes over what can be part of a number; fails only at the end of the text.
    pub fn skip_number(&mut self) -> (r: Option<()>)
        requires
            old(self).wf(),
        ensures
            final(self).wf(),
            final(self).body == old(self).body,
            r is Some == (old(self).pos < old(self).body@.len()),
            final(self).pos == number_end(old(self).body@, old(self).pos as nat),
    {
        let ghost start = self.pos as nat;
        if self.pos >= self.body.len() {
            return None;
        }
        if self.body[self.pos] == '-' as u8 {
            self.pos = self.pos + 1;
        }
        while self.pos < self.body.len()
            invariant
                self.wf(),
                self.body == old(self).body,
                start == old(self).pos < self.body@.len(),
                number_end(self.body@, self.pos as nat) == number_end(self.body@, start),
            decreases self.body@.len() - self.pos,
        {
            let c: u8 = self.body[self.pos];
            if check_digit(c) || c == '.' as u8 || c == 'e' as u8 || c == 'E' as u8 || c
                == '+' as u8 || c == '-' as u8 {
                self.pos = self.pos + 1;
            } else {
                return Some(());
            }
        }
        Some(())
    }

    /// Goes over an object by counting braces.
    pub fn skip_object(&mut self) -> (r: Option<()>)
        requires
            old(self).wf(),
        ensures
            final(self).wf(),
            final(self).body == old(self).body,
            r is Some == object_end(old(self).body@, old(self).pos as nat) is Some,
            r is Some ==> object_end(old(self).body@, old(self).pos as nat) == Some(
                final(self).pos as nat,
            ),
            r is None ==> final(self).pos == stopped_at(*old(self), '{' as u8),
    {
        self.expect('{' as u8)?;
        let mut depth: usize = 1;
        let ghost s = self.body@;
        let ghost start = self.pos as nat;
        while self.pos < self.body.len() && depth > 0
            invariant
                self.wf(),
                self.body == old(self).body,
                s == self.body@,
                depth <= self.pos,
                byte_at(s, old(self).pos as nat, '{' as u8),
                braces_end(s, self.pos as nat, depth as nat) == braces_end(s, start, 1),
                object_end(s, old(self).pos as nat) == braces_end(s, start, 1),
            decreases s.len() - self.pos,
        {
            let b: u8 = self.body[self.pos];
            if b == '"' as u8 {
                proof {
                    lemma_string_end(s, self.pos as nat + 1);
                }
                self.skip_string()?;
            } else if b == '{' as u8 {
                depth = depth + 1;
                self.pos = self.pos + 1;
            } else if b == '}' as u8 {
                depth = depth - 1;
                self.pos = self.pos + 1;
            } else {
                self.pos = self.pos + 1;
            }
        }
        if depth != 0 {
            None
        } else {
            Some(())
        }
    }

    /// Goes over an array by counting brackets, objects in it by counting braces.
    pub fn skip_array_value(&mut self) -> (r: Option<()>)
        requires
            old(self).wf(),
        ensures
            final(self).wf(),
            final(self).body == old(self).body,
            r is Some == array_end(old(self).body@, old(self).pos as nat) is Some,
            r is Some ==> array_end(old(self).body@, old(self).pos as nat) == Some(
                final(self).pos as nat,
            ),
            r is None ==> final(self).pos == stopped_at(*old(self), '[' as u8),
    {
        self.expect('[' as u8)?;
        let mut depth: usize = 1;
        let ghost s = self.body@;
        let ghost start = self.pos as nat;
        while self.pos < self.body.len() && depth > 0
            invariant
                self.wf(),
                self.body == old(self).body,
                s == self.body@,
                depth <= self.pos,
                byte_at(s, old(self).pos as nat, '[' as u8),
                brackets_end(s, self.pos as nat, depth as nat) == brackets_end(s, start, 1),
                array_end(s, old(self).pos as nat) == brackets_end(s, start, 1),
            decreases s.len() - self.pos,
        {
            let b: u8 = self.body[self.pos];
            if b == '"' as u8 {
                proof {
                    lemma_string_end(s, self.pos as nat + 1);
                }
                self.skip_string()?;
            } else if b == '[' as u8 {
                depth = depth + 1;
                self.pos = self.pos + 1;
            } else if b == ']' as u8 {
                depth = depth - 1;
                self.pos = self.pos + 1;
            } else if b == '{' as u8 {
                proof {
                    lemma_braces_end(s, self.pos as nat + 1, 1);
                }
                self.skip_object()?;
            } else {
                self.pos = self.pos + 1;
            }
        }
        if depth != 0 {
            None
        } else {
            Some(())
        }
    }
}

// What is read from a text is the same when more text follows, as long as it does not reach
// to the end.

pub proof fn lemma_blanks_stay(s: Seq<u8>, more: Seq<u8>, i: nat)
    ensures
        blanks_end(s, i) < s.len() ==> blanks_end(s + more, i) == blanks_end(s, i),
    decreases s.len() - i,
{
    if i < s.len() && is_blank(s[i as int]) {
        lemma_blanks_stay(s, more, i + 1);
    }
}

pub proof fn lemma_text_stays(s: Seq<u8>, more: Seq<u8>, i: nat)
    ensures
        text_at(s, i) is Some ==> text_at(s + more, i) == text_at(s, i),
{
    if text_at(s, i) is Some {
        lemma_quote_stays(s, more, i + 1);
        lemma_quote_from(s, i + 1);
        let end = quote_from(s, i + 1);
        assert((s + more).subrange(i as int + 1, end as int) =~= s.subrange(
            i as int + 1,
            end as int,
        ));
    }
}

proof fn lemma_quote_stays(s: Seq<u8>, more: Seq<u8>, i: nat)
    ensures
        quote_from(s, i) < s.len() ==> quote_from(s + more, i) == quote_from(s, i),
    decreases s.len() - i,
{
    if i < s.len() && s[i as int] != '"' as u8 {
        lemma_quote_stays(s, more, i + 1);
    }
}

pub proof fn lemma_string_stays(s: Seq<u8>, more: Seq<u8>, i: nat)
    ensures
        string_end(s, i) is Some ==> string_end(s + more, i) == string_end(s, i),
    decreases s.len() + 1 - i,
{
    if i < s.len() && s[i as int] != '"' as u8 {
        if s[i as int] == '\\' as u8 {
            lemma_string_stays(s, more, i + 2);
        } else {
            lemma_string_stays(s, more, i + 1);
        }
    }
}

proof fn lemma_digits_stay(s: Seq<u8>, more: Seq<u8>, i: nat)
    ensures
        digits_end(s, i) < s.len() ==> digits_end(s + more, i) == digits_end(s, i),
    decreases s.len() - i,
{
    if i < s.len() && is_digit(s[i as int]) {
        lemma_digits_stay(s, more, i + 1);
    }
}

pub proof fn lemma_uint_stays(s: Seq<u8>, more: Seq<u8>, i: nat)
    ensures
        uint_at(s, i) matches Some((_, e)) && e < s.len() ==> uint_at(s + more, i) == uint_at(s, i),
{
    let end = digits_end(s, i);
    if i <= s.len() {
        lemma_digits_end(s, i);
    }
    if end < s.len() {
        lemma_digits_stay(s, more, i);
        assert((s + more).subrange(i as int, end as int) =~= s.subrange(i as int, end as int));
    }
}

proof fn lemma_number_stays(s: Seq<u8>, more: Seq<u8>, i: nat)
    ensures
        number_end(s, i) < s.len() ==> number_end(s + more, i) == number_end(s, i),
    decreases s.len() - i,
{
    if i < s.len() && is_number_byte(s[i as int]) {
        lemma_number_stays(s, more, i + 1);
    }
}

pub proof fn lemma_decimal_stays(s: Seq<u8>, more: Seq<u8>, i: nat)
    ensures
        decimal_at(s, i) matches Some((_, e)) && e < s.len() ==> decimal_at(s + more, i)
            == decimal_at(s, i),
{
    let end = number_end(s, i);
    lemma_number_end(s, i);
    if end < s.len() {
        lemma_number_stays(s, more, i);
        assert((s + more).subrange(i as int, end as int) =~= s.subrange(i as int, end as int));
    }
}

proof fn lemma_has_text_stays(s: Seq<u8>, more: Seq<u8>, i: nat, text: Seq<char>)
    ensures
        has_text_at(s, i as int, text) ==> has_text_at(s + more, i as int, text),
{
    if has_text_at(s, i as int, text) {
        assert((s + more).subrange(i as int, i as int + text.len()) =~= s.subrange(
            i as int,
            i as int + text.len(),
        ));
    }
}

proof fn lemma_first_byte(s: Seq<u8>, i: nat, text: Seq<char>)
    requires
        text.len() > 0,
        has_text_at(s, i as int, text),
    ensures
        s[i as int] == text[0] as u8,
{
    assert(s.subrange(i as int, i as int + text.len())[0] == s[i as int]);
}

pub proof fn lemma_bool_stays(s: Seq<u8>, more: Seq<u8>, i: nat)
    ensures
        bool_at(s, i) is Some ==> bool_at(s + more, i) == bool_at(s, i),
{
    reveal_strlit("true");
    reveal_strlit("false");
    lemma_has_text_stays(s, more, i, "true"@);
    lemma_has_text_stays(s, more, i, "false"@);
    if has_text_at(s, i as int, "false"@) {
        lemma_first_byte(s, i, "false"@);
        if has_text_at(s + more, i as int, "true"@) {
            lemma_first_byte(s + more, i, "true"@);
        }
    }
}

pub proof fn lemma_null_stays(s: Seq<u8>, more: Seq<u8>, i: nat)
    ensures
        null_end(s, i) is Some ==> null_end(s + more, i) == null_end(s, i),
{
    lemma_has_text_stays(s, more, i, "null"@);
}

proof fn lemma_bracket_stays(s: Seq<u8>, more: Seq<u8>, i: nat, depth: nat)
    ensures
        closing_bracket(s, i, depth) is Some ==> closing_bracket(s + more, i, depth)
            == closing_bracket(s, i, depth),
    decreases s.len() - i,
{
    if i < s.len() {
        if s[i as int] == '"' as u8 {
            lemma_string_end(s, i + 1);
            lemma_string_stays(s, more, i + 1);
            if let Some(e) = string_end(s, i + 1) {
                lemma_bracket_stays(s, more, e, depth);
            }
        } else if s[i as int] == '[' as u8 {
            lemma_bracket_stays(s, more, i + 1, depth + 1);
        } else if s[i as int] == ']' as u8 {
            if depth > 1 {
                lemma_bracket_stays(s, more, i + 1, (depth - 1) as nat);
            }
        } else {
            lemma_bracket_stays(s, more, i + 1, depth);
        }
    }
}

pub proof fn lemma_array_stays(s: Seq<u8>, more: Seq<u8>, i: nat)
    ensures
        array_at(s, i) is Some ==> array_at(s + more, i) == array_at(s, i),
{
    lemma_bracket_stays(s, more, i + 1, 1);
    lemma_closing_bracket(s, i + 1, 1);
    if let Some(e) = closing_bracket(s, i + 1, 1) {
        assert((s + more).subrange(i as int + 1, e as int) =~= s.subrange(i as int + 1, e as int));
    }
}

proof fn lemma_braces_stay(s: Seq<u8>, more: Seq<u8>, i: nat, depth: nat)
    ensures
        braces_end(s, i, depth) is Some ==> braces_end(s + more, i, depth) == braces_end(
            s,
            i,
            depth,
        ),
    decreases s.len() - i,
{
    if depth > 0 && i < s.len() {
        if s[i as int] == '"' as u8 {
            lemma_string_end(s, i + 1);
            lemma_string_stays(s, more, i + 1);
            if let Some(e) = string_end(s, i + 1) {
                lemma_braces_stay(s, more, e, depth);
            }
        } else if s[i as int] == '{' as u8 {
            lemma_braces_stay(s, more, i + 1, depth + 1);
        } else if s[i as int] == '}' as u8 {
            lemma_braces_stay(s, more, i + 1, (depth - 1) as nat);
        } else {
            lemma_braces_stay(s, more, i + 1, depth);
        }
    }
}

proof fn lemma_brackets_stay(s: Seq<u8>, more: Seq<u8>, i: nat, depth: nat)
    ensures
        brackets_end(s, i, depth) is Some ==> brackets_end(s + more, i, depth) == brackets_end(
            s,
            i,
            depth,
        ),
    decreases s.len() - i,
{
    if depth > 0 && i < s.len() {
        if s[i as int] == '"' as u8 {
            lemma_string_end(s, i + 1);
            lemma_string_stays(s, more, i + 1);
            if let Some(e) = string_end(s, i + 1) {
                lemma_brackets_stay(s, more, e, depth);
            }
        } else if s[i as int] == '{' as u8 {
            lemma_braces_end(s, i + 1, 1);
            lemma_braces_stay(s, more, i + 1, 1);
            if let Some(e) = braces_end(s, i + 1, 1) {
                lemma_brackets_stay(s, more, e, depth);
            }
        } else if s[i as int] == '[' as u8 {
            lemma_brackets_stay(s, more, i + 1, depth + 1);
        } else if s[i as int] == ']' as u8 {
            lemma_brackets_stay(s, more, i + 1, (depth - 1) as nat);
        } else {
            lemma_brackets_stay(s, more, i + 1, depth);
        }
    }
}

pub proof fn lemma_value_stays(s: Seq<u8>, more: Seq<u8>, i: nat)
    ensures
        value_end(s, i) matches Some(e) && e < s.len() ==> value_end(s + more, i) == value_end(s, i),
{
    let j = blanks_end(s, i);
    if j < s.len() {
        lemma_blanks_stay(s, more, i);
        lemma_string_stays(s, more, j + 1);
        lemma_braces_stay(s, more, j + 1, 1);
        lemma_brackets_stay(s, more, j + 1, 1);
        lemma_bool_stays(s, more, j);
        lemma_null_stays(s, more, j);
        lemma_number_stays(s, more, j);
    }
}

} // verus!
