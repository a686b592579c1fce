//! From the bytes of a request to its vector, in one pass and without allocation.
//!
//! Members may come in any order, unknown ones are passed over, and of a repeated one the
//! last counts. A member that is missing leaves zero, `false` or an empty text. What
//! follows the closing brace is not looked at.

use vstd::prelude::*;

use crate::calendar::{parse_iso8601, timestamp};
use crate::json::{
    array_at, blanks_end, bool_at, byte_at, decimal_at, lemma_array_stays, lemma_blanks_end,
    lemma_blanks_stay, lemma_bool_stays, lemma_closing_bracket, lemma_decimal_stays,
    lemma_null_stays, lemma_number_end, lemma_quote_from, lemma_string_end, lemma_string_stays,
    lemma_text_stays, lemma_uint_stays, lemma_value_end, lemma_value_stays, null_end, quote_from,
    quoted_end, text_at, uint_at, value_end, Parser,
};
use crate::layout::DIMS;
use crate::single::{Single, MINUS_ONE, ONE, ZERO};
use crate::text::{ascii, is_text, lemma_digits_end, same_bytes};
use crate::vector::{
    assemble, components, hundredths, is_unit, law_components_are_normalized, lemma_risk_is_unit,
    mcc_risk_bytes, risk_of_bytes, risk_table, Features, Vector,
};

verus! {

/// The fields of a request, as far as they have been read.
pub struct Fields<'a> {
    pub amount: Single,
    pub installments: u64,
    pub req_hour: u8,
    pub req_weekday: u8,
    pub req_epoch: i64,
    pub avg_amount: Single,
    pub tx_count_24h: u64,
    pub known: &'a [u8],
    pub merchant_id: &'a [u8],
    pub mcc: &'a [u8],
    pub merchant_avg: Single,
    pub is_online: bool,
    pub card_present: bool,
    pub km_from_home: Single,
    pub last_present: bool,
    pub last_epoch: i64,
    pub last_km: Single,
}

/// The model of [`Fields`].
pub struct Reading {
    pub amount: Single,
    pub installments: u64,
    pub req_hour: u8,
    pub req_weekday: u8,
    pub req_epoch: i64,
    pub avg_amount: Single,
    pub tx_count_24h: u64,
    pub known: Seq<u8>,
    pub merchant_id: Seq<u8>,
    pub mcc: Seq<u8>,
    pub merchant_avg: Single,
    pub is_online: bool,
    pub card_present: bool,
    pub km_from_home: Single,
    pub last_present: bool,
    pub last_epoch: i64,
    pub last_km: Single,
}

impl<'a> View for Fields<'a> {
    type V = Reading;

    open spec fn view(&self) -> Reading {
        Reading {
            amount: self.amount,
            installments: self.installments,
            req_hour: self.req_hour,
            req_weekday: self.req_weekday,
            req_epoch: self.req_epoch,
            avg_amount: self.avg_amount,
            tx_count_24h: self.tx_count_24h,
            known: self.known@,
            merchant_id: self.merchant_id@,
            mcc: self.mcc@,
            merchant_avg: self.merchant_avg,
            is_online: self.is_online,
            card_present: self.card_present,
            km_from_home: self.km_from_home,
            last_present: self.last_present,
            last_epoch: self.last_epoch,
            last_km: self.last_km,
        }
    }
}

impl<'a> Fields<'a> {
    /// Moments are within the reach of four-digit years.
    pub open spec fn wf(self) -> bool {
        &&& -1_000_000_000_000 < self.req_epoch < 1_000_000_000_000
        &&& -1_000_000_000_000 < self.last_epoch < 1_000_000_000_000
    }
}

/// The fields before anything has been read.
pub open spec fn nothing_read() -> Reading {
    Reading {
        amount: Single::from_bits(ZERO),
        installments: 0,
        req_hour: 0,
        req_weekday: 0,
        req_epoch: 0,
        avg_amount: Single::from_bits(ZERO),
        tx_count_24h: 0,
        known: Seq::empty(),
        merchant_id: Seq::empty(),
        mcc: Seq::empty(),
        merchant_avg: Single::from_bits(ZERO),
        is_online: false,
        card_present: false,
        km_from_home: Single::from_bits(ZERO),
        last_present: false,
        last_epoch: 0,
        last_km: Single::from_bits(ZERO),
    }
}

/// What comes next in an object.
pub enum Next {
    /// The closing brace; the position after it.
    Close(nat),
    /// A member; its key and the position of its value.
    Member(Seq<u8>, nat),
}

/// What comes next in an object at `i`; all members but the first come after a comma.
pub open spec fn next_member(s: Seq<u8>, i: nat, first: bool) -> Option<Next> {
    let j = blanks_end(s, i);
    let k = if first {
        j
    } else {
        blanks_end(s, j + 1)
    };
    if byte_at(s, j, '}' as u8) {
        Some(Next::Close(j + 1))
    } else if !first && !byte_at(s, j, ',' as u8) {
        None
    } else {
        match text_at(s, k) {
            Some((key, after)) => {
                let c = blanks_end(s, after);
                if byte_at(s, c, ':' as u8) {
                    Some(Next::Member(key, blanks_end(s, c + 1)))
                } else {
                    None
                }
            },
            None => None,
        }
    }
}

pub proof fn lemma_next_member(s: Seq<u8>, i: nat, first: bool)
    ensures
        next_member(s, i, first) matches Some(Next::Close(e)) ==> i < e <= s.len(),
        next_member(s, i, first) matches Some(Next::Member(_, v)) ==> i < v <= s.len(),
{
    let j = blanks_end(s, i);
    let k = if first {
        j
    } else {
        blanks_end(s, j + 1)
    };
    lemma_blanks_end(s, i);
    lemma_blanks_end(s, j + 1);
    lemma_quote_from(s, k + 1);
    if let Some((_, after)) = text_at(s, k) {
        lemma_blanks_end(s, after);
        lemma_blanks_end(s, blanks_end(s, after) + 1);
    }
}

/// A timestamp in quotation marks: hour, day of the week, seconds since 1970, and its end.
pub open spec fn moment_at(s: Seq<u8>, v: nat) -> Option<(u8, u8, i64, nat)> {
    match text_at(s, v) {
        Some((text, e)) => match timestamp(text) {
            Some((hour, weekday, epoch)) => Some((hour, weekday, epoch, e)),
            None => None,
        },
        None => None,
    }
}

/// A member that is passed over.
pub open spec fn skipped(s: Seq<u8>, v: nat, f: Reading) -> Option<(Reading, nat)> {
    match value_end(s, v) {
        Some(e) => Some((f, e)),
        None => None,
    }
}

/// A member of the transaction: the fields with its value, and its end.
pub open spec fn transaction_member(s: Seq<u8>, key: Seq<u8>, v: nat, f: Reading) -> Option<(Reading, nat)> {
    if key == ascii("amount"@) {
        match decimal_at(s, v) {
            Some((value, e)) => Some((Reading { amount: value, ..f }, e)),
            None => None,
        }
    } else if key == ascii("installments"@) {
        match uint_at(s, v) {
            Some((value, e)) => Some((Reading { installments: value, ..f }, e)),
            None => None,
        }
    } else if key == ascii("requested_at"@) {
        match moment_at(s, v) {
            Some((hour, weekday, epoch, e)) => Some(
                (Reading { req_hour: hour, req_weekday: weekday, req_epoch: epoch, ..f }, e),
            ),
            None => None,
        }
    } else {
        skipped(s, v, f)
    }
}

/// A member of the customer: the fields with its value, and its end.
pub open spec fn customer_member(s: Seq<u8>, key: Seq<u8>, v: nat, f: Reading) -> Option<(Reading, nat)> {
    if key == ascii("avg_amount"@) {
        match decimal_at(s, v) {
            Some((value, e)) => Some((Reading { avg_amount: value, ..f }, e)),
            None => None,
        }
    } else if key == ascii("tx_count_24h"@) {
        match uint_at(s, v) {
            Some((value, e)) => Some((Reading { tx_count_24h: value, ..f }, e)),
            None => None,
        }
    } else if key == ascii("known_merchants"@) {
        match array_at(s, v) {
            Some((value, e)) => Some((Reading { known: value, ..f }, e)),
            None => None,
        }
    } else {
        skipped(s, v, f)
    }
}

/// A member of the merchant: the fields with its value, and its end.
pub open spec fn merchant_member(s: Seq<u8>, key: Seq<u8>, v: nat, f: Reading) -> Option<(Reading, nat)> {
    if key == ascii("id"@) {
        match text_at(s, v) {
            Some((value, e)) => Some((Reading { merchant_id: value, ..f }, e)),
            None => None,
        }
    } else if key == ascii("mcc"@) {
        match text_at(s, v) {
            Some((value, e)) => Some((Reading { mcc: value, ..f }, e)),
            None => None,
        }
    } else if key == ascii("avg_amount"@) {
        match decimal_at(s, v) {
            Some((value, e)) => Some((Reading { merchant_avg: value, ..f }, e)),
            None => None,
        }
    } else {
        skipped(s, v, f)
    }
}

/// A member of the terminal: the fields with its value, and its end.
pub open spec fn terminal_member(s: Seq<u8>, key: Seq<u8>, v: nat, f: Reading) -> Option<(Reading, nat)> {
    if key == ascii("is_online"@) {
        match bool_at(s, v) {
            Some((value, e)) => Some((Reading { is_online: value, ..f }, e)),
            None => None,
        }
    } else if key == ascii("card_present"@) {
        match bool_at(s, v) {
            Some((value, e)) => Some((Reading { card_present: value, ..f }, e)),
            None => None,
        }
    } else if key == ascii("km_from_home"@) {
        match decimal_at(s, v) {
            Some((value, e)) => Some((Reading { km_from_home: value, ..f }, e)),
            None => None,
        }
    } else {
        skipped(s, v, f)
    }
}

/// A member of the last transaction: the fields with its value, and its end.
pub open spec fn last_tx_member(s: Seq<u8>, key: Seq<u8>, v: nat, f: Reading) -> Option<(Reading, nat)> {
    if key == ascii("timestamp"@) {
        match moment_at(s, v) {
            Some((_, _, epoch, e)) => Some((Reading { last_epoch: epoch, ..f }, e)),
            None => None,
        }
    } else if key == ascii("km_from_current"@) {
        match decimal_at(s, v) {
            Some((value, e)) => Some((Reading { last_km: value, ..f }, e)),
            None => None,
        }
    } else {
        skipped(s, v, f)
    }
}

/// The objects within a request.
pub enum Section {
    Transaction,
    Customer,
    Merchant,
    Terminal,
    LastTransaction,
}

/// A member of a section: the fields with its value, and its end.
pub open spec fn member(section: Section, s: Seq<u8>, key: Seq<u8>, v: nat, f: Reading) -> Option<
    (Reading, nat),
> {
    match section {
        Section::Transaction => transaction_member(s, key, v, f),
        Section::Customer => customer_member(s, key, v, f),
        Section::Merchant => merchant_member(s, key, v, f),
        Section::Terminal => terminal_member(s, key, v, f),
        Section::LastTransaction => last_tx_member(s, key, v, f),
    }
}

#[verifier::rlimit(40)]
pub proof fn lemma_member(section: Section, s: Seq<u8>, key: Seq<u8>, v: nat, f: Reading)
    ensures
        member(section, s, key, v, f) matches Some((_, e)) ==> v < e <= s.len(),
{
    lemma_value_end(s, v);
    lemma_quote_from(s, v + 1);
    lemma_number_end(s, v);
    lemma_closing_bracket(s, v + 1, 1);
    if v <= s.len() {
        lemma_digits_end(s, v);
    }
    reveal_strlit("true");
    reveal_strlit("false");
}

/// The members of a section from `i` to its closing brace.
pub open spec fn members(section: Section, s: Seq<u8>, i: nat, first: bool, f: Reading) -> Option<
    (Reading, nat),
>
    decreases s.len() - i,
{
    proof {
        lemma_next_member(s, i, first);
    }
    match next_member(s, i, first) {
        Some(Next::Close(e)) => Some((f, e)),
        Some(Next::Member(key, v)) => {
            proof {
                lemma_member(section, s, key, v, f);
            }
            match member(section, s, key, v, f) {
                Some((g, e)) => members(section, s, e, false, g),
                None => None,
            }
        },
        None => None,
    }
}

/// The section that begins with a brace at `i`.
pub open spec fn section_at(section: Section, s: Seq<u8>, i: nat, f: Reading) -> Option<
    (Reading, nat),
> {
    if byte_at(s, i, '{' as u8) {
        members(section, s, i + 1, true, f)
    } else {
        None
    }
}

pub proof fn lemma_members(section: Section, s: Seq<u8>, i: nat, first: bool, f: Reading)
    ensures
        members(section, s, i, first, f) matches Some((_, e)) ==> i < e <= s.len(),
    decreases s.len() - i,
{
    lemma_next_member(s, i, first);
    if let Some(Next::Member(key, v)) = next_member(s, i, first) {
        lemma_member(section, s, key, v, f);
        if let Some((g, e)) = member(section, s, key, v, f) {
            lemma_members(section, s, e, false, g);
        }
    }
}

/// A member of the request: the fields with its value, and its end.
pub open spec fn root_member(s: Seq<u8>, key: Seq<u8>, v: nat, f: Reading) -> Option<
    (Reading, nat),
> {
    if key == ascii("transaction"@) {
        section_at(Section::Transaction, s, v, f)
    } else if key == ascii("customer"@) {
        section_at(Section::Customer, s, v, f)
    } else if key == ascii("merchant"@) {
        section_at(Section::Merchant, s, v, f)
    } else if key == ascii("terminal"@) {
        section_at(Section::Terminal, s, v, f)
    } else if key == ascii("last_transaction"@) {
        if byte_at(s, v, 'n' as u8) {
            match null_end(s, v) {
                Some(e) => Some((f, e)),
                None => None,
            }
        } else {
            section_at(Section::LastTransaction, s, v, Reading { last_present: true, ..f })
        }
    } else if key == ascii("id"@) {
        match quoted_end(s, v) {
            Some(e) => Some((f, e)),
            None => None,
        }
    } else {
        skipped(s, v, f)
    }
}

pub proof fn lemma_root_member(s: Seq<u8>, key: Seq<u8>, v: nat, f: Reading)
    ensures
        root_member(s, key, v, f) matches Some((_, e)) ==> v < e <= s.len(),
{
    lemma_value_end(s, v);
    lemma_string_end(s, v + 1);
    reveal_strlit("null");
    lemma_members(Section::Transaction, s, v + 1, true, f);
    lemma_members(Section::Customer, s, v + 1, true, f);
    lemma_members(Section::Merchant, s, v + 1, true, f);
    lemma_members(Section::Terminal, s, v + 1, true, f);
    lemma_members(Section::LastTransaction, s, v + 1, true, Reading { last_present: true, ..f });
}

/// The members of the request from `i` to its closing brace.
pub open spec fn root_members(s: Seq<u8>, i: nat, first: bool, f: Reading) -> Option<
    (Reading, nat),
>
    decreases s.len() - i,
{
    proof {
        lemma_next_member(s, i, first);
    }
    match next_member(s, i, first) {
        Some(Next::Close(e)) => Some((f, e)),
        Some(Next::Member(key, v)) => {
            proof {
                lemma_root_member(s, key, v, f);
            }
            match root_member(s, key, v, f) {
                Some((g, e)) => root_members(s, e, false, g),
                None => None,
            }
        },
        None => None,
    }
}

/// What a request from position `i` on holds, and where it ends; `None` if there is none.
pub open spec fn request_at(s: Seq<u8>, i: nat) -> Option<(Reading, nat)> {
    let j = blanks_end(s, i);
    if byte_at(s, j, '{' as u8) {
        root_members(s, j + 1, true, nothing_read())
    } else {
        None
    }
}

/// What a request holds, and where it ends; `None` for bytes that are no request.
pub open spec fn request(s: Seq<u8>) -> Option<(Reading, nat)> {
    request_at(s, 0)
}

/// The texts between quotation marks from `i` on, as they come; the last one may lack its
/// closing mark.
pub open spec fn quoted_texts(s: Seq<u8>, i: nat) -> Seq<Seq<u8>>
    decreases s.len() + 1 - i,
{
    let open = quote_from(s, i);
    let close = quote_from(s, open + 1);
    if open >= s.len() {
        Seq::empty()
    } else {
        proof {
            lemma_quote_from(s, i);
            lemma_quote_from(s, open + 1);
        }
        seq![s.subrange(open as int + 1, close as int)] + quoted_texts(s, close + 1)
    }
}

/// Whether `id` is empty or not among the quoted texts.
pub open spec fn is_unknown(known: Seq<u8>, id: Seq<u8>) -> bool {
    id.len() == 0 || !quoted_texts(known, 0).contains(id)
}

/// What the vector of a request is made of.
pub open spec fn features_read(f: Reading) -> Features {
    Features {
        amount: f.amount,
        installments: f.installments,
        avg_amount: f.avg_amount,
        hour: f.req_hour as u32,
        weekday: f.req_weekday as u32,
        last: if f.last_present {
            Some(((f.req_epoch - f.last_epoch) as i64, f.last_km))
        } else {
            None
        },
        km_from_home: f.km_from_home,
        tx_count_24h: f.tx_count_24h,
        is_online: f.is_online,
        card_present: f.card_present,
        unknown_merchant: is_unknown(f.known, f.merchant_id),
        risk: risk_of_bytes(f.mcc),
        merchant_avg_amount: f.merchant_avg,
    }
}

/// The components of the vector of a request.
pub open spec fn request_components(s: Seq<u8>) -> Option<Seq<Single>> {
    match request(s) {
        Some((f, _)) => Some(components(features_read(f))),
        None => None,
    }
}

/// Goes to the value of the next member; `Some(None)` after the closing brace.
fn next_key<'a>(p: &mut Parser<'a>, first: bool) -> (r: Option<Option<&'a [u8]>>)
    requires
        old(p).wf(),
    ensures
        final(p).wf(),
        final(p).body == old(p).body,
        match r {
            None => next_member(old(p).body@, old(p).pos as nat, first) is None,
            Some(None) => next_member(old(p).body@, old(p).pos as nat, first) == Some(
                Next::Close(final(p).pos as nat),
            ),
            Some(Some(key)) => next_member(old(p).body@, old(p).pos as nat, first) == Some(
                Next::Member(key@, final(p).pos as nat),
            ),
        },
{
    p.skip_ws();
    let b: u8 = p.peek()?;
    if b == '}' as u8 {
        let len: usize = p.body.len();
        p.advance();
        return Some(None);
    }
    if !first {
        p.expect(',' as u8)?;
        p.skip_ws();
    }
    let key = p.parse_key()?;
    p.skip_ws();
    p.expect(':' as u8)?;
    p.skip_ws();
    Some(Some(key))
}

/// Reads the transaction.
fn parse_transaction<'a>(p: &mut Parser<'a>, f: &mut Fields<'a>) -> (r: Option<()>)
    requires
        old(p).wf(),
        old(f).wf(),
    ensures
        final(p).wf(),
        final(f).wf(),
        final(p).body == old(p).body,
        r is Some == section_at(
            Section::Transaction,
            old(p).body@,
            old(p).pos as nat,
            old(f)@,
        ) is Some,
        r is Some ==> section_at(Section::Transaction, old(p).body@, old(p).pos as nat, old(f)@)
            == Some((final(f)@, final(p).pos as nat)),
{
    proof {
        reveal_strlit("amount");
        reveal_strlit("installments");
        reveal_strlit("requested_at");
    }
    p.expect('{' as u8)?;
    let ghost s = p.body@;
    let mut first: bool = true;
    loop
        invariant
            p.wf(),
            f.wf(),
            s == p.body@,
            p.body == old(p).body,
            members(Section::Transaction, s, p.pos as nat, first, f@) == section_at(
                Section::Transaction,
                s,
                old(p).pos as nat,
                old(f)@,
            ),
            "amount".is_ascii(),
            "installments".is_ascii(),
            "requested_at".is_ascii(),
        decreases s.len() - p.pos,
    {
        let ghost from = p.pos as nat;
        proof {
            lemma_next_member(s, from, first);
        }
        let next = next_key(p, first)?;
        first = false;
        let key = match next {
            Some(key) => key,
            None => {
                return Some(());
            },
        };
        proof {
            lemma_member(Section::Transaction, s, key@, p.pos as nat, f@);
        }
        if is_text(key, "amount") {
            f.amount = p.parse_f32()?;
        } else if is_text(key, "installments") {
            f.installments = p.parse_uint()?;
        } else if is_text(key, "requested_at") {
            let text = p.parse_string()?;
            let (hour, weekday, epoch) = parse_iso8601(text)?;
            f.req_hour = hour;
            f.req_weekday = weekday;
            f.req_epoch = epoch;
        } else {
            p.skip_value()?;
        }
    }
}

/// Reads the customer.
fn parse_customer<'a>(p: &mut Parser<'a>, f: &mut Fields<'a>) -> (r: Option<()>)
    requires
        old(p).wf(),
        old(f).wf(),
    ensures
        final(p).wf(),
        final(f).wf(),
        final(p).body == old(p).body,
        r is Some == section_at(
            Section::Customer,
            old(p).body@,
            old(p).pos as nat,
            old(f)@,
        ) is Some,
        r is Some ==> section_at(Section::Customer, old(p).body@, old(p).pos as nat, old(f)@)
            == Some((final(f)@, final(p).pos as nat)),
{
    proof {
        reveal_strlit("avg_amount");
        reveal_strlit("tx_count_24h");
        reveal_strlit("known_merchants");
    }
    p.expect('{' as u8)?;
    let ghost s = p.body@;
    let mut first: bool = true;
    loop
        invariant
            p.wf(),
            f.wf(),
            s == p.body@,
            p.body == old(p).body,
            members(Section::Customer, s, p.pos as nat, first, f@) == section_at(
                Section::Customer,
                s,
                old(p).pos as nat,
                old(f)@,
            ),
            "avg_amount".is_ascii(),
            "tx_count_24h".is_ascii(),
            "known_merchants".is_ascii(),
        decreases s.len() - p.pos,
    {
        let ghost from = p.pos as nat;
        proof {
            lemma_next_member(s, from, first);
        }
        let next = next_key(p, first)?;
        first = false;
        let key = match next {
            Some(key) => key,
            None => {
                return Some(());
            },
        };
        proof {
            lemma_member(Section::Customer, s, key@, p.pos as nat, f@);
        }
        if is_text(key, "avg_amount") {
            f.avg_amount = p.parse_f32()?;
        } else if is_text(key, "tx_count_24h") {
            f.tx_count_24h = p.parse_uint()?;
        } else if is_text(key, "known_merchants") {
            f.known = p.parse_array_slice()?;
        } else {
            p.skip_value()?;
        }
    }
}

/// Reads the merchant.
fn parse_merchant<'a>(p: &mut Parser<'a>, f: &mut Fields<'a>) -> (r: Option<()>)
    requires
        old(p).wf(),
        old(f).wf(),
    ensures
        final(p).wf(),
        final(f).wf(),
        final(p).body == old(p).body,
        r is Some == section_at(
            Section::Merchant,
            old(p).body@,
            old(p).pos as nat,
            old(f)@,
        ) is Some,
        r is Some ==> section_at(Section::Merchant, old(p).body@, old(p).pos as nat, old(f)@)
            == Some((final(f)@, final(p).pos as nat)),
{
    proof {
        reveal_strlit("id");
        reveal_strlit("mcc");
        reveal_strlit("avg_amount");
    }
    p.expect('{' as u8)?;
    let ghost s = p.body@;
    let mut first: bool = true;
    loop
        invariant
            p.wf(),
            f.wf(),
            s == p.body@,
            p.body == old(p).body,
            members(Section::Merchant, s, p.pos as nat, first, f@) == section_at(
                Section::Merchant,
                s,
                old(p).pos as nat,
                old(f)@,
            ),
            "id".is_ascii(),
            "mcc".is_ascii(),
            "avg_amount".is_ascii(),
        decreases s.len() - p.pos,
    {
        let ghost from = p.pos as nat;
        proof {
            lemma_next_member(s, from, first);
        }
        let next = next_key(p, first)?;
        first = false;
        let key = match next {
            Some(key) => key,
            None => {
                return Some(());
            },
        };
        proof {
            lemma_member(Section::Merchant, s, key@, p.pos as nat, f@);
        }
        if is_text(key, "id") {
            f.merchant_id = p.parse_string()?;
        } else if is_text(key, "mcc") {
            f.mcc = p.parse_string()?;
        } else if is_text(key, "avg_amount") {
            f.merchant_avg = p.parse_f32()?;
        } else {
            p.skip_value()?;
        }
    }
}

/// Reads the terminal.
fn parse_terminal<'a>(p: &mut Parser<'a>, f: &mut Fields<'a>) -> (r: Option<()>)
    requires
        old(p).wf(),
        old(f).wf(),
    ensures
        final(p).wf(),
        final(f).wf(),
        final(p).body == old(p).body,
        r is Some == section_at(
            Section::Terminal,
            old(p).body@,
            old(p).pos as nat,
            old(f)@,
        ) is Some,
        r is Some ==> section_at(Section::Terminal, old(p).body@, old(p).pos as nat, old(f)@)
            == Some((final(f)@, final(p).pos as nat)),
{
    proof {
        reveal_strlit("is_online");
        reveal_strlit("card_present");
        reveal_strlit("km_from_home");
    }
    p.expect('{' as u8)?;
    let ghost s = p.body@;
    let mut first: bool = true;
    loop
        invariant
            p.wf(),
            f.wf(),
            s == p.body@,
            p.body == old(p).body,
            members(Section::Terminal, s, p.pos as nat, first, f@) == section_at(
                Section::Terminal,
                s,
                old(p).pos as nat,
                old(f)@,
            ),
            "is_online".is_ascii(),
            "card_present".is_ascii(),
            "km_from_home".is_ascii(),
        decreases s.len() - p.pos,
    {
        let ghost from = p.pos as nat;
        proof {
            lemma_next_member(s, from, first);
        }
        let next = next_key(p, first)?;
        first = false;
        let key = match next {
            Some(key) => key,
            None => {
                return Some(());
            },
        };
        proof {
            lemma_member(Section::Terminal, s, key@, p.pos as nat, f@);
        }
        if is_text(key, "is_online") {
            f.is_online = p.parse_bool()?;
        } else if is_text(key, "card_present") {
            f.card_present = p.parse_bool()?;
        } else if is_text(key, "km_from_home") {
            f.km_from_home = p.parse_f32()?;
        } else {
            p.skip_value()?;
        }
    }
}

/// Reads the last transaction.
fn parse_last_tx<'a>(p: &mut Parser<'a>, f: &mut Fields<'a>) -> (r: Option<()>)
    requires
        old(p).wf(),
        old(f).wf(),
    ensures
        final(p).wf(),
        final(f).wf(),
        final(p).body == old(p).body,
        r is Some == section_at(
            Section::LastTransaction,
            old(p).body@,
            old(p).pos as nat,
            old(f)@,
        ) is Some,
        r is Some ==> section_at(Section::LastTransaction, old(p).body@, old(p).pos as nat, old(f)@)
            == Some((final(f)@, final(p).pos as nat)),
{
    proof {
        reveal_strlit("timestamp");
        reveal_strlit("km_from_current");
    }
    p.expect('{' as u8)?;
    let ghost s = p.body@;
    let mut first: bool = true;
    loop
        invariant
            p.wf(),
            f.wf(),
            s == p.body@,
            p.body == old(p).body,
            members(Section::LastTransaction, s, p.pos as nat, first, f@) == section_at(
                Section::LastTransaction,
                s,
                old(p).pos as nat,
                old(f)@,
            ),
            "timestamp".is_ascii(),
            "km_from_current".is_ascii(),
        decreases s.len() - p.pos,
    {
        let ghost from = p.pos as nat;
        proof {
            lemma_next_member(s, from, first);
        }
        let next = next_key(p, first)?;
        first = false;
        let key = match next {
            Some(key) => key,
            None => {
                return Some(());
            },
        };
        proof {
            lemma_member(Section::LastTransaction, s, key@, p.pos as nat, f@);
        }
        if is_text(key, "timestamp") {
            let text = p.parse_string()?;
            let (_, _, epoch) = parse_iso8601(text)?;
            f.last_epoch = epoch;
        } else if is_text(key, "km_from_current") {
            f.last_km = p.parse_f32()?;
        } else {
            p.skip_value()?;
        }
    }
}

/// Whether `id` is empty or not among the quoted texts of `known`.
pub fn scan_unknown(known: &[u8], id: &[u8]) -> (r: bool)
    ensures
        r == is_unknown(known@, id@),
{
    if id.len() == 0 {
        return true;
    }
    let ghost s = known@;
    let ghost mut seen: Seq<Seq<u8>> = Seq::empty();
    let mut i: usize = 0;
    assert(seen + quoted_texts(s, 0) =~= quoted_texts(s, 0));
    while i < known.len()
        invariant
            s == known@,
            i <= s.len(),
            id@.len() > 0,
            seen + quoted_texts(s, i as nat) == quoted_texts(s, 0),
            !seen.contains(id@),
        decreases s.len() - i,
    {
        let open: usize = next_quote(known, i);
        if open >= known.len() {
            assert(quoted_texts(s, i as nat) =~= Seq::empty());
            assert(seen + quoted_texts(s, i as nat) =~= seen);
            return true;
        }
        let close: usize = next_quote(known, open + 1);
        let ghost text = s.subrange(open as int + 1, close as int);
        proof {
            assert(quoted_texts(s, i as nat) == seq![text] + quoted_texts(s, close as nat + 1));
            assert(seen + (seq![text] + quoted_texts(s, close as nat + 1)) =~= seen.push(text)
                + quoted_texts(s, close as nat + 1));
        }
        if same_bytes(&known[open + 1..close], id) {
            proof {
                let all = quoted_texts(s, 0);
                assert(all[seen.len() as int] == text);
            }
            return false;
        }
        proof {
            let before = seen;
            seen = seen.push(text);
            assert forall|k: int| 0 <= k < seen.len() implies seen[k] != id@ by {
                if k < before.len() {
                    assert(before[k] == seen[k]);
                }
            }
            assert(!seen.contains(id@));
        }
        if close < known.len() {
            i = close + 1;
        } else {
            proof {
                assert(quoted_texts(s, close as nat + 1) =~= Seq::empty()) by {
                    lemma_quote_from(s, close as nat + 1);
                }
                assert(quoted_texts(s, close as nat) =~= Seq::empty());
            }
            i = close;
        }
    }
    proof {
        lemma_quote_from(s, i as nat);
        assert(quoted_texts(s, i as nat) =~= Seq::empty());
        assert(seen + quoted_texts(s, i as nat) =~= seen);
    }
    true
}

/// The first quotation mark from `i` on, or the end.
fn next_quote(s: &[u8], i: usize) -> (r: usize)
    requires
        i <= s@.len(),
    ensures
        r == quote_from(s@, i as nat),
        i <= r <= s@.len(),
{
    let mut j: usize = i;
    while j < s.len() && s[j] != '"' as u8
        invariant
            i <= j <= s@.len(),
            quote_from(s@, j as nat) == quote_from(s@, i as nat),
        decreases s@.len() - j,
    {
        j = j + 1;
    }
    j
}

/// Reads a request and makes its vector.
fn parse_root<'a>(p: &mut Parser<'a>) -> (r: Option<Vector>)
    requires
        old(p).wf(),
    ensures
        final(p).wf(),
        final(p).body == old(p).body,
        r is Some == request_at(old(p).body@, old(p).pos as nat) is Some,
        r matches Some(v) ==> (request_at(old(p).body@, old(p).pos as nat) matches Some((f, e))
            && v@ == components(features_read(f)) && e == final(p).pos),
{
    let mut f = Fields {
        amount: Single::from_bits(ZERO),
        installments: 0,
        req_hour: 0,
        req_weekday: 0,
        req_epoch: 0,
        avg_amount: Single::from_bits(ZERO),
        tx_count_24h: 0,
        known: &[],
        merchant_id: &[],
        mcc: &[],
        merchant_avg: Single::from_bits(ZERO),
        is_online: false,
        card_present: false,
        km_from_home: Single::from_bits(ZERO),
        last_present: false,
        last_epoch: 0,
        last_km: Single::from_bits(ZERO),
    };
    proof {
        assert(f@.known =~= Seq::empty());
        assert(f@.merchant_id =~= Seq::empty());
        assert(f@.mcc =~= Seq::empty());
        reveal_strlit("transaction");
        reveal_strlit("customer");
        reveal_strlit("merchant");
        reveal_strlit("terminal");
        reveal_strlit("last_transaction");
        reveal_strlit("id");
    }
    let ghost s = p.body@;
    let ghost start = p.pos as nat;
    p.skip_ws();
    p.expect('{' as u8)?;
    let mut first: bool = true;
    loop
        invariant
            p.wf(),
            f.wf(),
            s == p.body@,
            p.body == old(p).body,
            start == old(p).pos,
            root_members(s, p.pos as nat, first, f@) == request_at(s, start),
            "transaction".is_ascii(),
            "customer".is_ascii(),
            "merchant".is_ascii(),
            "terminal".is_ascii(),
            "last_transaction".is_ascii(),
            "id".is_ascii(),
        decreases s.len() - p.pos,
    {
        let ghost from = p.pos as nat;
        proof {
            lemma_next_member(s, from, first);
        }
        let next = next_key(p, first)?;
        first = false;
        let key = match next {
            Some(key) => key,
            None => {
                return Some(finish(&f));
            },
        };
        proof {
            lemma_root_member(s, key@, p.pos as nat, f@);
        }
        if is_text(key, "transaction") {
            parse_transaction(p, &mut f)?;
        } else if is_text(key, "customer") {
            parse_customer(p, &mut f)?;
        } else if is_text(key, "merchant") {
            parse_merchant(p, &mut f)?;
        } else if is_text(key, "terminal") {
            parse_terminal(p, &mut f)?;
        } else if is_text(key, "last_transaction") {
            let b: u8 = p.peek()?;
            if b == 'n' as u8 {
                p.parse_null()?;
            } else {
                f.last_present = true;
                parse_last_tx(p, &mut f)?;
            }
        } else if is_text(key, "id") {
            p.skip_string()?;
        } else {
            p.skip_value()?;
        }
    }
}

/// The vector of the fields of a request.
fn finish<'a>(f: &Fields<'a>) -> (v: Vector)
    requires
        f.wf(),
    ensures
        v@ == components(features_read(f@)),
{
    let features = Features {
        amount: f.amount,
        installments: f.installments,
        avg_amount: f.avg_amount,
        hour: f.req_hour as u32,
        weekday: f.req_weekday as u32,
        last: if f.last_present {
            Some((f.req_epoch - f.last_epoch, f.last_km))
        } else {
            None
        },
        km_from_home: f.km_from_home,
        tx_count_24h: f.tx_count_24h,
        is_online: f.is_online,
        card_present: f.card_present,
        unknown_merchant: scan_unknown(f.known, f.merchant_id),
        risk: mcc_risk_bytes(f.mcc),
        merchant_avg_amount: f.merchant_avg,
    };
    assemble(&features)
}

/// The vector of the request in `body`; `None` if there is none.
pub fn parse_and_vectorize(body: &[u8]) -> (r: Option<Vector>)
    ensures
        r is Some == request_components(body@) is Some,
        r matches Some(v) ==> request_components(body@) == Some(v@),
{
    let mut p = Parser::new(body);
    parse_root(&mut p)
}

proof fn lemma_next_member_stays(s: Seq<u8>, more: Seq<u8>, i: nat, first: bool)
    ensures
        next_member(s, i, first) is Some ==> i < s.len(),
        next_member(s, i, first) is Some && !(next_member(s, i, first) matches Some(
            Next::Member(_, v),
        ) && v == s.len()) ==> next_member(s + more, i, first) == next_member(s, i, first),
{
    let j = blanks_end(s, i);
    let k = if first {
        j
    } else {
        blanks_end(s, j + 1)
    };
    lemma_blanks_end(s, i);
    lemma_blanks_stay(s, more, i);
    lemma_blanks_end(s, j + 1);
    lemma_blanks_stay(s, more, j + 1);
    lemma_text_stays(s, more, k);
    lemma_quote_from(s, k + 1);
    if let Some((_, after)) = text_at(s, k) {
        lemma_blanks_end(s, after);
        lemma_blanks_stay(s, more, after);
        let c = blanks_end(s, after);
        lemma_blanks_end(s, c + 1);
        lemma_blanks_stay(s, more, c + 1);
    }
}

#[verifier::rlimit(40)]
proof fn lemma_member_stays(
    section: Section,
    s: Seq<u8>,
    more: Seq<u8>,
    key: Seq<u8>,
    v: nat,
    f: Reading,
)
    ensures
        member(section, s, key, v, f) matches Some((_, e)) && e < s.len() ==> member(
            section,
            s + more,
            key,
            v,
            f,
        ) == member(section, s, key, v, f),
{
    lemma_value_stays(s, more, v);
    lemma_text_stays(s, more, v);
    lemma_decimal_stays(s, more, v);
    lemma_uint_stays(s, more, v);
    lemma_array_stays(s, more, v);
    lemma_bool_stays(s, more, v);
}

proof fn lemma_members_stay(
    section: Section,
    s: Seq<u8>,
    more: Seq<u8>,
    i: nat,
    first: bool,
    f: Reading,
)
    ensures
        members(section, s, i, first, f) is Some ==> i < s.len() && members(
            section,
            s + more,
            i,
            first,
            f,
        ) == members(section, s, i, first, f),
    decreases s.len() - i,
{
    lemma_next_member(s, i, first);
    lemma_next_member_stays(s, more, i, first);
    if let Some(Next::Member(key, v)) = next_member(s, i, first) {
        lemma_member(section, s, key, v, f);
        lemma_member_stays(section, s, more, key, v, f);
        if let Some((g, e)) = member(section, s, key, v, f) {
            lemma_members_stay(section, s, more, e, false, g);
        }
    }
}

proof fn lemma_section_stays(section: Section, s: Seq<u8>, more: Seq<u8>, i: nat, f: Reading)
    ensures
        section_at(section, s, i, f) is Some ==> section_at(section, s + more, i, f) == section_at(
            section,
            s,
            i,
            f,
        ),
{
    lemma_members_stay(section, s, more, i + 1, true, f);
}

proof fn lemma_root_member_stays(s: Seq<u8>, more: Seq<u8>, key: Seq<u8>, v: nat, f: Reading)
    ensures
        root_member(s, key, v, f) matches Some((_, e)) && e < s.len() ==> root_member(
            s + more,
            key,
            v,
            f,
        ) == root_member(s, key, v, f),
{
    lemma_root_member(s, key, v, f);
    lemma_value_stays(s, more, v);
    lemma_string_stays(s, more, v + 1);
    lemma_null_stays(s, more, v);
    lemma_section_stays(Section::Transaction, s, more, v, f);
    lemma_section_stays(Section::Customer, s, more, v, f);
    lemma_section_stays(Section::Merchant, s, more, v, f);
    lemma_section_stays(Section::Terminal, s, more, v, f);
    lemma_section_stays(Section::LastTransaction, s, more, v, Reading { last_present: true, ..f });
}

proof fn lemma_root_members_stay(s: Seq<u8>, more: Seq<u8>, i: nat, first: bool, f: Reading)
    ensures
        root_members(s, i, first, f) is Some ==> i < s.len() && root_members(s + more, i, first, f)
            == root_members(s, i, first, f),
        root_members(s, i, first, f) matches Some((_, e)) ==> e <= s.len(),
    decreases s.len() - i,
{
    lemma_next_member(s, i, first);
    lemma_next_member_stays(s, more, i, first);
    if let Some(Next::Member(key, v)) = next_member(s, i, first) {
        lemma_root_member(s, key, v, f);
        lemma_root_member_stays(s, more, key, v, f);
        if let Some((g, e)) = root_member(s, key, v, f) {
            lemma_root_members_stay(s, more, e, false, g);
        }
    }
}

/// What follows a request does not change it.
pub proof fn law_request_ignores_what_follows(s: Seq<u8>, more: Seq<u8>)
    requires
        request(s) is Some,
    ensures
        request(s + more) == request(s),
{
    let i = blanks_end(s, 0);
    lemma_blanks_stay(s, more, 0);
    lemma_root_members_stay(s, more, i + 1, true, nothing_read());
}

/// A request that is cut off before its closing brace is no request.
pub proof fn law_truncated_request_is_rejected(s: Seq<u8>, n: int)
    requires
        request(s) is Some,
        0 <= n < request(s).unwrap().1,
    ensures
        request(s.subrange(0, n)) is None,
{
    let i = blanks_end(s, 0);
    lemma_root_members_stay(s, Seq::empty(), i + 1, true, nothing_read());
    let cut = s.subrange(0, n);
    let rest = s.subrange(n, s.len() as int);
    if request(cut) is Some {
        assert(cut + rest =~= s);
        law_request_ignores_what_follows(cut, rest);
        let j = blanks_end(cut, 0);
        lemma_root_members_stay(cut, rest, j + 1, true, nothing_read());
    }
}

/// A day of the week that is read is one.
proof fn lemma_member_weekday(section: Section, s: Seq<u8>, key: Seq<u8>, v: nat, f: Reading)
    requires
        f.req_weekday <= 6,
    ensures
        member(section, s, key, v, f) matches Some((g, _)) ==> g.req_weekday <= 6 && g.last_present
            == f.last_present,
{
}

proof fn lemma_members_weekday(section: Section, s: Seq<u8>, i: nat, first: bool, f: Reading)
    requires
        f.req_weekday <= 6,
    ensures
        members(section, s, i, first, f) matches Some((g, _)) ==> g.req_weekday <= 6
            && g.last_present == f.last_present,
    decreases s.len() - i,
{
    lemma_next_member(s, i, first);
    if let Some(Next::Member(key, v)) = next_member(s, i, first) {
        lemma_member(section, s, key, v, f);
        lemma_member_weekday(section, s, key, v, f);
        if let Some((g, e)) = member(section, s, key, v, f) {
            lemma_members_weekday(section, s, e, false, g);
        }
    }
}

proof fn lemma_root_members_weekday(s: Seq<u8>, i: nat, first: bool, f: Reading)
    requires
        f.req_weekday <= 6,
    ensures
        root_members(s, i, first, f) matches Some((g, _)) ==> g.req_weekday <= 6,
    decreases s.len() - i,
{
    lemma_next_member(s, i, first);
    if let Some(Next::Member(key, v)) = next_member(s, i, first) {
        lemma_root_member(s, key, v, f);
        lemma_members_weekday(Section::Transaction, s, v + 1, true, f);
        lemma_members_weekday(Section::Customer, s, v + 1, true, f);
        lemma_members_weekday(Section::Merchant, s, v + 1, true, f);
        lemma_members_weekday(Section::Terminal, s, v + 1, true, f);
        lemma_members_weekday(
            Section::LastTransaction,
            s,
            v + 1,
            true,
            Reading { last_present: true, ..f },
        );
        if let Some((g, e)) = root_member(s, key, v, f) {
            lemma_root_members_weekday(s, e, false, g);
        }
    }
}

/// What is read from bytes is normalized: no component is out of range, except that the two
/// about the last transaction are minus one, both of them, exactly if there is none. The hour
/// that is read is one.
#[verifier::rlimit(40)]
pub proof fn law_read_requests_are_normalized(s: Seq<u8>)
    requires
        request(s) is Some,
        request(s).unwrap().0.req_hour <= 23,
    ensures
        ({
            let f = request(s).unwrap().0;
            let v = request_components(s).unwrap();
            let missing = Single::from_bits(MINUS_ONE);
            &&& v.len() == DIMS
            &&& forall|d: int| 0 <= d < DIMS && d != 5 && d != 6 ==> is_unit(#[trigger] v[d])
            &&& f.last_present ==> is_unit(v[5]) && is_unit(v[6])
            &&& !f.last_present ==> v[5] == missing && v[6] == missing
            &&& v[5] == missing <==> v[6] == missing
            &&& forall|d: int|
                9 <= d <= 11 ==> #[trigger] v[d] == Single::from_bits(ZERO) || v[d]
                    == Single::from_bits(ONE)
        }),
{
    let f = request(s).unwrap().0;
    let code = |code: Seq<char>| f.mcc == ascii(code);
    lemma_root_members_weekday(s, blanks_end(s, 0) + 1, true, nothing_read());
    lemma_risk_is_unit(code);
    assert(features_read(f).risk == hundredths(risk_table(code)));
    law_components_are_normalized(features_read(f));
    let v = components(features_read(f));
    assert(!is_unit(Single::from_bits(MINUS_ONE)));
    assert forall|d: int| 0 <= d < DIMS && d != 5 && d != 6 implies is_unit(#[trigger] v[d]) by {}
}

} // verus!
