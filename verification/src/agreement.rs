//! A request read from bytes and the same request given field by field have one vector.

use vstd::prelude::*;
use vstd::utf8::{encode_utf8, encode_utf8_decode_utf8};

use crate::calendar::{
    hour_of, is_timestamp, number_at, timestamp, timestamp_days, timestamp_offset,
    timestamp_seconds, weekday_of,
};
use crate::fast_parse::{features_read, is_unknown, quoted_texts, Reading};
use crate::payload::{seconds_since, FraudRequest};
use crate::text::ascii;
use crate::vector::{components, features_of, is_known, risk_of, risk_of_bytes, risk_table};

verus! {

/// Whether the fields read from bytes are those of a request: the same numbers and flags,
/// moments to the second, and texts as their UTF-8 bytes, the known merchants in quotation
/// marks. A merchant without a name is not among them.
pub open spec fn corresponds(r: FraudRequest, f: Reading) -> bool {
    let at = r.transaction.requested_at;
    let known = r.customer.known_merchants@;
    &&& f.amount == r.transaction.amount
    &&& f.installments == r.transaction.installments
    &&& f.req_epoch == at.seconds() && at.nanoseconds() == 0
    &&& f.req_hour == hour_of(at.seconds())
    &&& f.req_weekday == weekday_of(at.seconds() / 86_400)
    &&& f.avg_amount == r.customer.avg_amount
    &&& f.tx_count_24h == r.customer.tx_count_24h
    &&& quoted_texts(f.known, 0) == Seq::new(known.len(), |i: int| encode_utf8(known[i]@))
    &&& f.merchant_id == encode_utf8(r.merchant.id@)
    &&& r.merchant.id@.len() > 0 || !is_known(known, r.merchant.id@)
    &&& f.mcc == encode_utf8(r.merchant.mcc@)
    &&& f.merchant_avg == r.merchant.avg_amount
    &&& f.is_online == r.terminal.is_online
    &&& f.card_present == r.terminal.card_present
    &&& f.km_from_home == r.terminal.km_from_home
    &&& f.last_present == r.last_transaction is Some
    &&& r.last_transaction matches Some(last) ==> {
        &&& f.last_epoch == last.timestamp.seconds() && last.timestamp.nanoseconds() == 0
        &&& f.last_km == last.km_from_current
    }
}

/// Texts with the same bytes are the same.
proof fn lemma_utf8_tells_apart(a: Seq<char>, b: Seq<char>)
    ensures
        encode_utf8(a) == encode_utf8(b) <==> a == b,
{
    encode_utf8_decode_utf8(a);
    encode_utf8_decode_utf8(b);
}

proof fn lemma_code(mcc: Seq<char>, code: &str)
    requires
        code.is_ascii(),
    ensures
        (encode_utf8(mcc) == ascii(code@)) == (mcc == code@),
{
    vstd::string::is_ascii_spec_bytes(code);
    assert(encode_utf8(code@) =~= ascii(code@));
    lemma_utf8_tells_apart(mcc, code@);
}

/// A category has one risk, as a text and as bytes.
proof fn lemma_risk(mcc: Seq<char>)
    ensures
        risk_of_bytes(encode_utf8(mcc)) == risk_of(mcc),
{
    reveal_strlit("5411");
    reveal_strlit("5812");
    reveal_strlit("5912");
    reveal_strlit("5944");
    reveal_strlit("7801");
    reveal_strlit("7802");
    reveal_strlit("7995");
    reveal_strlit("4511");
    reveal_strlit("5311");
    lemma_code(mcc, "5411");
    lemma_code(mcc, "5812");
    lemma_code(mcc, "5912");
    lemma_code(mcc, "5944");
    lemma_code(mcc, "7801");
    lemma_code(mcc, "7802");
    lemma_code(mcc, "7995");
    lemma_code(mcc, "4511");
    lemma_code(mcc, "5311");
    let bytes = encode_utf8(mcc);
    assert(risk_table(|code: Seq<char>| bytes == ascii(code)) == risk_table(
        |code: Seq<char>| mcc == code,
    ));
}

/// A merchant is known, as a text and as bytes.
proof fn lemma_known(known: Seq<String>, id: Seq<char>, listed: Seq<u8>)
    requires
        quoted_texts(listed, 0) == Seq::new(known.len(), |i: int| encode_utf8(known[i]@)),
        id.len() > 0 || !is_known(known, id),
    ensures
        is_unknown(listed, encode_utf8(id)) == !is_known(known, id),
{
    let names = Seq::new(known.len(), |i: int| encode_utf8(known[i]@));
    let bytes = encode_utf8(id);
    if bytes.len() == 0 {
        assert(bytes =~= encode_utf8(Seq::<char>::empty()));
        lemma_utf8_tells_apart(id, Seq::<char>::empty());
    }
    if names.contains(bytes) {
        let i = choose|i: int| 0 <= i < names.len() && names[i] == bytes;
        lemma_utf8_tells_apart(known[i]@, id);
        assert(known[i]@ == id);
    }
    if is_known(known, id) {
        let i = choose|i: int| 0 <= i < known.len() && (#[trigger] known[i])@ == id;
        assert(names[i] == bytes);
    }
}

/// A request read from bytes and the same request given field by field have the same
/// vector.
pub proof fn law_reading_agrees_with_the_request(r: FraudRequest, f: Reading)
    requires
        corresponds(r, f),
    ensures
        components(features_read(f)) == components(features_of(r)),
{
    lemma_risk(r.merchant.mcc@);
    lemma_known(r.customer.known_merchants@, r.merchant.id@, f.known);
    if let Some(last) = r.last_transaction {
        let a = r.transaction.requested_at.seconds();
        let b = last.timestamp.seconds();
        assert(seconds_since(a, 0, b, 0) == a - b);
    }
    assert(features_read(f) == features_of(r));
}

/// The text of a moment gives its hour and its day of the week in UTC and its seconds since
/// 1970: with an offset always, without one as long as it writes a time of day.
pub proof fn law_timestamps_are_moments(s: Seq<u8>)
    requires
        is_timestamp(s),
        timestamp_offset(s) is Some || (number_at(s, 11, 13) < 24 && number_at(s, 14, 16) < 60
            && number_at(s, 17, 19) < 60),
    ensures
        ({
            let e = timestamp_seconds(s);
            timestamp(s) == Some((hour_of(e) as u8, weekday_of(e / 86_400) as u8, e as i64))
        }),
{
    if timestamp_offset(s) is None {
        let e = timestamp_seconds(s);
        let days = timestamp_days(s);
        let rest = number_at(s, 11, 13) * 3_600 + number_at(s, 14, 16) * 60 + number_at(s, 17, 19);
        assert(0 <= rest < 86_400);
        assert(e == days * 86_400 + rest);
        assert(e / 86_400 == days);
        assert(e % 86_400 == rest);
        assert(rest / 3_600 == number_at(s, 11, 13));
    }
}

} // verus!
