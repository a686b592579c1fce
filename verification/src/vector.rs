//! The fourteen components of a transaction, and their quantization.

use vstd::prelude::*;
use vstd::arithmetic::power2::*;

pub use crate::layout::DIMS;
use crate::payload::FraudRequest;
use crate::rounding::{
    coarseness, lemma_coarseness_bounds, lemma_nearest_at_least, lemma_nearest_at_most,
    lemma_nearest_error, lemma_nearest_monotone, lemma_parts, lemma_units_monotone, nearest, units,
};
use crate::single::{
    lemma_integer, lemma_one, lemma_part_monotone, lemma_part_of_integer, lemma_rounded_bounds,
    lemma_rounded_monotone, lemma_unit_clamp, Single, MINUS_ONE, ONE, ZERO,
};
use crate::text::{ascii, is_text, same_text};

verus! {

pub type Vector = [Single; DIMS];

pub type QuantizedVector = [u8; DIMS];

pub type QuantizedI16Vector = [i16; DIMS];

/// What the components are made of.
pub struct Features {
    pub amount: Single,
    pub installments: u64,
    pub avg_amount: Single,
    pub hour: u32,
    pub weekday: u32,
    /// Seconds and kilometres since the last transaction.
    pub last: Option<(i64, Single)>,
    pub km_from_home: Single,
    pub tx_count_24h: u64,
    pub is_online: bool,
    pub card_present: bool,
    pub unknown_merchant: bool,
    pub risk: Single,
    pub merchant_avg_amount: Single,
}

/// `n` hundredths.
pub open spec fn hundredths(n: nat) -> Single {
    Single::integer(n).quotient(Single::integer(100))
}

/// `x / limit`, held within `[0, 1]`.
pub open spec fn share(x: Single, limit: nat) -> Single {
    x.quotient(Single::integer(limit)).unit_clamp()
}

/// The average that amounts are compared to: never below one hundredth.
pub open spec fn comparable_average(avg: Single) -> Single {
    if hundredths(1).less(avg) {
        avg
    } else {
        hundredths(1)
    }
}

/// The minutes in `seconds`, none for a negative number.
pub open spec fn minutes(seconds: int) -> Single {
    Single::integer(
        if seconds > 0 {
            seconds as nat
        } else {
            0
        },
    ).quotient(Single::integer(60))
}

pub open spec fn flag(b: bool) -> Single {
    if b {
        Single::from_bits(ONE)
    } else {
        Single::from_bits(ZERO)
    }
}

/// The components of a vector.
pub open spec fn components(f: Features) -> Seq<Single> {
    seq![
        share(f.amount, 10_000),
        share(Single::integer(f.installments as nat), 12),
        share(f.amount.quotient(comparable_average(f.avg_amount)), 10),
        Single::integer(f.hour as nat).quotient(Single::integer(23)),
        Single::integer(f.weekday as nat).quotient(Single::integer(6)),
        match f.last {
            Some((seconds, _)) => share(minutes(seconds as int), 1_440),
            None => Single::from_bits(MINUS_ONE),
        },
        match f.last {
            Some((_, km)) => share(km, 1_000),
            None => Single::from_bits(MINUS_ONE),
        },
        share(f.km_from_home, 1_000),
        share(Single::integer(f.tx_count_24h as nat), 20),
        flag(f.is_online),
        flag(f.card_present),
        flag(f.unknown_merchant),
        f.risk,
        share(f.merchant_avg_amount, 10_000),
    ]
}

/// The risk of a merchant category in hundredths, looked up by comparing with each code.
pub open spec fn risk_table(is: spec_fn(Seq<char>) -> bool) -> nat {
    if is("5411"@) {
        15
    } else if is("5812"@) {
        30
    } else if is("5912"@) {
        20
    } else if is("5944"@) {
        45
    } else if is("7801"@) {
        80
    } else if is("7802"@) {
        75
    } else if is("7995"@) {
        85
    } else if is("4511"@) {
        35
    } else if is("5311"@) {
        25
    } else {
        50
    }
}

/// The risk of a merchant category.
pub open spec fn risk_of(mcc: Seq<char>) -> Single {
    hundredths(risk_table(|code: Seq<char>| mcc == code))
}

/// The risk of a merchant category whose code is given in bytes.
pub open spec fn risk_of_bytes(mcc: Seq<u8>) -> Single {
    hundredths(risk_table(|code: Seq<char>| mcc == ascii(code)))
}

/// Whether `id` is among the known merchants.
pub open spec fn is_known(known: Seq<String>, id: Seq<char>) -> bool {
    exists|i: int| 0 <= i < known.len() && (#[trigger] known[i])@ == id
}

/// What a request's vector is made of.
pub open spec fn features_of(r: FraudRequest) -> Features {
    let at = r.transaction.requested_at;
    Features {
        amount: r.transaction.amount,
        installments: r.transaction.installments as u64,
        avg_amount: r.customer.avg_amount,
        hour: crate::calendar::hour_of(at.seconds()) as u32,
        weekday: crate::calendar::weekday_of(at.seconds() / 86_400) as u32,
        last: match r.last_transaction {
            Some(last) => Some(
                (
                    crate::payload::seconds_since(
                        at.seconds(),
                        at.nanoseconds(),
                        last.timestamp.seconds(),
                        last.timestamp.nanoseconds(),
                    ) as i64,
                    last.km_from_current,
                ),
            ),
            None => None,
        },
        km_from_home: r.terminal.km_from_home,
        tx_count_24h: r.customer.tx_count_24h as u64,
        is_online: r.terminal.is_online,
        card_present: r.terminal.card_present,
        unknown_merchant: !is_known(r.customer.known_merchants@, r.merchant.id@),
        risk: risk_of(r.merchant.mcc@),
        merchant_avg_amount: r.merchant.avg_amount,
    }
}

/// A component as a byte: 0 for a missing one, else 128 to 255.
pub open spec fn quantized(value: Single) -> nat {
    if value.less(Single::from_bits(ZERO)) {
        0
    } else {
        Single::integer(128).sum(value.unit_clamp().product(Single::integer(127))).rounded()
    }
}

/// A component in ten-thousandths: -10000 for a missing one.
pub open spec fn quantized_i16(value: Single) -> int {
    if value.less(Single::from_bits(ZERO)) {
        -10_000
    } else {
        value.unit_clamp().product(Single::integer(10_000)).rounded() as int
    }
}

fn quotient_by(x: Single, n: u64) -> (r: Single)
    ensures
        r == x.quotient(Single::integer(n as nat)),
{
    x.over(Single::from_integer(n))
}

fn hundredth(n: u64) -> (r: Single)
    ensures
        r == hundredths(n as nat),
{
    quotient_by(Single::from_integer(n), 100)
}

fn flag_value(b: bool) -> (r: Single)
    ensures
        r == flag(b),
{
    if b {
        Single::from_bits(ONE)
    } else {
        Single::from_bits(ZERO)
    }
}

/// `x / limit`, held within `[0, 1]`.
fn share_of(x: Single, limit: u64) -> (r: Single)
    ensures
        r == share(x, limit as nat),
{
    quotient_by(x, limit).clamp01()
}

/// The vector with the given features.
pub fn assemble(f: &Features) -> (v: Vector)
    ensures
        v@ == components(*f),
{
    let cent: Single = hundredth(1);
    let average: Single = if cent.lt(f.avg_amount) {
        f.avg_amount
    } else {
        cent
    };
    let mut v: Vector = [Single::from_bits(ZERO);DIMS];
    v[0] = share_of(f.amount, 10_000);
    v[1] = share_of(Single::from_integer(f.installments), 12);
    v[2] = share_of(f.amount.over(average), 10);
    v[3] = quotient_by(Single::from_integer(f.hour as u64), 23);
    v[4] = quotient_by(Single::from_integer(f.weekday as u64), 6);
    match f.last {
        Some((seconds, km)) => {
            let elapsed: u64 = if seconds > 0 {
                seconds as u64
            } else {
                0
            };
            v[5] = share_of(quotient_by(Single::from_integer(elapsed), 60), 1_440);
            v[6] = share_of(km, 1_000);
        },
        None => {
            v[5] = Single::from_bits(MINUS_ONE);
            v[6] = Single::from_bits(MINUS_ONE);
        },
    }
    v[7] = share_of(f.km_from_home, 1_000);
    v[8] = share_of(Single::from_integer(f.tx_count_24h), 20);
    v[9] = flag_value(f.is_online);
    v[10] = flag_value(f.card_present);
    v[11] = flag_value(f.unknown_merchant);
    v[12] = f.risk;
    v[13] = share_of(f.merchant_avg_amount, 10_000);
    assert(v@ =~= components(*f));
    v
}

/// The risk of a merchant category.
pub fn mcc_risk(mcc: &str) -> (r: Single)
    ensures
        r == risk_of(mcc@),
{
    let n: u64 = if same_text(mcc, "5411") {
        15
    } else if same_text(mcc, "5812") {
        30
    } else if same_text(mcc, "5912") {
        20
    } else if same_text(mcc, "5944") {
        45
    } else if same_text(mcc, "7801") {
        80
    } else if same_text(mcc, "7802") {
        75
    } else if same_text(mcc, "7995") {
        85
    } else if same_text(mcc, "4511") {
        35
    } else if same_text(mcc, "5311") {
        25
    } else {
        50
    };
    hundredth(n)
}

/// The risk of a merchant category whose code is given in bytes.
pub fn mcc_risk_bytes(mcc: &[u8]) -> (r: Single)
    ensures
        r == risk_of_bytes(mcc@),
{
    proof {
        reveal_strlit("5411");
        reveal_strlit("5812");
        reveal_strlit("5912");
        reveal_strlit("5944");
        reveal_strlit("7801");
        reveal_strlit("7802");
        reveal_strlit("7995");
        reveal_strlit("4511");
        reveal_strlit("5311");
    }
    let n: u64 = if mcc.len() != 4 {
        50
    } else if is_text(mcc, "5411") {
        15
    } else if is_text(mcc, "5812") {
        30
    } else if is_text(mcc, "5912") {
        20
    } else if is_text(mcc, "5944") {
        45
    } else if is_text(mcc, "7801") {
        80
    } else if is_text(mcc, "7802") {
        75
    } else if is_text(mcc, "7995") {
        85
    } else if is_text(mcc, "4511") {
        35
    } else if is_text(mcc, "5311") {
        25
    } else {
        50
    };
    hundredth(n)
}

fn contains_text(known: &Vec<String>, id: &str) -> (r: bool)
    ensures
        r == is_known(known@, id@),
{
    let mut i: usize = 0;
    while i < known.len()
        invariant
            i <= known@.len(),
            forall|j: int| 0 <= j < i ==> (#[trigger] known@[j])@ != id@,
        decreases known@.len() - i,
    {
        if same_text(known[i].as_str(), id) {
            assert(known@[i as int]@ == id@);
            return true;
        }
        i = i + 1;
    }
    false
}

/// The vector of a request.
pub fn vectorize(request: &FraudRequest) -> (v: Vector)
    ensures
        v@ == components(features_of(*request)),
{
    let at = &request.transaction.requested_at;
    let f = Features {
        amount: request.transaction.amount,
        installments: request.transaction.installments as u64,
        avg_amount: request.customer.avg_amount,
        hour: at.hour(),
        weekday: at.weekday(),
        last: match &request.last_transaction {
            Some(last) => Some((at.seconds_from(&last.timestamp), last.km_from_current)),
            None => None,
        },
        km_from_home: request.terminal.km_from_home,
        tx_count_24h: request.customer.tx_count_24h as u64,
        is_online: request.terminal.is_online,
        card_present: request.terminal.card_present,
        unknown_merchant: !contains_text(
            &request.customer.known_merchants,
            request.merchant.id.as_str(),
        ),
        risk: mcc_risk(request.merchant.mcc.as_str()),
        merchant_avg_amount: request.merchant.avg_amount,
    };
    assemble(&f)
}

/// A number within `[0, 1]` as 128 and its part of 127 more.
proof fn lemma_scaled(x: Single)
    requires
        0 <= x.rank() <= ONE,
    ensures
        ({
            let r = Single::integer(128).sum(x.product(Single::integer(127)));
            &&& 0 <= r.rank() < 0x4f80_0000
            &&& 128 * pow2(149) <= units(r.magnitude()) <= 255 * pow2(149)
        }),
{
    let p = x.product(Single::integer(127));
    lemma_part_of_integer(x, 127);
    lemma_integer(127);
    lemma_integer(128);
    lemma_integer(255);
    lemma_pow2_pos(149);
    let v = Single::integer(128).value() + p.value();
    assert(v == 128 * pow2(149) + units(p.magnitude()));
    lemma_nearest_at_most(v as nat, 1, Single::integer(255).magnitude());
    lemma_nearest_at_least(v as nat, 1, Single::integer(128).magnitude());
    let r = Single::integer(128).sum(p);
    lemma_units_monotone(r.magnitude(), Single::integer(255).magnitude());
    lemma_units_monotone(Single::integer(128).magnitude(), r.magnitude());
}

/// A component as a byte is 0, or between 128 and 255.
pub proof fn lemma_quantized(value: Single)
    ensures
        quantized(value) == 0 || 128 <= quantized(value) <= 255,
{
    lemma_unit_clamp(value);
    lemma_scaled(value.unit_clamp());
    lemma_rounded_bounds(
        Single::integer(128).sum(value.unit_clamp().product(Single::integer(127))),
        128,
        255,
    );
}

/// A component as a byte: 0 for a missing one, else 128 to 255.
pub fn quantize_dim(value: Single) -> (r: u8)
    ensures
        r == quantized(value),
        r == 0 || r >= 128,
{
    if value.lt(Single::from_bits(ZERO)) {
        0
    } else {
        proof {
            lemma_unit_clamp(value);
            lemma_scaled(value.unit_clamp());
            lemma_rounded_bounds(
                Single::integer(128).sum(value.unit_clamp().product(Single::integer(127))),
                128,
                255,
            );
        }
        let scaled: Single = Single::from_integer(128).plus(
            value.clamp01().times(Single::from_integer(127)),
        );
        scaled.round() as u8
    }
}

/// A component in ten-thousandths lies between minus one and one.
pub proof fn lemma_quantized_i16(value: Single)
    ensures
        quantized_i16(value) == -10_000 || 0 <= quantized_i16(value) <= 10_000,
{
    lemma_unit_clamp(value);
    lemma_integer(10_000);
    lemma_part_of_integer(value.unit_clamp(), 10_000);
    lemma_rounded_bounds(value.unit_clamp().product(Single::integer(10_000)), 0, 10_000);
}

/// A component in ten-thousandths: -10000 for a missing one.
pub fn quantize_i16_dim(value: Single) -> (r: i16)
    ensures
        r == quantized_i16(value),
        r == -10_000 || 0 <= r <= 10_000,
{
    if value.lt(Single::from_bits(ZERO)) {
        -10_000
    } else {
        proof {
            lemma_unit_clamp(value);
            lemma_integer(10_000);
            lemma_part_of_integer(value.unit_clamp(), 10_000);
            lemma_quantized_i16(value);
        }
        value.clamp01().times(Single::from_integer(10_000)).round() as i16
    }
}

/// The components as bytes.
pub fn quantize(vector: &Vector) -> (r: QuantizedVector)
    ensures
        forall|d: int| 0 <= d < DIMS ==> #[trigger] r@[d] == quantized(vector@[d]),
{
    let mut output: QuantizedVector = [0;DIMS];
    let mut d: usize = 0;
    while d < DIMS
        invariant
            d <= DIMS,
            forall|j: int| 0 <= j < d ==> #[trigger] output@[j] == quantized(vector@[j]),
        decreases DIMS - d,
    {
        output[d] = quantize_dim(vector[d]);
        d = d + 1;
    }
    output
}

/// The components in ten-thousandths.
pub fn quantize_i16(vector: &Vector) -> (r: QuantizedI16Vector)
    ensures
        forall|d: int| 0 <= d < DIMS ==> #[trigger] r@[d] == quantized_i16(vector@[d]),
        forall|d: int| 0 <= d < DIMS ==> -10_000 <= #[trigger] r@[d] <= 10_000,
{
    let mut output: QuantizedI16Vector = [0;DIMS];
    let mut d: usize = 0;
    while d < DIMS
        invariant
            d <= DIMS,
            forall|j: int| 0 <= j < d ==> #[trigger] output@[j] == quantized_i16(vector@[j]),
            forall|j: int| 0 <= j < d ==> -10_000 <= #[trigger] output@[j] <= 10_000,
        decreases DIMS - d,
    {
        output[d] = quantize_i16_dim(vector[d]);
        d = d + 1;
    }
    output
}

/// Whether a number lies between zero and one.
pub open spec fn is_unit(x: Single) -> bool {
    !x.is_nan() && 0 <= x.rank() <= ONE
}

/// A fraction of integers is at most one.
pub proof fn lemma_fraction(a: nat, b: nat)
    requires
        a <= b < crate::rounding::SIGNIFICAND_LIMIT,
        b > 0,
    ensures
        is_unit(Single::integer(a).quotient(Single::integer(b))),
{
    lemma_integer(a);
    lemma_integer(b);
    lemma_one();
    lemma_pow2_pos(149);
    let p = pow2(149);
    let n = (a * p) * p;
    let d = b * p;
    assert(n <= d * p) by (nonlinear_arith)
        requires
            n == (a * p) * p,
            d == b * p,
            a <= b,
    ;
    assert(d > 0) by (nonlinear_arith)
        requires
            d == b * p,
            b > 0,
            p > 0,
    ;
    lemma_nearest_at_most(n, d, ONE as nat);
}

/// Every component lies between zero and one, except that the two about the last
/// transaction are minus one where there is none.
pub proof fn law_components_are_normalized(f: Features)
    requires
        f.hour <= 23,
        f.weekday <= 6,
        is_unit(f.risk),
    ensures
        components(f).len() == DIMS,
        forall|d: int|
            0 <= d < DIMS ==> is_unit(#[trigger] components(f)[d]) || (components(f)[d]
                == Single::from_bits(MINUS_ONE) && (d == 5 || d == 6) && f.last is None),
{
    let v = components(f);
    lemma_one();
    lemma_fraction(f.hour as nat, 23);
    lemma_fraction(f.weekday as nat, 6);
    lemma_share(f.amount, 10_000);
    lemma_share(Single::integer(f.installments as nat), 12);
    lemma_share(f.amount.quotient(comparable_average(f.avg_amount)), 10);
    if let Some((seconds, km)) = f.last {
        lemma_share(minutes(seconds as int), 1_440);
        lemma_share(km, 1_000);
    }
    lemma_share(f.km_from_home, 1_000);
    lemma_share(Single::integer(f.tx_count_24h as nat), 20);
    lemma_share(f.merchant_avg_amount, 10_000);
    lemma_each_component(v, f.last is None);
}

proof fn lemma_share(x: Single, limit: nat)
    ensures
        is_unit(share(x, limit)),
{
    lemma_unit_clamp(x.quotient(Single::integer(limit)));
}

proof fn lemma_each_component(v: Seq<Single>, missing: bool)
    requires
        v.len() == DIMS,
        is_unit(v[0]) && is_unit(v[1]) && is_unit(v[2]) && is_unit(v[3]) && is_unit(v[4]),
        if missing {
            v[5] == Single::from_bits(MINUS_ONE) && v[6] == Single::from_bits(MINUS_ONE)
        } else {
            is_unit(v[5]) && is_unit(v[6])
        },
        is_unit(v[7]) && is_unit(v[8]) && is_unit(v[9]) && is_unit(v[10]) && is_unit(v[11]),
        is_unit(v[12]) && is_unit(v[13]),
    ensures
        forall|d: int|
            0 <= d < DIMS ==> is_unit(#[trigger] v[d]) || (v[d] == Single::from_bits(MINUS_ONE) && (d
                == 5 || d == 6) && missing),
{
}

/// The risk of a merchant category lies between zero and one.
pub proof fn lemma_risk_is_unit(is: spec_fn(Seq<char>) -> bool)
    ensures
        is_unit(hundredths(risk_table(is))),
{
    lemma_fraction(risk_table(is), 100);
}

/// The vector of a request is normalized.
pub proof fn law_requests_are_normalized(r: FraudRequest)
    ensures
        forall|d: int|
            0 <= d < DIMS ==> is_unit(#[trigger] components(features_of(r))[d]) || (components(
                features_of(r),
            )[d] == Single::from_bits(MINUS_ONE) && (d == 5 || d == 6)
                && r.last_transaction is None),
{
    let f = features_of(r);
    let code = |code: Seq<char>| r.merchant.mcc@ == code;
    lemma_risk_is_unit(code);
    assert(f.risk == hundredths(risk_table(code)));
    let s = r.transaction.requested_at.seconds();
    assert(0 <= crate::calendar::hour_of(s) <= 23);
    law_components_are_normalized(f);
}

/// A component between zero and one, in ten-thousandths, is off by hardly more than a half.
proof fn lemma_i16_is_close(x: Single)
    requires
        is_unit(x),
    ensures
        ({
            let p = pow2(149);
            let off = quantized_i16(x) * p - 10_000 * units(x.magnitude());
            -501 * p <= 1_000 * off <= 501 * p
        }),
{
    let p = pow2(149);
    let a = units(x.magnitude());
    let n = a * (10_000 * p);
    let y = x.product(Single::integer(10_000));
    lemma_one();
    lemma_unit_clamp(x);
    lemma_integer(10_000);
    lemma_part_of_integer(x, 10_000);
    lemma2_to64();
    lemma_pow2_pos(149);
    lemma_pow2_unfold(150);
    lemma_pow2_adds(11, 138);
    lemma_pow2_unfold(139);
    lemma_pow2_adds(14, 149);
    lemma_units_monotone(x.magnitude(), ONE as nat);
    assert(a <= p);
    assert(n < p * (16_384 * p)) by (nonlinear_arith)
        requires
            n == a * (10_000 * p),
            a <= p,
            p > 0,
    ;
    let s = coarseness(n, p);
    lemma_coarseness_bounds(n, p);
    if s > 139 {
        if s > 140 {
            lemma_pow2_strictly_increases(163, s + 23);
        }
        let w = pow2((s + 23) as nat);
        assert(p * w >= p * (16_384 * p)) by (nonlinear_arith)
            requires
                w >= 16_384 * p,
                p > 0,
        ;
        assert(false);
    }
    if s < 139 {
        lemma_pow2_strictly_increases(s, 139);
    }
    assert(n <= p * (10_000 * p)) by (nonlinear_arith)
        requires
            n == a * (10_000 * p),
            a <= p,
    ;
    lemma_nearest_at_most(n, p, Single::integer(10_000).magnitude());
    lemma_nearest_error(n, p);
    let v = units(y.magnitude());
    assert(y == Single::of(x.is_negative(), nearest(n, p)));
    assert(y.magnitude() == nearest(n, p));
    let step = pow2(139);
    let most = pow2(s);
    assert(-step <= 2 * (v - 10_000 * a) <= step) by (nonlinear_arith)
        requires
            -(p * most) <= 2 * (v * p - n) <= p * most,
            n == a * (10_000 * p),
            most <= step,
            p > 0,
    ;
    let r = y.rounded();
    vstd::arithmetic::div_mod::lemma_fundamental_div_mod((2 * v + p) as int, (2 * p) as int);
    let rest = (2 * v + p) % (2 * p);
    assert(2 * v + p == (2 * p) * r + rest);
    assert((2 * p) * r == 2 * (r * p)) by (nonlinear_arith);
}

/// Components in ten-thousandths: a value between zero and one is off by no more than 0.501,
/// a larger one counts as one, a negative one gives -10000, which nothing else gives, and no
/// number gives zero. Values are in units of 2^-149.
pub proof fn law_ten_thousandths_are_close(x: Single)
    ensures
        is_unit(x) ==> ({
            let p = pow2(149);
            let off = quantized_i16(x) * p - 10_000 * units(x.magnitude());
            0 <= quantized_i16(x) <= 10_000 && -501 * p <= 1_000 * off <= 501 * p
        }),
        !x.is_nan() && x.rank() > ONE ==> quantized_i16(x) == 10_000,
        x.is_nan() ==> quantized_i16(x) == 0,
        !x.is_nan() && x.rank() < 0 <==> quantized_i16(x) == -10_000,
{
    lemma_quantized_i16(x);
    lemma_unit_clamp(x);
    lemma_one();
    lemma_pow2_pos(149);
    lemma_parts(0);
    lemma2_to64();
    let p = pow2(149);
    let zero = Single::from_bits(ZERO);
    let one = Single::from_bits(ONE);
    lemma_quantized_i16(zero);
    lemma_quantized_i16(one);
    lemma_i16_is_close(zero);
    lemma_i16_is_close(one);
    let a = quantized_i16(zero);
    let b = quantized_i16(one);
    assert(a == 0) by (nonlinear_arith)
        requires
            -501 * p <= 1_000 * (a * p) <= 501 * p,
            p > 0,
    ;
    assert(b == 10_000) by (nonlinear_arith)
        requires
            -501 * p <= 1_000 * (b * p - 10_000 * p) <= 501 * p,
            p > 0,
    ;
    if is_unit(x) {
        lemma_i16_is_close(x);
    }
}

/// Quantization keeps the order of components.
pub proof fn law_quantization_keeps_the_order(a: Single, b: Single)
    requires
        !a.is_nan(),
        !b.is_nan(),
        a.rank() <= b.rank(),
    ensures
        quantized(a) <= quantized(b),
        quantized_i16(a) <= quantized_i16(b),
{
    lemma_one();
    let zero = Single::from_bits(ZERO);
    if !a.less(zero) {
        let x = a.unit_clamp();
        let y = b.unit_clamp();
        lemma_unit_clamp(a);
        lemma_unit_clamp(b);
        assert(x.rank() <= y.rank());
        lemma_part_monotone(x, y, 127);
        lemma_part_monotone(x, y, 10_000);
        lemma_rounded_monotone(
            x.product(Single::integer(10_000)),
            y.product(Single::integer(10_000)),
        );
        lemma_scaled(x);
        lemma_scaled(y);
        lemma_scaled_monotone(x, y);
    } else {
        lemma_quantized_i16(b);
    }
}

proof fn lemma_scaled_monotone(x: Single, y: Single)
    requires
        0 <= x.rank() <= ONE,
        0 <= y.rank() <= ONE,
        x.product(Single::integer(127)).magnitude() <= y.product(Single::integer(127)).magnitude(),
    ensures
        Single::integer(128).sum(x.product(Single::integer(127))).rounded() <= Single::integer(
            128,
        ).sum(y.product(Single::integer(127))).rounded(),
{
    let p = x.product(Single::integer(127));
    let q = y.product(Single::integer(127));
    lemma_part_of_integer(x, 127);
    lemma_part_of_integer(y, 127);
    lemma_integer(127);
    lemma_integer(128);
    lemma_integer(255);
    lemma_pow2_pos(149);
    lemma_units_monotone(p.magnitude(), q.magnitude());
    let v = Single::integer(128).value() + p.value();
    let w = Single::integer(128).value() + q.value();
    assert(v == 128 * pow2(149) + units(p.magnitude()));
    assert(w == 128 * pow2(149) + units(q.magnitude()));
    lemma_nearest_monotone(v as nat, w as nat, 1);
    lemma_nearest_at_most(v as nat, 1, Single::integer(255).magnitude());
    lemma_nearest_at_most(w as nat, 1, Single::integer(255).magnitude());
    lemma_rounded_monotone(Single::integer(128).sum(p), Single::integer(128).sum(q));
}

/// A component between zero and one, as a byte, is off by hardly more than a half.
#[verifier::rlimit(40)]
proof fn lemma_byte_is_close(x: Single)
    requires
        is_unit(x),
    ensures
        ({
            let p = pow2(149);
            let off = (quantized(x) - 128) * p - 127 * units(x.magnitude());
            -501 * p <= 1_000 * off <= 501 * p
        }),
{
    let p = pow2(149);
    let a = units(x.magnitude());
    let n = a * (127 * p);
    let y = x.product(Single::integer(127));
    let v = units(y.magnitude());
    lemma_one();
    lemma_unit_clamp(x);
    lemma_integer(127);
    lemma_integer(128);
    lemma_integer(255);
    lemma_part_of_integer(x, 127);
    lemma_scaled(x);
    lemma2_to64();
    lemma_pow2_pos(149);
    lemma_pow2_adds(7, 149);
    lemma_pow2_adds(8, 149);
    lemma_units_monotone(x.magnitude(), ONE as nat);
    assert(a <= p);
    // The product is rounded in steps of 2^132 at most.
    assert(n < p * (128 * p)) by (nonlinear_arith)
        requires
            n == a * (127 * p),
            a <= p,
            p > 0,
    ;
    assert(n <= p * (127 * p)) by (nonlinear_arith)
        requires
            n == a * (127 * p),
            a <= p,
    ;
    lemma_nearest_at_most(n, p, Single::integer(127).magnitude());
    lemma_steps(n, p, 132);
    assert(y.magnitude() == nearest(n, p));
    let step = pow2(132) as int;
    assert(-step <= 2 * (v - 127 * a) <= step) by (nonlinear_arith)
        requires
            -(p * step) <= 2 * (v * p - n) <= p * step,
            n == a * (127 * p),
            p > 0,
    ;
    // The sum is rounded in steps of 2^133 at most.
    let t = (128 * p + v) as nat;
    let r = Single::integer(128).sum(y);
    assert(r == Single::of(false, nearest(t, 1)));
    assert(t < 1 * pow2(157));
    lemma_nearest_at_most(t, 1, Single::integer(255).magnitude());
    lemma_steps(t, 1, 133);
    let w = units(r.magnitude());
    lemma_pow2_adds(17, 132);
    lemma_pow2_adds(1, 132);
    lemma_pow2_unfold(150);
    let k = r.rounded();
    vstd::arithmetic::div_mod::lemma_fundamental_div_mod((2 * w + p) as int, (2 * p) as int);
    let rest = (2 * w + p) % (2 * p);
    assert(2 * w + p == (2 * p) * k + rest);
    assert((2 * p) * k == 2 * (k * p)) by (nonlinear_arith);
    assert((k - 128) * p == k * p - 128 * p) by (nonlinear_arith);
}

/// What lies below `2^(k + 24)` is rounded in steps of `2^k` at most.
pub proof fn lemma_steps(n: nat, d: nat, k: nat)
    requires
        d > 0,
        n < d * pow2(k + 24),
        nearest(n, d) < crate::rounding::INFINITY_BITS,
    ensures
        -(d * pow2(k)) <= 2 * (units(nearest(n, d)) * d - n) <= d * pow2(k),
{
    let s = coarseness(n, d);
    lemma_coarseness_bounds(n, d);
    if s > k {
        if s + 23 > k + 24 {
            lemma_pow2_strictly_increases(k + 24, (s + 23) as nat);
        }
        let w = pow2((s + 23) as nat);
        let x = pow2(k + 24);
        assert(d * w >= d * x) by (nonlinear_arith)
            requires
                w >= x,
        ;
        assert(false);
    }
    if s < k {
        lemma_pow2_strictly_increases(s, k);
    }
    lemma_nearest_error(n, d);
    let a = pow2(s);
    let b = pow2(k);
    assert(d * a <= d * b) by (nonlinear_arith)
        requires
            a <= b,
    ;
}

/// Components as bytes: a value between zero and one is 128 and its part of 127 more, off by
/// no more than 0.501; a larger one counts as one, which gives 255; a negative one gives 0,
/// which nothing else gives, and no number gives 128. Values are in units of 2^-149.
pub proof fn law_bytes_are_close(x: Single)
    ensures
        is_unit(x) ==> ({
            let p = pow2(149);
            let off = (quantized(x) - 128) * p - 127 * units(x.magnitude());
            128 <= quantized(x) <= 255 && -501 * p <= 1_000 * off <= 501 * p
        }),
        !x.is_nan() && x.rank() > ONE ==> quantized(x) == 255,
        x.is_nan() ==> quantized(x) == 128,
        !x.is_nan() && x.rank() < 0 <==> quantized(x) == 0,
{
    lemma_unit_clamp(x);
    lemma_one();
    lemma_pow2_pos(149);
    lemma_parts(0);
    lemma2_to64();
    let p = pow2(149);
    let zero = Single::from_bits(ZERO);
    let one = Single::from_bits(ONE);
    lemma_byte_is_close(zero);
    lemma_byte_is_close(one);
    lemma_bytes(x);
    lemma_bytes(zero);
    lemma_bytes(one);
    let a = quantized(zero) - 128;
    let b = quantized(one) - 128;
    assert(a == 0) by (nonlinear_arith)
        requires
            -501 * p <= 1_000 * (a * p) <= 501 * p,
            p > 0,
    ;
    assert(b == 127) by (nonlinear_arith)
        requires
            -501 * p <= 1_000 * (b * p - 127 * p) <= 501 * p,
            p > 0,
    ;
    if is_unit(x) {
        lemma_byte_is_close(x);
    }
}

proof fn lemma_bytes(x: Single)
    ensures
        (!x.is_nan() && x.rank() < 0) ==> quantized(x) == 0,
        !(!x.is_nan() && x.rank() < 0) ==> 128 <= quantized(x) <= 255,
{
    lemma_unit_clamp(x);
    lemma_one();
    lemma_scaled(x.unit_clamp());
    lemma_rounded_bounds(
        Single::integer(128).sum(x.unit_clamp().product(Single::integer(127))),
        128,
        255,
    );
}

} // verus!
