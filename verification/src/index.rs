//! An index of labelled vectors, held in memory as the bytes of its file.

use vstd::prelude::*;
use vstd::arithmetic::power2::*;

use crate::budget::Budget;
use crate::closeness::lemma_power_pattern;
use crate::clusters::{records_offset, ClusterFile, MAX_IVF_CLUSTERS};
use crate::config::{bool_or, env_bool, env_usize, usize_or};
use crate::exact::{exact_score, questions_for, ExactIndex};
use crate::ivf::{all_questions, ivf_score, IvfIndex, Plan, MAX_IVF_NPROBE};
use crate::layout::{
    field, magic, read_u32, read_u64, DIMS, EXACT_HEADER_LEN, EXACT_RECORD_LEN, EXACT_VERSION,
    IVF_VERSION,
};
use crate::precision::law_patterns_stand_for_numbers;
use crate::recode::{are_offsets, recode};
use crate::rounding::{lemma_nearest_exact, lemma_parts, lemma_units_grow, units, HIDDEN_BIT};
use crate::single::{lemma_integer, lemma_one, Single, ONE, ZERO};
use crate::text::starts_with_at;
use crate::vector::Vector;

pub use crate::layout::{
    write_header, write_ivf_header, IVF_HEADER_LEN, IVF_LABEL_OFFSET, IVF_RECORD_LEN,
};
pub use crate::writer::encode_record;

verus! {

/// What a search finds.
pub enum SearchResult {
    /// The share of fraud among the nearest neighbours.
    Score(Single),
    /// The budget was used up.
    TimedOut,
}

/// Why bytes are no index.
#[derive(Clone, Copy, PartialEq, Eq, Debug)]
pub enum OpenError {
    TooShort,
    InvalidMagic,
    UnsupportedDims(u32),
    UnsupportedVersion(u32),
    InvalidExactLength { got: usize, expected: u128 },
    IvfTooShort,
    UnsupportedClusterCount(u32),
    InvalidIvfLength { got: usize, expected: u128 },
    InvalidClusterOffsets,
}

/// How an index is opened: the texts of the settings, and whether exact search goes four
/// records at a time.
#[derive(Clone, Copy)]
pub struct Settings<'s> {
    pub ivf_nprobe: Option<&'s str>,
    pub ivf_full_nprobe: Option<&'s str>,
    pub ivf_repair: Option<&'s str>,
    pub wide: bool,
}

/// The version of an index file.
pub open spec fn version_of(data: Seq<u8>) -> nat {
    field(data, 8, 4)
}

/// The number of records of an index file.
pub open spec fn count_of(data: Seq<u8>) -> nat {
    field(data, 16, 8)
}

/// The number of clusters of a clustered index file.
pub open spec fn clusters_of(data: Seq<u8>) -> nat {
    field(data, 24, 4)
}

/// What is wrong with the bytes of an exact index.
pub open spec fn exact_error(data: Seq<u8>) -> Option<OpenError> {
    let expected = EXACT_HEADER_LEN + count_of(data) * EXACT_RECORD_LEN;
    if data.len() != expected {
        Some(
            OpenError::InvalidExactLength { got: data.len() as usize, expected: expected as u128 },
        )
    } else {
        None
    }
}

/// What is wrong with the bytes of a clustered index.
pub open spec fn ivf_error(data: Seq<u8>) -> Option<OpenError> {
    let n = clusters_of(data);
    let expected = records_offset(n as int) + count_of(data) * IVF_RECORD_LEN;
    if data.len() < IVF_HEADER_LEN {
        Some(OpenError::IvfTooShort)
    } else if n == 0 || n > MAX_IVF_CLUSTERS {
        Some(OpenError::UnsupportedClusterCount(n as u32))
    } else if data.len() != expected {
        Some(OpenError::InvalidIvfLength { got: data.len() as usize, expected: expected as u128 })
    } else if !are_offsets(data, n as int, count_of(data) as int) {
        Some(OpenError::InvalidClusterOffsets)
    } else {
        None
    }
}

/// What is wrong with the bytes of an index; the first thing, if there are several.
pub open spec fn open_error(data: Seq<u8>) -> Option<OpenError> {
    if data.len() < EXACT_HEADER_LEN {
        Some(OpenError::TooShort)
    } else if data.subrange(0, 8) != magic() {
        Some(OpenError::InvalidMagic)
    } else if field(data, 12, 4) != DIMS {
        Some(OpenError::UnsupportedDims(field(data, 12, 4) as u32))
    } else if version_of(data) == EXACT_VERSION {
        exact_error(data)
    } else if version_of(data) == IVF_VERSION {
        ivf_error(data)
    } else {
        Some(OpenError::UnsupportedVersion(version_of(data) as u32))
    }
}

/// `x`, held between `low` and `high`.
pub open spec fn held(x: int, low: int, high: int) -> int {
    if x < low {
        low
    } else if x > high {
        high
    } else {
        x
    }
}

/// How a clustered index is searched with the given settings: as many probes as are set,
/// but at least one and at most as many as there are clusters, or 64; in the second stage
/// at least as many as in the first.
pub open spec fn search_plan(data: Seq<u8>, settings: Settings) -> Plan {
    let n = clusters_of(data) as int;
    let most = if n < MAX_IVF_NPROBE {
        n
    } else {
        MAX_IVF_NPROBE as int
    };
    let nprobe = held(usize_or(settings.ivf_nprobe, 1) as int, 1, most);
    Plan {
        n,
        count: count_of(data),
        nprobe,
        full_nprobe: held(
            usize_or(settings.ivf_full_nprobe, nprobe as usize) as int,
            nprobe,
            most,
        ),
        repair: bool_or(settings.ivf_repair, false),
    }
}

enum IndexInner<'a> {
    Exact(ExactIndex<'a>),
    Ivf(IvfIndex<'a>),
}

/// An index that can be searched.
pub struct Index<'a> {
    inner: IndexInner<'a>,
    wide: bool,
}

/// `std::hint::black_box`, the identity that the compiler does not see through.
pub assume_specification<T>[ std::hint::black_box::<T> ](dummy: T) -> (r: T)
    ensures
        r == dummy,
;

/// The next state of the generator of warm-up queries.
pub open spec fn next_state(state: u32) -> u32 {
    ((state * 1_664_525 + 1_013_904_223) % 0x1_0000_0000) as u32
}

/// The state after `n` steps.
pub open spec fn state_after(state: u32, n: nat) -> u32
    decreases n,
{
    if n == 0 {
        state
    } else {
        next_state(state_after(state, (n - 1) as nat))
    }
}

/// The warm-up query that begins at a state: the upper 24 bits of the states that follow,
/// as fractions.
pub open spec fn warmup_vector(state: u32) -> Seq<Single> {
    Seq::new(
        DIMS as nat,
        |d: int|
            Single::integer(state_after(state, (d + 1) as nat) as nat / 256).quotient(
                Single::integer(0x100_0000),
            ),
    )
}

/// The sum of the scores of the first `n` warm-up queries.
pub open spec fn warmup_sum(index: Index, n: nat) -> Single
    decreases n,
{
    if n == 0 {
        Single::from_bits(ZERO)
    } else {
        warmup_sum(index, (n - 1) as nat).sum(
            index.score(warmup_vector(state_after(WARMUP_SEED, DIMS as nat * (n - 1) as nat))),
        )
    }
}

/// The first state of the generator of warm-up queries.
pub const WARMUP_SEED: u32 = 0x1234_5678;

/// How many warm-up queries there are.
pub const WARMUP_QUERIES: usize = 512;

proof fn lemma_state_after(state: u32, m: nat, n: nat)
    ensures
        state_after(state_after(state, m), n) == state_after(state, m + n),
    decreases n,
{
    if n > 0 {
        lemma_state_after(state, m, (n - 1) as nat);
    }
}

/// The warm-up query that begins at a state, and the state behind it.
pub fn warmup_query(state: u32) -> (r: (Vector, u32))
    ensures
        r.0@ == warmup_vector(state),
        r.1 == state_after(state, DIMS as nat),
{
    let mut query: Vector = [Single::from_bits(ZERO);DIMS];
    let mut now: u32 = state;
    let mut d: usize = 0;
    while d < DIMS
        invariant
            d <= DIMS,
            now == state_after(state, d as nat),
            forall|i: int| 0 <= i < d ==> #[trigger] query@[i] == warmup_vector(state)[i],
        decreases DIMS - d,
    {
        now = ((now as u64 * 1_664_525 + 1_013_904_223) % 0x1_0000_0000) as u32;
        query[d] = Single::from_integer(now as u64 / 256).over(Single::from_integer(0x100_0000));
        d = d + 1;
    }
    assert(query@ =~= warmup_vector(state));
    (query, now)
}

/// The exclusive or of the first bytes of the first `n` pages.
pub open spec fn page_fold(bytes: Seq<u8>, n: nat) -> u8
    decreases n,
{
    if n == 0 {
        0
    } else {
        page_fold(bytes, (n - 1) as nat) ^ bytes[4096 * (n - 1)]
    }
}

/// Touches every page of the bytes, and the last byte.
pub fn prefault_pages(bytes: &[u8]) -> (r: u8)
    ensures
        r == if bytes@.len() == 0 {
            0
        } else {
            page_fold(bytes@, ((bytes@.len() + 4095) / 4096) as nat) ^ bytes@.last()
        },
{
    let mut acc: u8 = 0;
    let mut offset: usize = 0;
    let ghost mut n: nat = 0;
    let len: usize = bytes.len();
    while offset < len
        invariant
            len == bytes@.len(),
            offset == 4096 * n || (offset == len && n == (len + 4095) / 4096),
            n <= (len + 4095) / 4096,
            acc == page_fold(bytes@, n),
        decreases len - offset,
    {
        acc = acc ^ bytes[offset];
        proof {
            n = n + 1;
        }
        if len - offset > 4096 {
            offset = offset + 4096;
        } else {
            offset = len;
        }
    }
    if len > 0 {
        acc = acc ^ bytes[len - 1];
    }
    acc
}

/// Holds `x` between `low` and `high`.
fn hold(x: usize, low: usize, high: usize) -> (r: usize)
    ensures
        r == held(x as int, low as int, high as int),
{
    if x < low {
        low
    } else if x > high {
        high
    } else {
        x
    }
}

impl<'a> Index<'a> {
    #[verifier::type_invariant]
    spec fn is_valid(self) -> bool {
        match self.inner {
            IndexInner::Exact(index) => index.wf(),
            IndexInner::Ivf(index) => index.wf(),
        }
    }

    /// The bytes of the index.
    pub closed spec fn data(self) -> Seq<u8> {
        match self.inner {
            IndexInner::Exact(index) => index.data@,
            IndexInner::Ivf(index) => index.file.data@,
        }
    }

    /// Whether every record is looked at.
    pub closed spec fn is_exact(self) -> bool {
        self.inner is Exact
    }

    /// Whether exact search goes four records at a time.
    pub closed spec fn is_wide(self) -> bool {
        self.wide
    }

    /// The number of records.
    pub closed spec fn count(self) -> nat {
        match self.inner {
            IndexInner::Exact(index) => index.count as nat,
            IndexInner::Ivf(index) => index.file.count as nat,
        }
    }

    /// How a clustered index is searched.
    pub closed spec fn plan(self) -> Plan {
        match self.inner {
            IndexInner::Ivf(index) => index.plan(),
            IndexInner::Exact(_) => Plan {
                n: 0,
                count: 0,
                nprobe: 0,
                full_nprobe: 0,
                repair: false,
            },
        }
    }

    /// The score of a vector.
    pub open spec fn score(self, vector: Seq<Single>) -> Single {
        if self.is_exact() {
            exact_score(self.data(), self.count(), vector)
        } else {
            ivf_score(self.data(), self.plan(), vector)
        }
    }

    /// How often a search asks its budget if it is never used up.
    pub open spec fn questions(self, vector: Seq<Single>) -> nat {
        if !self.is_exact() {
            all_questions(self.data(), self.plan(), vector)
        } else if self.is_wide() {
            questions_for(self.count() / 4 * 4)
        } else {
            questions_for(self.count())
        }
    }

    /// Takes the bytes of an index file, touches all of them and runs some searches, so
    /// that the first request finds everything in place.
    pub fn open(data: &'a [u8], settings: Settings) -> (r: Result<Index<'a>, OpenError>)
        ensures
            match r {
                Err(e) => open_error(data@) == Some(e),
                Ok(index) => {
                    &&& open_error(data@) is None
                    &&& index.data() == data@
                    &&& index.is_exact() == (version_of(data@) == EXACT_VERSION)
                    &&& index.is_wide() == settings.wide
                    &&& index.count() == count_of(data@)
                    &&& !index.is_exact() ==> index.plan() == search_plan(data@, settings)
                },
            },
    {
        if data.len() < EXACT_HEADER_LEN {
            return Err(OpenError::TooShort);
        }
        proof {
            reveal_strlit("RINHA26\0");
        }
        if !starts_with_at(data, 0, "RINHA26\0") {
            return Err(OpenError::InvalidMagic);
        }
        let version: u32 = read_u32(data, 8);
        let dims: u32 = read_u32(data, 12);
        if dims != DIMS as u32 {
            return Err(OpenError::UnsupportedDims(dims));
        }
        let _touched: u8 = std::hint::black_box(prefault_pages(data));
        let index: Index = if version == EXACT_VERSION {
            match Index::open_exact(data, settings) {
                Ok(index) => index,
                Err(e) => {
                    return Err(e);
                },
            }
        } else if version == IVF_VERSION {
            match Index::open_ivf(data, settings) {
                Ok(index) => index,
                Err(e) => {
                    return Err(e);
                },
            }
        } else {
            return Err(OpenError::UnsupportedVersion(version));
        };
        let _sum: Single = std::hint::black_box(index.warmup());
        Ok(index)
    }

    /// Searches with the warm-up queries and adds up their scores.
    pub fn warmup(&self) -> (r: Single)
        ensures
            r == warmup_sum(*self, WARMUP_QUERIES as nat),
    {
        let mut state: u32 = WARMUP_SEED;
        let mut sink: Single = Single::from_bits(ZERO);
        let mut i: usize = 0;
        while i < WARMUP_QUERIES
            invariant
                i <= WARMUP_QUERIES,
                state == state_after(WARMUP_SEED, (DIMS * i) as nat),
                sink == warmup_sum(*self, i as nat),
            decreases WARMUP_QUERIES - i,
        {
            let (query, next) = warmup_query(state);
            proof {
                lemma_state_after(WARMUP_SEED, (DIMS * i) as nat, DIMS as nat);
            }
            match self.fraud_score(&query, None) {
                SearchResult::Score(score) => {
                    sink = sink.plus(score);
                },
                SearchResult::TimedOut => {},
            }
            state = next;
            i = i + 1;
        }
        sink
    }

    fn open_exact(data: &'a [u8], settings: Settings) -> (r: Result<Index<'a>, OpenError>)
        requires
            data@.len() >= EXACT_HEADER_LEN,
        ensures
            match r {
                Err(e) => exact_error(data@) == Some(e),
                Ok(index) => {
                    &&& exact_error(data@) is None
                    &&& index.data() == data@
                    &&& index.is_exact()
                    &&& index.is_wide() == settings.wide
                    &&& index.count() == count_of(data@)
                },
            },
    {
        let count: u64 = read_u64(data, 16);
        let expected: u128 = EXACT_HEADER_LEN as u128 + count as u128 * EXACT_RECORD_LEN as u128;
        if data.len() as u128 != expected {
            return Err(OpenError::InvalidExactLength { got: data.len(), expected });
        }
        Ok(
            Index {
                inner: IndexInner::Exact(ExactIndex { data, count: count as usize }),
                wide: settings.wide,
            },
        )
    }

    fn open_ivf(data: &'a [u8], settings: Settings) -> (r: Result<Index<'a>, OpenError>)
        requires
            data@.len() >= EXACT_HEADER_LEN,
        ensures
            match r {
                Err(e) => ivf_error(data@) == Some(e),
                Ok(index) => {
                    &&& ivf_error(data@) is None
                    &&& index.data() == data@
                    &&& !index.is_exact()
                    &&& index.is_wide() == settings.wide
                    &&& index.count() == count_of(data@)
                    &&& index.plan() == search_plan(data@, settings)
                },
            },
    {
        if data.len() < IVF_HEADER_LEN {
            return Err(OpenError::IvfTooShort);
        }
        let count: u64 = read_u64(data, 16);
        let clusters: u32 = read_u32(data, 24);
        if clusters == 0 || clusters > MAX_IVF_CLUSTERS as u32 {
            return Err(OpenError::UnsupportedClusterCount(clusters));
        }
        let expected: u128 = 40 + 120 * clusters as u128 + count as u128 * IVF_RECORD_LEN as u128;
        if data.len() as u128 != expected {
            return Err(OpenError::InvalidIvfLength { got: data.len(), expected });
        }
        let cluster_count: usize = clusters as usize;
        let most: usize = if cluster_count < MAX_IVF_NPROBE {
            cluster_count
        } else {
            MAX_IVF_NPROBE
        };
        let nprobe: usize = hold(env_usize(settings.ivf_nprobe, 1), 1, most);
        let full_nprobe: usize = hold(env_usize(settings.ivf_full_nprobe, nprobe), nprobe, most);
        let repair: bool = env_bool(settings.ivf_repair, false);
        let file = ClusterFile { data, count: count as usize, cluster_count };
        let blocks = match recode(&file) {
            Some(blocks) => blocks,
            None => {
                return Err(OpenError::InvalidClusterOffsets);
            },
        };
        Ok(
            Index {
                inner: IndexInner::Ivf(IvfIndex { file, blocks, nprobe, full_nprobe, repair }),
                wide: settings.wide,
            },
        )
    }

    /// The number of records.
    pub fn len(&self) -> (r: usize)
        ensures
            r == self.count(),
    {
        match &self.inner {
            IndexInner::Exact(index) => index.count,
            IndexInner::Ivf(index) => index.file.count,
        }
    }

    /// Whether there are no records.
    pub fn is_empty(&self) -> (r: bool)
        ensures
            r == (self.count() == 0),
    {
        self.len() == 0
    }

    /// Searches the nearest neighbours of a vector, within a budget.
    pub fn search(&self, vector: &Vector, budget: &mut Budget) -> (r: SearchResult)
        requires
            old(budget).is_fresh(),
        ensures
            final(budget).continues(*old(budget)),
            final(budget).used_up() ==> r == SearchResult::TimedOut && 0 < final(budget).asked()
                <= self.questions(vector@),
            !final(budget).used_up() ==> r == SearchResult::Score(self.score(vector@))
                && final(budget).asked() == self.questions(vector@),
    {
        proof {
            use_type_invariant(self);
        }
        match &self.inner {
            IndexInner::Exact(index) => if self.wide {
                index.fraud_score_avx2(vector, budget)
            } else {
                index.fraud_score_one_at_a_time(vector, budget)
            },
            IndexInner::Ivf(index) => index.fraud_score(vector, budget),
        }
    }

    /// Searches the nearest neighbours of a vector, for at most `deadline` nanoseconds.
    /// Without a deadline there is always a score; with one it may be that the search does
    /// not get to its end, unless it never asks how long it has taken: the clock then showed
    /// more than the deadline at its last question.
    pub fn fraud_score(&self, vector: &Vector, deadline: Option<u128>) -> (r: SearchResult)
        ensures
            is_found_within(*self, vector@, deadline, r),
            r == SearchResult::Score(self.score(vector@)) || (deadline is Some && self.questions(
                vector@,
            ) > 0 && r == SearchResult::TimedOut),
    {
        let mut budget = Budget::within(deadline);
        let r = self.search(vector, &mut budget);
        assert(budget.used_up() ==> r == SearchResult::TimedOut);
        r
    }
}

/// Whether a search ends so within a deadline: its budget has it as its limit and is asked as
/// often as the search asks, and the search comes to nothing only if the clock showed more than
/// the deadline at the last question.
pub open spec fn is_found_within(
    index: Index,
    vector: Seq<Single>,
    deadline: Option<u128>,
    r: SearchResult,
) -> bool {
    exists|budget: Budget|
        {
            &&& budget.time_limit() == deadline
            &&& budget.is_consistent()
            &&& budget.is_unlimited() == deadline is None
            &&& budget.allowance() is None
            &&& if #[trigger] budget.used_up() {
                &&& r == SearchResult::TimedOut
                &&& deadline matches Some(nanos) && budget.elapsed() > nanos
                &&& 0 < budget.asked() <= index.questions(vector)
            } else {
                &&& r == SearchResult::Score(index.score(vector))
                &&& budget.asked() == index.questions(vector)
            }
        }
}

/// A deadline counts to the nanosecond: a search comes to nothing only if at its last question
/// one nanosecond more had passed at least, and if no more had passed than the deadline, it has
/// gone on to its end. Without a deadline it always does.
pub proof fn law_deadline_counts_to_the_nanosecond(
    index: Index,
    vector: Seq<Single>,
    deadline: u128,
    r: SearchResult,
)
    ensures
        is_found_within(index, vector, Some(deadline), r) ==> exists|budget: Budget|
            {
                let over = budget.asked() >= 1 && budget.elapsed() >= deadline + 1;
                &&& #[trigger] budget.time_limit() == Some(deadline)
                &&& budget.asked() <= index.questions(vector)
                &&& over ==> r == SearchResult::TimedOut
                &&& !over ==> r == SearchResult::Score(index.score(vector)) && budget.asked()
                    == index.questions(vector)
            },
        is_found_within(index, vector, None, r) ==> r == SearchResult::Score(index.score(vector)),
{
    if is_found_within(index, vector, Some(deadline), r) {
        let budget = choose|budget: Budget|
            {
                &&& budget.time_limit() == Some(deadline)
                &&& budget.is_consistent()
                &&& !budget.is_unlimited()
                &&& budget.allowance() is None
                &&& if #[trigger] budget.used_up() {
                    &&& r == SearchResult::TimedOut
                    &&& budget.elapsed() > deadline
                    &&& 0 < budget.asked() <= index.questions(vector)
                } else {
                    &&& r == SearchResult::Score(index.score(vector))
                    &&& budget.asked() == index.questions(vector)
                }
            };
        assert(budget.time_limit() == Some(deadline));
    }
}

/// Whether bytes begin as every index file does.
pub open spec fn begins_as_index(data: Seq<u8>) -> bool {
    &&& data.len() >= 24
    &&& data[0] == 'R' as u8 && data[1] == 'I' as u8 && data[2] == 'N' as u8 && data[3] == 'H' as u8
    &&& data[4] == 'A' as u8 && data[5] == '2' as u8 && data[6] == '6' as u8 && data[7] == 0
}

pub proof fn lemma_magic(data: Seq<u8>)
    requires
        data.len() >= 24,
    ensures
        begins_as_index(data) == (data.subrange(0, 8) == magic()),
{
    reveal_strlit("RINHA26\0");
    let m = magic();
    let b = data.subrange(0, 8);
    if begins_as_index(data) {
        assert(b =~= m);
    }
    if b == m {
        assert(b[0] == m[0] && b[1] == m[1] && b[2] == m[2] && b[3] == m[3] && b[4] == m[4] && b[5]
            == m[5] && b[6] == m[6] && b[7] == m[7]);
    }
}

/// An exact index opens exactly if it is one: its eight first bytes, version 2, fourteen
/// components, and as many records of 16 bytes as it says behind a header of 24. Whatever
/// else is wrong with a file is said, the first thing first.
pub proof fn law_exact_files_open(data: Seq<u8>)
    ensures
        ({
            let version = field(data, 8, 4);
            let dims = field(data, 12, 4);
            let count = field(data, 16, 8);
            &&& data.len() < 24 ==> open_error(data) == Some(OpenError::TooShort)
            &&& data.len() >= 24 && !begins_as_index(data) ==> open_error(data) == Some(
                OpenError::InvalidMagic,
            )
            &&& begins_as_index(data) && dims != 14 ==> open_error(data) == Some(
                OpenError::UnsupportedDims(dims as u32),
            )
            &&& begins_as_index(data) && dims == 14 && version != 2 && version != 3 ==> open_error(
                data,
            ) == Some(OpenError::UnsupportedVersion(version as u32))
            &&& begins_as_index(data) && dims == 14 && version == 2 ==> (if data.len() == 24 + 16
                * count {
                open_error(data) is None
            } else {
                open_error(data) == Some(
                    OpenError::InvalidExactLength {
                        got: data.len() as usize,
                        expected: (24 + 16 * count) as u128,
                    },
                )
            })
        }),
{
    if data.len() >= 24 {
        lemma_magic(data);
    }
}

/// The probes are as many as are set, one where nothing is set, but never more than there are
/// clusters, nor than 64; in the second stage as many as are set, those of the first where
/// nothing is set, but never fewer than in the first. Clusters are repaired if that is set.
pub proof fn law_probes_are_as_many_as_are_set(data: Seq<u8>, settings: Settings)
    requires
        1 <= field(data, 24, 4),
    ensures
        ({
            let n = field(data, 24, 4) as int;
            let plan = search_plan(data, settings);
            let first = usize_or(settings.ivf_nprobe, 1) as int;
            let full = usize_or(settings.ivf_full_nprobe, plan.nprobe as usize) as int;
            &&& plan.n == n
            &&& plan.count == field(data, 16, 8)
            &&& 1 <= plan.nprobe <= plan.full_nprobe <= n
            &&& plan.full_nprobe <= 64
            &&& 1 <= first <= n && first <= 64 ==> plan.nprobe == first
            &&& first == 0 ==> plan.nprobe == 1
            &&& first > n || first > 64 ==> plan.nprobe == n || plan.nprobe == 64
            &&& plan.nprobe <= full <= n && full <= 64 ==> plan.full_nprobe == full
            &&& full <= plan.nprobe ==> plan.full_nprobe == plan.nprobe
            &&& full > n || full > 64 ==> plan.full_nprobe == n || plan.full_nprobe == 64
            &&& plan.repair == bool_or(settings.ivf_repair, false)
        }),
{
}

/// A linear congruential generator makes the warm-up queries, 512 of them. A component is the
/// next state, but for its lowest byte, as a part of 2^32: at least zero and less than one.
pub proof fn law_warmup_queries_are_generated(state: u32, n: nat, d: int)
    requires
        0 <= d < DIMS,
    ensures
        state_after(state, 0) == state,
        state_after(state, n + 1) == (state_after(state, n) * 1_664_525 + 1_013_904_223)
            % 0x1_0000_0000,
        warmup_vector(state).len() == 14,
        warmup_vector(state)[d].value() * 0x1_0000_0000 == (state_after(state, (d + 1) as nat)
            - state_after(state, (d + 1) as nat) % 256) * pow2(149),
        WARMUP_SEED == 0x1234_5678,
        WARMUP_QUERIES == 512,
{
    let now = state_after(state, (d + 1) as nat);
    let k = now as nat / 256;
    let x = warmup_vector(state)[d];
    lemma_fraction_of_24_bits(k);
    assert(x.value() * 0x1_0000_0000 == (k * 256) * pow2(149)) by (nonlinear_arith)
        requires
            x.value() * 0x100_0000 == k * pow2(149),
    ;
}

/// A pattern `n` exponents above another stands for 2^n times as much.
proof fn lemma_exponents_above(m: nat, n: nat)
    requires
        m >= HIDDEN_BIT,
    ensures
        units(m + n * HIDDEN_BIT as nat) == pow2(n) * units(m),
    decreases n,
{
    let zero = Single::from_bits(ZERO);
    let u = units(m);
    lemma2_to64();
    if n == 0 {
        assert(pow2(n) * u == u) by (nonlinear_arith)
            requires
                pow2(n) == 1,
        ;
    } else {
        let l = (n - 1) as nat;
        let q = pow2(l);
        lemma_exponents_above(m, l);
        law_patterns_stand_for_numbers(m + l * HIDDEN_BIT as nat, zero, zero);
        lemma_pow2_unfold(n);
        assert(m + l * HIDDEN_BIT as nat + HIDDEN_BIT as nat == m + n * HIDDEN_BIT as nat);
        assert(2 * (q * u) == (2 * q) * u) by (nonlinear_arith);
    }
}

/// An integer of 24 bits is divided by 2^24 without rounding.
proof fn lemma_fraction_of_24_bits(k: nat)
    requires
        k < 0x100_0000,
    ensures
        Single::integer(k).quotient(Single::integer(0x100_0000)).value() * 0x100_0000 == k
            * pow2(149),
{
    let p = pow2(149);
    let whole = Single::integer(0x100_0000);
    let m = Single::integer(k).magnitude();
    lemma2_to64();
    lemma_pow2_pos(149);
    lemma_integer(k);
    lemma_one();
    lemma_power_pattern(0x4b80_0000, 150);
    lemma_pow2_adds(23, 150);
    lemma_pow2_adds(24, 149);
    lemma_nearest_exact(0x100_0000 * p, 1, 0x4b80_0000);
    assert(whole.bits == 0x4b80_0000);
    let d = units(whole.magnitude());
    assert(d == 0x100_0000 * p);
    if k > 0 {
        assert(k * p >= p) by (nonlinear_arith)
            requires
                k > 0,
        ;
        if m < ONE {
            lemma_units_grow(m, ONE as nat);
        }
        let q = (m - 24 * HIDDEN_BIT) as nat;
        lemma_exponents_above(q, 24);
        let n = (k * p) * p;
        let u = units(q);
        assert(n == d * u) by (nonlinear_arith)
            requires
                n == (k * p) * p,
                k * p == 0x100_0000 * u,
                d == 0x100_0000 * p,
        ;
        assert(d > 0);
        lemma_nearest_exact(n, d, q);
        assert(Single::integer(k).quotient(whole).magnitude() == q);
    } else {
        assert(k * p == 0) by (nonlinear_arith)
            requires
                k == 0,
        ;
        lemma_parts(0);
        assert(units(0) == 0);
        if m > 0 {
            lemma_units_grow(0, m);
        }
        assert(Single::integer(k).quotient(whole).magnitude() == 0);
    }
}

/// With another first byte of a page, the pages fold to another byte: to the first result, the
/// byte that was and the byte that is. So every page is touched.
pub proof fn law_every_page_is_touched(bytes: Seq<u8>, n: nat, page: nat, b: u8)
    requires
        page < n,
        4096 * (n - 1) < bytes.len(),
    ensures
        page_fold(bytes.update(4096 * page as int, b), n) == page_fold(bytes, n) ^ bytes[4096
            * page as int] ^ b,
        b != bytes[4096 * page as int] ==> page_fold(bytes.update(4096 * page as int, b), n)
            != page_fold(bytes, n),
    decreases n,
{
    let other = bytes.update(4096 * page as int, b);
    let m = (n - 1) as nat;
    let x = page_fold(bytes, m);
    let was = bytes[4096 * page as int];
    let last = bytes[4096 * (n - 1)];
    if page == m {
        lemma_untouched(bytes, m, page, b);
        assert(x ^ b == (x ^ was) ^ was ^ b) by (bit_vector);
    } else {
        law_every_page_is_touched(bytes, m, page, b);
        assert((x ^ was ^ b) ^ last == (x ^ last) ^ was ^ b) by (bit_vector);
    }
    let f = page_fold(bytes, n);
    assert(b != was ==> (f ^ was ^ b) != f) by (bit_vector);
}

proof fn lemma_untouched(bytes: Seq<u8>, n: nat, page: nat, b: u8)
    requires
        n <= page,
        4096 * page < bytes.len(),
    ensures
        page_fold(bytes.update(4096 * page as int, b), n) == page_fold(bytes, n),
    decreases n,
{
    if n > 0 {
        lemma_untouched(bytes, (n - 1) as nat, page, b);
    }
}

} // verus!
