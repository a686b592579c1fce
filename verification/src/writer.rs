//! Writing an exact index, record by record.
//!
//! The number of records is known only at the end, so the file begins with the header of an
//! empty index, which is written over when all records have been.

use vstd::prelude::*;

use crate::distance::{byte_distance, square};
use crate::exact::{
    exact_candidates, exact_query, exact_record, exact_score, lemma_byte_distance_bound,
    padded_quantize,
};
use crate::index::{clusters_of, count_of, open_error, version_of};
use crate::layout::{
    exact_header, field, ivf_header, lemma_field_of_little_endian, lemma_little_endian_len,
    little_endian, magic, write_header, DIMS, EXACT_HEADER_LEN, EXACT_LABEL_OFFSET,
    EXACT_RECORD_LEN, EXACT_VERSION, IVF_HEADER_LEN, IVF_VERSION,
};
use crate::neighbours::{
    all_candidates, are_the_nearest, at_most, is_fraud_share, law_distance_counts_every_component,
    lemma_no_share, lemma_vote, sum_of_squares,
};
use crate::single::Single;
use crate::text::same_text;
use crate::topk::{labels_of, selected, vacant, vote};
use crate::vector::{lemma_quantized, quantized, Vector};

verus! {

/// A label that is neither `fraud` nor `legit`.
#[derive(Clone, Copy, PartialEq, Eq, Debug)]
pub struct UnknownLabel;

/// The byte that stands for a label.
pub open spec fn label_code(label: Seq<char>) -> Option<u8> {
    if label == "fraud"@ {
        Some(1u8)
    } else if label == "legit"@ {
        Some(0u8)
    } else {
        None
    }
}

/// The record of a vector: its components as bytes, its label, and a zero.
pub open spec fn encoded(vector: Seq<Single>, code: u8) -> Seq<u8> {
    exact_query(vector).update(EXACT_LABEL_OFFSET as int, code)
}

/// The record of a labelled vector.
pub fn encode_record(vector: &Vector, label: &str) -> (r: Result<
    [u8; EXACT_RECORD_LEN],
    UnknownLabel,
>)
    ensures
        match r {
            Ok(record) => label_code(label@) matches Some(code) && record@ == encoded(
                vector@,
                code,
            ),
            Err(_) => label_code(label@) is None,
        },
{
    let mut record: [u8; EXACT_RECORD_LEN] = padded_quantize(vector);
    proof {
        reveal_strlit("fraud");
        reveal_strlit("legit");
    }
    record[EXACT_LABEL_OFFSET] = if same_text(label, "fraud") {
        1
    } else if same_text(label, "legit") {
        0
    } else {
        return Err(UnknownLabel);
    };
    Ok(record)
}

/// The number of records written so far.
pub struct IndexWriter {
    pub count: u64,
}

impl IndexWriter {
    /// Begins a file: with these bytes.
    pub fn start() -> (r: (IndexWriter, Vec<u8>))
        ensures
            r.0.count == 0,
            r.1@ == exact_header(0),
    {
        let mut header: Vec<u8> = Vec::new();
        write_header(&mut header, 0);
        assert(header@ =~= exact_header(0));
        (IndexWriter { count: 0 }, header)
    }

    /// Adds a record: these bytes come next.
    pub fn add_record(&mut self, vector: &Vector, label: &str) -> (r: Result<
        [u8; EXACT_RECORD_LEN],
        UnknownLabel,
    >)
        requires
            old(self).count < u64::MAX,
        ensures
            match r {
                Ok(record) => {
                    &&& label_code(label@) matches Some(code) && record@ == encoded(vector@, code)
                    &&& final(self).count == old(self).count + 1
                },
                Err(_) => label_code(label@) is None && final(self).count == old(self).count,
            },
    {
        let record = match encode_record(vector, label) {
            Ok(record) => record,
            Err(e) => {
                return Err(e);
            },
        };
        self.count = self.count + 1;
        Ok(record)
    }

    /// Ends the file: these bytes are written over its beginning.
    pub fn finish(&self) -> (r: Vec<u8>)
        ensures
            r@ == exact_header(self.count),
    {
        let mut header: Vec<u8> = Vec::new();
        write_header(&mut header, self.count);
        assert(header@ =~= exact_header(self.count));
        header
    }
}

/// Records one after the other.
pub open spec fn joined(records: Seq<Seq<u8>>) -> Seq<u8>
    decreases records.len(),
{
    if records.len() == 0 {
        Seq::empty()
    } else {
        joined(records.drop_last()) + records.last()
    }
}

proof fn lemma_joined(records: Seq<Seq<u8>>)
    requires
        forall|i: int| 0 <= i < records.len() ==> (#[trigger] records[i]).len() == EXACT_RECORD_LEN,
    ensures
        joined(records).len() == EXACT_RECORD_LEN * records.len(),
        forall|i: int|
            0 <= i < records.len() ==> joined(records).subrange(
                EXACT_RECORD_LEN * i,
                EXACT_RECORD_LEN * i + EXACT_RECORD_LEN,
            ) == #[trigger] records[i],
    decreases records.len(),
{
    if records.len() > 0 {
        let head = records.drop_last();
        lemma_joined(head);
        let all = joined(records);
        assert forall|i: int| 0 <= i < records.len() implies all.subrange(
            EXACT_RECORD_LEN * i,
            EXACT_RECORD_LEN * i + EXACT_RECORD_LEN,
        ) == #[trigger] records[i] by {
            let from = EXACT_RECORD_LEN * i;
            if i < head.len() {
                assert(head[i] == records[i]);
                assert(all.subrange(from, from + EXACT_RECORD_LEN) =~= joined(head).subrange(
                    from,
                    from + EXACT_RECORD_LEN,
                ));
            } else {
                assert(all.subrange(from, from + EXACT_RECORD_LEN) =~= records[i]);
            }
        }
    }
}

proof fn lemma_header_fields(data: Seq<u8>, count: u64)
    requires
        data.len() >= EXACT_HEADER_LEN,
        data.subrange(0, EXACT_HEADER_LEN as int) == exact_header(count),
    ensures
        data.subrange(0, 8) == magic(),
        version_of(data) == EXACT_VERSION,
        field(data, 12, 4) == DIMS,
        count_of(data) == count,
{
    let header = exact_header(count);
    reveal_strlit("RINHA26\0");
    assert(magic().len() == 8);
    lemma_little_endian_len(EXACT_VERSION as nat, 4);
    lemma_little_endian_len(DIMS as nat, 4);
    lemma_little_endian_len(count as nat, 8);
    assert(data.subrange(0, 8) =~= header.subrange(0, 8));
    assert(header.subrange(0, 8) =~= magic());
    assert(data.subrange(8, 12) =~= header.subrange(8, 12));
    assert(header.subrange(8, 12) =~= little_endian(EXACT_VERSION as nat, 4));
    assert(data.subrange(12, 16) =~= header.subrange(12, 16));
    assert(header.subrange(12, 16) =~= little_endian(DIMS as nat, 4));
    assert(data.subrange(16, 24) =~= header.subrange(16, 24));
    assert(header.subrange(16, 24) =~= little_endian(count as nat, 8));
    reveal_with_fuel(crate::layout::field_limit, 9);
    lemma_field_of_little_endian(data, 8, EXACT_VERSION as nat, 4);
    lemma_field_of_little_endian(data, 12, DIMS as nat, 4);
    lemma_field_of_little_endian(data, 16, count as nat, 8);
}

/// `s` with its beginning written over.
pub open spec fn written_over(s: Seq<u8>, beginning: Seq<u8>) -> Seq<u8> {
    beginning + s.subrange(beginning.len() as int, s.len() as int)
}

/// What is written can be opened: a file that begins with the header of an empty index, goes
/// on with records, and has its beginning written over with the header that counts them, is
/// an exact index of as many records, and they are read back as they were written.
pub proof fn law_written_index_opens(records: Seq<Seq<u8>>)
    requires
        records.len() <= u64::MAX,
        forall|i: int| 0 <= i < records.len() ==> (#[trigger] records[i]).len() == EXACT_RECORD_LEN,
    ensures
        ({
            let data = written_over(
                exact_header(0) + joined(records),
                exact_header(records.len() as u64),
            );
            &&& open_error(data) is None
            &&& version_of(data) == EXACT_VERSION
            &&& count_of(data) == records.len()
            &&& forall|i: int|
                0 <= i < records.len() ==> exact_record(data, i) == #[trigger] records[i]
        }),
{
    let count = records.len() as u64;
    let header = exact_header(count);
    let data = written_over(exact_header(0) + joined(records), header);
    lemma_joined(records);
    lemma_little_endian_len(0, 8);
    reveal_strlit("RINHA26\0");
    lemma_little_endian_len(EXACT_VERSION as nat, 4);
    lemma_little_endian_len(DIMS as nat, 4);
    lemma_little_endian_len(count as nat, 8);
    assert(header.len() == EXACT_HEADER_LEN);
    assert(data =~= header + joined(records));
    assert(data.subrange(0, EXACT_HEADER_LEN as int) =~= header);
    lemma_header_fields(data, count);
    assert forall|i: int| 0 <= i < records.len() implies exact_record(data, i)
        == #[trigger] records[i] by {
        let from = EXACT_RECORD_LEN * i;
        assert(exact_record(data, i) =~= joined(records).subrange(from, from + EXACT_RECORD_LEN));
    }
}

/// A record lies at the vector it was made of: exact search puts them at no distance.
pub proof fn law_record_lies_at_its_vector(vector: Seq<Single>, code: u8)
    ensures
        byte_distance(exact_query(vector), encoded(vector, code), DIMS as nat) == 0,
        encoded(vector, code).len() == EXACT_RECORD_LEN,
        encoded(vector, code)[EXACT_LABEL_OFFSET as int] == code,
        encoded(vector, code)[15] == 0,
        forall|d: int| 0 <= d < 14 ==> #[trigger] encoded(vector, code)[d] == quantized(vector[d]),
{
    assert forall|d: int| 0 <= d < 14 implies #[trigger] encoded(vector, code)[d] == quantized(
        vector[d],
    ) by {
        lemma_quantized(vector[d]);
    }
    lemma_no_distance(exact_query(vector), encoded(vector, code), DIMS as nat);
}

proof fn lemma_no_distance(a: Seq<u8>, b: Seq<u8>, n: nat)
    requires
        forall|i: int| 0 <= i < n ==> a[i] == b[i],
    ensures
        byte_distance(a, b, n) == 0,
    decreases n,
{
    if n > 0 {
        lemma_no_distance(a, b, (n - 1) as nat);
        assert(square(0) == 0);
    }
}

/// The header of a clustered index says what it was written with.
pub proof fn law_ivf_header_reads_back(data: Seq<u8>, count: u64, cluster_count: u32)
    requires
        data.len() >= IVF_HEADER_LEN,
        data.subrange(0, IVF_HEADER_LEN as int) == ivf_header(count, cluster_count),
    ensures
        data.subrange(0, 8) == magic(),
        version_of(data) == IVF_VERSION,
        field(data, 12, 4) == DIMS,
        count_of(data) == count,
        clusters_of(data) == cluster_count,
{
    let header = ivf_header(count, cluster_count);
    reveal_strlit("RINHA26\0");
    assert(magic().len() == 8);
    lemma_little_endian_len(IVF_VERSION as nat, 4);
    lemma_little_endian_len(DIMS as nat, 4);
    lemma_little_endian_len(count as nat, 8);
    lemma_little_endian_len(cluster_count as nat, 4);
    lemma_little_endian_len(0, 4);
    assert(data.subrange(0, 8) =~= header.subrange(0, 8));
    assert(header.subrange(0, 8) =~= magic());
    assert(data.subrange(8, 12) =~= header.subrange(8, 12));
    assert(header.subrange(8, 12) =~= little_endian(IVF_VERSION as nat, 4));
    assert(data.subrange(12, 16) =~= header.subrange(12, 16));
    assert(header.subrange(12, 16) =~= little_endian(DIMS as nat, 4));
    assert(data.subrange(16, 24) =~= header.subrange(16, 24));
    assert(header.subrange(16, 24) =~= little_endian(count as nat, 8));
    assert(data.subrange(24, 28) =~= header.subrange(24, 28));
    assert(header.subrange(24, 28) =~= little_endian(cluster_count as nat, 4));
    reveal_with_fuel(crate::layout::field_limit, 9);
    lemma_field_of_little_endian(data, 8, IVF_VERSION as nat, 4);
    lemma_field_of_little_endian(data, 12, DIMS as nat, 4);
    lemma_field_of_little_endian(data, 16, count as nat, 8);
    lemma_field_of_little_endian(data, 24, cluster_count as nat, 4);
}

/// Whether records are those of labelled vectors.
pub open spec fn are_records_of(
    records: Seq<Seq<u8>>,
    vectors: Seq<Seq<Single>>,
    labels: Seq<Seq<char>>,
) -> bool {
    &&& records.len() == vectors.len() == labels.len()
    &&& forall|i: int|
        0 <= i < records.len() ==> {
            &&& (#[trigger] vectors[i]).len() == 14
            &&& label_code(labels[i]) matches Some(code) && records[i] == encoded(vectors[i], code)
        }
}

/// What was written is what is searched: the score of an exact index that was written from
/// vectors labelled `fraud` or `legit` is the share of those labelled `fraud` among the five
/// that are nearest to the query, by the sum of the squared differences of all fourteen
/// components as bytes, of those at one distance the ones that were written first. There are
/// no other labels.
pub proof fn law_written_vectors_are_searched(
    records: Seq<Seq<u8>>,
    vectors: Seq<Seq<Single>>,
    labels: Seq<Seq<char>>,
    query: Seq<Single>,
)
    requires
        records.len() <= u64::MAX,
        are_records_of(records, vectors, labels),
        query.len() == 14,
    ensures
        ({
            let data = written_over(
                exact_header(0) + joined(records),
                exact_header(records.len() as u64),
            );
            exists|five: Seq<int>|
                #![trigger five.len()]
                are_the_nearest(
                    five,
                    vectors.len() as int,
                    5,
                    |i: int|
                        sum_of_squares(|d: int| quantized(query[d]) - quantized(vectors[i][d])),
                ) && is_fraud_share(
                    exact_score(data, count_of(data), query),
                    five,
                    |i: int|
                        if labels[i] == "fraud"@ {
                            1u8
                        } else {
                            0u8
                        },
                )
        }),
        forall|i: int|
            0 <= i < labels.len() ==> #[trigger] labels[i] == "fraud"@ || labels[i] == "legit"@,
{
    let data = written_over(exact_header(0) + joined(records), exact_header(records.len() as u64));
    let n = records.len();
    let q = exact_query(query);
    let dist = |i: int| sum_of_squares(|d: int| quantized(query[d]) - quantized(vectors[i][d]));
    let label = |i: int|
        if labels[i] == "fraud"@ {
            1u8
        } else {
            0u8
        };
    assert forall|i: int| 0 <= i < n implies (#[trigger] records[i]).len() == EXACT_RECORD_LEN by {
        assert(vectors[i].len() == 14);
    }
    law_written_index_opens(records);
    assert forall|i: int| 0 <= i < labels.len() implies #[trigger] labels[i] == "fraud"@
        || labels[i] == "legit"@ by {
        assert(vectors[i].len() == 14);
    }
    let all = exact_candidates(data, q, n);
    let named = all_candidates(dist, label, n);
    assert forall|i: int| 0 <= i < n implies all[i] == named[i] && #[trigger] dist(i)
        < u32::MAX by {
        assert(vectors[i].len() == 14);
        assert(exact_record(data, i) == records[i]);
        lemma_record_distance(query, vectors[i], label(i), records[i]);
    }
    assert(all =~= named);
    let five = lemma_vote(dist, label, u32::MAX as int, n, n);
    assert(at_most(five, n) == five);
    if n == 0 {
        lemma_no_share(five, label);
    } else {
        assert(exact_score(data, n, query) == vote(
            n,
            labels_of(selected(vacant(u32::MAX as int), named)),
        ));
    }
    assert(are_the_nearest(five, n as int, 5, dist));
    assert(is_fraud_share(exact_score(data, n, query), five, label));
    assert(five.len() >= 0);
}

/// The distance of a query and the record of a vector.
proof fn lemma_record_distance(query: Seq<Single>, vector: Seq<Single>, code: u8, record: Seq<u8>)
    requires
        query.len() == 14,
        vector.len() == 14,
        record == encoded(vector, code),
    ensures
        byte_distance(exact_query(query), record, 14) == sum_of_squares(
            |d: int| quantized(query[d]) - quantized(vector[d]),
        ),
        byte_distance(exact_query(query), record, 14) < u32::MAX,
        record[14] == code,
{
    reveal(sum_of_squares);
    let q = exact_query(query);
    law_distance_counts_every_component(q, record);
    lemma_byte_distance_bound(q, record, 14);
    let f = |d: int| q[d] - record[d];
    let g = |d: int| quantized(query[d]) - quantized(vector[d]);
    assert forall|d: int| 0 <= d < 14 implies #[trigger] f(d) == g(d) by {
        lemma_quantized(query[d]);
        lemma_quantized(vector[d]);
    }
}

} // verus!
