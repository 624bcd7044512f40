//! Per-stream aggregation buffers and the aggregation engine: key
//! deduplication, size accounting, the flush policy, and the hand-off of
//! encoded messages to the sink.

use vstd::prelude::*;
use crate::codec::{
    spec_encode_message, AggregatedRecord, MessageView, Record, RecordView,
    opt_string_view,
};
use crate::sink::RecordSink;

verus! {

/// One "put record" request: the transient input consumed by the engine.
pub struct PutRecord {
    pub stream_name: String,
    pub partition_key: String,
    pub explicit_hash_key: Option<String>,
    pub data: Vec<u8>,
}

// ------------------------------------------------------------------
// Key tables
// ------------------------------------------------------------------

pub open spec fn table_has_key(t: Seq<Seq<char>>, k: Seq<char>) -> bool {
    exists|i: int| 0 <= i < t.len() && t[i] == k
}

pub open spec fn table_index_of(t: Seq<Seq<char>>, k: Seq<char>) -> int {
    choose|i: int| 0 <= i < t.len() && t[i] == k
}

pub open spec fn table_unique(t: Seq<Seq<char>>) -> bool {
    forall|i: int, j: int| 0 <= i < j < t.len() ==> t[i] != t[j]
}

/// Interning `k` into a table: an existing key keeps the table and yields
/// its index; a new key is appended and yields the old length.
pub open spec fn spec_intern(t: Seq<Seq<char>>, k: Seq<char>) -> (Seq<Seq<char>>, int) {
    if table_has_key(t, k) {
        (t, table_index_of(t, k))
    } else {
        (t.push(k), t.len() as int)
    }
}

/// In a duplicate-free table the index of a key is the place it stands.
pub proof fn lemma_table_index_of(t: Seq<Seq<char>>, k: Seq<char>, i: int)
    requires
        table_unique(t),
        0 <= i < t.len(),
        t[i] == k,
    ensures
        table_has_key(t, k),
        table_index_of(t, k) == i,
{
    assert(table_has_key(t, k));
    let j = table_index_of(t, k);
    if j != i {
        assert(t[i] != t[j] || t[j] != t[i]);
    }
}

// ------------------------------------------------------------------
// One stream's buffer
// ------------------------------------------------------------------

/// One stream's buffer: the deduplicated key tables, the records in
/// insertion order, and the running total of declared sizes.
pub struct AggregatedData {
    pub partition_key_table: Vec<String>,
    pub explicit_hash_key_table: Vec<String>,
    pub records: Vec<Record>,
    pub current_size: u32,
}

#[verifier::ext_equal]
pub ghost struct AggView {
    pub partition_key_table: Seq<Seq<char>>,
    pub explicit_hash_key_table: Seq<Seq<char>>,
    pub records: Seq<RecordView>,
    pub current_size: int,
}

impl View for AggregatedData {
    type V = AggView;

    open spec fn view(&self) -> AggView {
        AggView {
            partition_key_table: self.partition_key_table@.map_values(|s: String| s@),
            explicit_hash_key_table: self.explicit_hash_key_table@.map_values(|s: String| s@),
            records: self.records@.map_values(|r: Record| r@),
            current_size: self.current_size as int,
        }
    }
}

pub open spec fn agg_view_empty() -> AggView {
    AggView {
        partition_key_table: Seq::empty(),
        explicit_hash_key_table: Seq::empty(),
        records: Seq::empty(),
        current_size: 0,
    }
}

/// The buffer's invariant: no duplicate keys, and every index a record
/// carries points into the matching table.
pub open spec fn agg_wf(b: AggView) -> bool {
    &&& table_unique(b.partition_key_table)
    &&& table_unique(b.explicit_hash_key_table)
    &&& 0 <= b.current_size <= u32::MAX
    &&& forall|i: int|
        0 <= i < b.records.len() ==> (#[trigger] b.records[i]).partition_key_index
            < b.partition_key_table.len()
    &&& forall|i: int|
        0 <= i < b.records.len() ==> ((#[trigger] b.records[i]).explicit_hash_key_index
            matches Some(j) ==> j < b.explicit_hash_key_table.len())
}

/// What one insertion does to a buffer: intern the keys, append the record
/// with the interned indices, add the declared size.
pub open spec fn spec_buffer_insert(
    b: AggView,
    pk: Seq<char>,
    ehk: Option<Seq<char>>,
    data: Seq<u8>,
    size: u32,
) -> AggView {
    let pk_interned = spec_intern(b.partition_key_table, pk);
    let ehk_interned = match ehk {
        Some(k) => spec_intern(b.explicit_hash_key_table, k),
        None => (b.explicit_hash_key_table, 0int),
    };
    AggView {
        partition_key_table: pk_interned.0,
        explicit_hash_key_table: ehk_interned.0,
        records: b.records.push(
            RecordView {
                partition_key_index: pk_interned.1 as u64,
                explicit_hash_key_index: match ehk {
                    Some(_) => Some(ehk_interned.1 as u64),
                    None => None,
                },
                data: data,
                tags: Seq::empty(),
            },
        ),
        current_size: b.current_size + size,
    }
}

/// The message a buffer flushes to: its tables and records, verbatim.
pub open spec fn agg_to_message(b: AggView) -> MessageView {
    MessageView {
        partition_key_table: b.partition_key_table,
        explicit_hash_key_table: b.explicit_hash_key_table,
        records: b.records,
    }
}

/// Interns `key` into `table`: the index of the existing entry, or of the
/// appended one.
fn intern_key(table: &mut Vec<String>, key: &String) -> (idx: usize)
    requires
        table_unique(old(table)@.map_values(|s: String| s@)),
    ensures
        ({
            let t0 = old(table)@.map_values(|s: String| s@);
            let t1 = final(table)@.map_values(|s: String| s@);
            &&& t1 == spec_intern(t0, key@).0
            &&& idx as int == spec_intern(t0, key@).1
            &&& table_unique(t1)
            &&& idx < final(table)@.len()
        }),
{
    let ghost t0 = table@.map_values(|s: String| s@);
    let mut i: usize = 0;
    while i < table.len()
        invariant
            i <= table.len(),
            t0 == table@.map_values(|s: String| s@),
            t0 == old(table)@.map_values(|s: String| s@),
            table_unique(t0),
            forall|j: int| 0 <= j < i ==> t0[j] != key@,
        decreases table.len() - i,
    {
        if table[i] == *key {
            proof {
                lemma_table_index_of(t0, key@, i as int);
            }
            return i;
        }
        i += 1;
    }
    let n = table.len();
    table.push(key.clone());
    proof {
        assert(!table_has_key(t0, key@));
        let t1 = table@.map_values(|s: String| s@);
        assert(t1 =~= t0.push(key@));
        assert forall|a: int, b: int| 0 <= a < b < t1.len() implies t1[a] != t1[b] by {
            if b < t0.len() {
            } else {
                assert(t1[b] == key@);
                assert(t0[a] != key@) by {
                    if t0[a] == key@ {
                        assert(table_has_key(t0, key@));
                    }
                }
            }
        }
    }
    n
}

impl AggregatedData {
    /// A fresh, empty buffer.
    pub fn new() -> (r: Self)
        ensures
            r@ == agg_view_empty(),
    {
        let r = AggregatedData {
            partition_key_table: Vec::new(),
            explicit_hash_key_table: Vec::new(),
            records: Vec::new(),
            current_size: 0,
        };
        proof {
            assert(r@ =~= agg_view_empty());
        }
        r
    }

    /// Interns the request's keys, appends the record, adds its size.
    fn add_record(&mut self, put_record: PutRecord, record_size: u32)
        requires
            agg_wf(old(self)@),
            old(self)@.current_size + record_size <= u32::MAX,
        ensures
            final(self)@ == spec_buffer_insert(
                old(self)@,
                put_record.partition_key@,
                opt_string_view(put_record.explicit_hash_key),
                put_record.data@,
                record_size,
            ),
            agg_wf(final(self)@),
    {
        let ghost b0 = self@;
        let pk_idx = intern_key(&mut self.partition_key_table, &put_record.partition_key);
        let ehk_idx: Option<usize> = match &put_record.explicit_hash_key {
            Some(k) => Some(intern_key(&mut self.explicit_hash_key_table, k)),
            None => None,
        };
        self.current_size = self.current_size + record_size;
        let ghost recs0 = self.records@.map_values(|r: Record| r@);
        let no_tags: Vec<crate::codec::Tag> = Vec::new();
        proof {
            assert(no_tags@.map_values(|t: crate::codec::Tag| t@)
                =~= Seq::<crate::codec::TagView>::empty());
        }
        self.records.push(
            Record {
                partition_key_index: pk_idx as u64,
                explicit_hash_key_index: match ehk_idx {
                    Some(i) => Some(i as u64),
                    None => None,
                },
                data: put_record.data,
                tags: no_tags,
            },
        );
        proof {
            let b2 = spec_buffer_insert(
                b0,
                put_record.partition_key@,
                opt_string_view(put_record.explicit_hash_key),
                put_record.data@,
                record_size,
            );
            assert(self.records@.map_values(|r: Record| r@) =~= recs0.push(
                b2.records[b2.records.len() - 1],
            ));
            assert(self@ =~= b2);
            // the new record's indices point into the grown tables, and
            // the old records' indices still do
            assert(agg_wf(self@)) by {
                assert(forall|i: int|
                    0 <= i < b0.records.len() ==> b2.records[i] == b0.records[i]);
                assert(b2.partition_key_table.len() >= b0.partition_key_table.len());
                assert(b2.explicit_hash_key_table.len() >= b0.explicit_hash_key_table.len());
            }
        }
    }
}

// ------------------------------------------------------------------
// The aggregation engine
// ------------------------------------------------------------------

/// The engine's buffers: one (stream name, buffer) pair per active stream,
/// in order of first insertion.
pub type Buffers = Seq<(Seq<char>, AggView)>;

pub open spec fn buffers_has(m: Buffers, name: Seq<char>) -> bool {
    exists|i: int| 0 <= i < m.len() && (#[trigger] m[i]).0 == name
}

pub open spec fn buffers_index_of(m: Buffers, name: Seq<char>) -> int {
    choose|i: int| 0 <= i < m.len() && (#[trigger] m[i]).0 == name
}

pub open spec fn buffers_at(m: Buffers, name: Seq<char>) -> AggView {
    m[buffers_index_of(m, name)].1
}

pub open spec fn buffers_remove(m: Buffers, name: Seq<char>) -> Buffers {
    m.remove(buffers_index_of(m, name))
}

pub open spec fn buffers_unique(m: Buffers) -> bool {
    forall|i: int, j: int| 0 <= i < j < m.len() ==> (#[trigger] m[i]).0 != (#[trigger] m[j]).0
}

/// The engine's invariant: stream names are unique and every buffer is
/// well formed.
pub open spec fn buffers_wf(m: Buffers) -> bool {
    &&& buffers_unique(m)
    &&& forall|i: int| 0 <= i < m.len() ==> agg_wf((#[trigger] m[i]).1)
}

/// With unique names, the index of a name is the place it stands.
pub proof fn lemma_buffers_index_of(m: Buffers, name: Seq<char>, i: int)
    requires
        buffers_unique(m),
        0 <= i < m.len(),
        m[i].0 == name,
    ensures
        buffers_has(m, name),
        buffers_index_of(m, name) == i,
{
    assert(buffers_has(m, name));
    let j = buffers_index_of(m, name);
    if j != i {
        assert(m[i].0 != m[j].0 || m[j].0 != m[i].0);
    }
}

/// What `flush_all` publishes: each stream's encoded buffer, in buffer
/// order, one message per stream.
pub open spec fn spec_flush_all_msgs(m: Buffers) -> Seq<(Seq<char>, Seq<u8>)> {
    m.map_values(|p: (Seq<char>, AggView)| (p.0, spec_encode_message(agg_to_message(p.1))))
}

pub open spec fn streams_view(v: Seq<(String, AggregatedData)>) -> Buffers {
    v.map_values(|p: (String, AggregatedData)| (p.0@, p.1@))
}

/// Finds the entry for `name`, if any. Entries carry unique names, so the
/// first match is the only one.
fn find_stream(v: &Vec<(String, AggregatedData)>, name: &String) -> (r: Option<usize>)
    ensures
        (match r {
            Some(i) => i < v@.len() && streams_view(v@)[i as int].0 == name@,
            None => forall|j: int|
                0 <= j < v@.len() ==> (#[trigger] streams_view(v@)[j]).0 != name@,
        }),
{
    let mut i: usize = 0;
    while i < v.len()
        invariant
            i <= v.len(),
            forall|j: int| 0 <= j < i ==> (#[trigger] streams_view(v@)[j]).0 != name@,
        decreases v.len() - i,
    {
        if v[i].0 == *name {
            return Some(i);
        }
        i += 1;
    }
    None
}

/// The aggregation engine: one buffer per stream, a shared maximum size,
/// and the sink that flushed messages are handed to.
pub struct StreamAggregator<S: RecordSink> {
    pub aggregated_data: Vec<(String, AggregatedData)>,
    max_size: u32,
    pub record_sink: S,
}

impl<S: RecordSink> StreamAggregator<S> {
    /// The buffers, as (stream name, buffer) pairs in insertion order.
    pub closed spec fn buffers(&self) -> Buffers {
        streams_view(self.aggregated_data@)
    }

    /// The configured maximum buffer size.
    pub closed spec fn max_spec(&self) -> u32 {
        self.max_size
    }

    /// Everything the engine's sink has published so far.
    pub closed spec fn sink_log(&self) -> Seq<(Seq<char>, Seq<u8>)> {
        self.record_sink.log()
    }

    pub open spec fn wf(&self) -> bool {
        buffers_wf(self.buffers())
    }

    pub fn new(max_size: u32, record_sink: S) -> (r: Self)
        ensures
            r.wf(),
            r.buffers() == Seq::<(Seq<char>, AggView)>::empty(),
            r.max_spec() == max_size,
            r.sink_log() == record_sink.log(),
    {
        let r = StreamAggregator { aggregated_data: Vec::new(), max_size, record_sink };
        proof {
            assert(r.buffers() =~= Seq::<(Seq<char>, AggView)>::empty());
        }
        r
    }

    /// If a buffer exists for `stream_name`: encode it, drop it from the
    /// engine, and hand the message to the sink. Otherwise do nothing.
    pub fn flush(&mut self, stream_name: String)
        requires
            old(self).wf(),
        ensures
            final(self).wf(),
            final(self).max_spec() == old(self).max_spec(),
            buffers_has(old(self).buffers(), stream_name@) ==> {
                &&& final(self).buffers() == buffers_remove(old(self).buffers(), stream_name@)
                &&& final(self).sink_log() == old(self).sink_log().push(
                    (
                        stream_name@,
                        spec_encode_message(
                            agg_to_message(buffers_at(old(self).buffers(), stream_name@)),
                        ),
                    ),
                )
            },
            !buffers_has(old(self).buffers(), stream_name@) ==> {
                &&& final(self).buffers() == old(self).buffers()
                &&& final(self).sink_log() == old(self).sink_log()
            },
    {
        let ghost m0 = self.buffers();
        match find_stream(&self.aggregated_data, &stream_name) {
            None => {
                proof {
                    assert(!buffers_has(m0, stream_name@));
                }
            },
            Some(i) => {
                proof {
                    lemma_buffers_index_of(m0, stream_name@, i as int);
                }
                let (name, data) = self.aggregated_data.remove(i);
                let msg = AggregatedRecord {
                    partition_key_table: data.partition_key_table,
                    explicit_hash_key_table: data.explicit_hash_key_table,
                    records: data.records,
                };
                proof {
                    assert(self.buffers() =~= m0.remove(i as int));
                    assert(msg@ =~= agg_to_message(buffers_at(m0, stream_name@)));
                    assert(buffers_wf(self.buffers())) by {
                        let m1 = m0.remove(i as int);
                        assert(forall|a: int|
                            0 <= a < m1.len() ==> #[trigger] m1[a] == (if a < i as int {
                                m0[a]
                            } else {
                                m0[a + 1]
                            }));
                    }
                }
                let bytes = msg.encode();
                log_encoded(&bytes);
                self.record_sink.sink(name, bytes);
            },
        }
    }

    /// Flushes every buffered stream, in buffer order: the sink receives
    /// exactly one message per stream, each holding only that stream's
    /// tables and records, and no buffer remains.
    pub fn flush_all(&mut self)
        requires
            old(self).wf(),
        ensures
            final(self).wf(),
            final(self).max_spec() == old(self).max_spec(),
            final(self).buffers() == Seq::<(Seq<char>, AggView)>::empty(),
            final(self).sink_log() == old(self).sink_log() + spec_flush_all_msgs(
                old(self).buffers(),
            ),
    {
        let ghost m0 = old(self).buffers();
        let ghost mut done: int = 0;
        while self.aggregated_data.len() > 0
            invariant
                self.wf(),
                self.max_spec() == old(self).max_spec(),
                0 <= done <= m0.len(),
                m0 == old(self).buffers(),
                self.buffers() == m0.skip(done),
                self.sink_log() == old(self).sink_log() + spec_flush_all_msgs(m0.take(done)),
            decreases self.aggregated_data.len(),
        {
            let ghost mcur = self.buffers();
            let ghost logcur = self.sink_log();
            let name = self.aggregated_data[0].0.clone();
            proof {
                lemma_buffers_index_of(mcur, name@, 0);
            }
            self.flush(name);
            proof {
                assert(self.buffers() =~= mcur.remove(0));
                assert(mcur.remove(0) =~= m0.skip(done + 1));
                assert(spec_flush_all_msgs(m0.take(done + 1)) =~= spec_flush_all_msgs(
                    m0.take(done),
                ).push((m0[done].0, spec_encode_message(agg_to_message(m0[done].1)))));
                assert(buffers_at(mcur, m0[done].0) == m0[done].1);
                assert(self.sink_log() =~= old(self).sink_log() + spec_flush_all_msgs(
                    m0.take(done + 1),
                ));
                done = done + 1;
            }
        }
        proof {
            assert(done == m0.len());
            assert(m0.take(done) =~= m0);
            assert(self.buffers() =~= Seq::<(Seq<char>, AggView)>::empty());
        }
    }
}

impl Default for AggregatedData {
    fn default() -> (r: Self)
        ensures
            r@ == agg_view_empty(),
    {
        AggregatedData::new()
    }
}

/// Relies on `std::io::Write::write_all` on standard output: emits one
/// diagnostic line with the encoded bytes. No result is observed.
#[verifier::external_body]
fn log_encoded(bytes: &Vec<u8>) {
    let line = format!("Dumped AggregatedRecord: {:?}\n", bytes);
    let _ = std::io::Write::write_all(&mut std::io::stdout(), line.as_bytes());
}

/// Removing a name from a duplicate-free buffer sequence leaves no entry
/// with that name.
pub proof fn lemma_buffers_remove_absent(m: Buffers, name: Seq<char>)
    requires
        buffers_unique(m),
        buffers_has(m, name),
    ensures
        !buffers_has(buffers_remove(m, name), name),
{
    let i = buffers_index_of(m, name);
    let m1 = buffers_remove(m, name);
    assert forall|j: int| 0 <= j < m1.len() implies (#[trigger] m1[j]).0 != name by {
        if j < i {
            assert(m1[j] == m[j]);
        } else {
            assert(m1[j] == m[j + 1]);
        }
    }
}

/// What one insert does to the whole engine: flush the old contents first
/// when the new size would pass the maximum, intern and append the record,
/// and flush the new contents when the size lands exactly on the maximum.
/// Yields the buffers afterwards and whatever was published, in order.
pub open spec fn spec_engine_insert(
    m: Buffers,
    max: u32,
    name: Seq<char>,
    pk: Seq<char>,
    ehk: Option<Seq<char>>,
    data: Seq<u8>,
    size: u32,
) -> (Buffers, Seq<(Seq<char>, Seq<u8>)>) {
    let pre_flush = buffers_has(m, name) && buffers_at(m, name).current_size + size > max;
    let m1 = if pre_flush {
        buffers_remove(m, name)
    } else {
        m
    };
    let pubs1: Seq<(Seq<char>, Seq<u8>)> = if pre_flush {
        seq![(name, spec_encode_message(agg_to_message(buffers_at(m, name))))]
    } else {
        Seq::empty()
    };
    let base = if buffers_has(m1, name) {
        buffers_at(m1, name)
    } else {
        agg_view_empty()
    };
    let b2 = spec_buffer_insert(base, pk, ehk, data, size);
    let m2 = if buffers_has(m1, name) {
        m1.update(buffers_index_of(m1, name), (name, b2))
    } else {
        m1.push((name, b2))
    };
    if b2.current_size == max {
        (buffers_remove(m2, name), pubs1.push((name, spec_encode_message(agg_to_message(b2)))))
    } else {
        (m2, pubs1)
    }
}

impl<S: RecordSink> StreamAggregator<S> {
    /// Buffers the record for `stream_name`, flushing first when the new
    /// size would pass the maximum and right after when it lands exactly
    /// on it. Always succeeds; an oversized record into an empty buffer is
    /// accepted.
    pub fn insert(&mut self, stream_name: String, put_record: PutRecord, record_size: u32)
        requires
            old(self).wf(),
        ensures
            final(self).wf(),
            final(self).max_spec() == old(self).max_spec(),
            ({
                let step = spec_engine_insert(
                    old(self).buffers(),
                    old(self).max_spec(),
                    stream_name@,
                    put_record.partition_key@,
                    opt_string_view(put_record.explicit_hash_key),
                    put_record.data@,
                    record_size,
                );
                &&& final(self).buffers() == step.0
                &&& final(self).sink_log() == old(self).sink_log() + step.1
            }),
    {
        let ghost m0 = self.buffers();
        let ghost log0 = self.sink_log();
        let ghost name = stream_name@;
        let ghost step = spec_engine_insert(
            m0,
            self.max_size,
            name,
            put_record.partition_key@,
            opt_string_view(put_record.explicit_hash_key),
            put_record.data@,
            record_size,
        );
        let ghost pre_flush = buffers_has(m0, name) && buffers_at(m0, name).current_size
            + record_size > self.max_size;
        // flush the old contents when the new size would pass the maximum
        match find_stream(&self.aggregated_data, &stream_name) {
            Some(i) => {
                proof {
                    lemma_buffers_index_of(m0, name, i as int);
                }
                let cur = self.aggregated_data[i].1.current_size;
                if (cur as u64) + (record_size as u64) > (self.max_size as u64) {
                    self.flush(stream_name.clone());
                }
            },
            None => {
                proof {
                    assert(!buffers_has(m0, name));
                }
            },
        }
        let ghost m1 = if pre_flush {
            buffers_remove(m0, name)
        } else {
            m0
        };
        let ghost pubs1: Seq<(Seq<char>, Seq<u8>)> = if pre_flush {
            seq![(name, spec_encode_message(agg_to_message(buffers_at(m0, name))))]
        } else {
            Seq::empty()
        };
        proof {
            assert(self.buffers() == m1);
            assert(self.sink_log() == log0 + pubs1) by {
                if pre_flush {
                    assert(log0 + pubs1 =~= log0.push(pubs1[0]));
                } else {
                    assert(log0 + pubs1 =~= log0);
                }
            }
            if pre_flush {
                lemma_buffers_remove_absent(m0, name);
            }
        }
        // obtain the buffer, creating it when none exists
        let idx: usize = match find_stream(&self.aggregated_data, &stream_name) {
            Some(i) => {
                proof {
                    lemma_buffers_index_of(m1, name, i as int);
                }
                i
            },
            None => {
                let n = self.aggregated_data.len();
                self.aggregated_data.push((stream_name.clone(), AggregatedData::new()));
                proof {
                    assert(self.buffers() =~= m1.push((name, agg_view_empty())));
                }
                n
            },
        };
        let ghost existed = buffers_has(m1, name);
        let ghost base = if existed {
            buffers_at(m1, name)
        } else {
            agg_view_empty()
        };
        let ghost b2 = spec_buffer_insert(
            base,
            put_record.partition_key@,
            opt_string_view(put_record.explicit_hash_key),
            put_record.data@,
            record_size,
        );
        let ghost mcur = self.buffers();
        proof {
            assert(mcur[idx as int] == (name, base));
            // the size to come never overflows: either the buffer is fresh,
            // or no flush happened because the sum stays within the maximum
            assert(base.current_size + record_size <= u32::MAX) by {
                if existed {
                    if pre_flush {
                        assert(!buffers_has(m1, name));
                    }
                    assert(base.current_size + record_size <= self.max_size);
                }
            }
        }
        // intern the keys and append the record
        let (name_s, mut entry) = self.aggregated_data.remove(idx);
        entry.add_record(put_record, record_size);
        let cur2 = entry.current_size;
        self.aggregated_data.insert(idx, (name_s, entry));
        let ghost m2 = if existed {
            m1.update(buffers_index_of(m1, name), (name, b2))
        } else {
            m1.push((name, b2))
        };
        proof {
            assert(self.buffers() =~= mcur.update(idx as int, (name, b2)));
            if existed {
                assert(self.buffers() =~= m2);
            } else {
                assert(self.buffers() =~= m2);
            }
            assert(buffers_wf(m2)) by {
                assert(forall|j: int|
                    0 <= j < m2.len() && j != idx as int ==> m2[j] == m1[j]);
            }
            lemma_buffers_index_of(m2, name, idx as int);
            assert(buffers_at(m2, name) == b2);
            assert(cur2 as int == b2.current_size);
        }
        // flush the new contents when the size lands exactly on the maximum
        if cur2 == self.max_size {
            self.flush(stream_name);
            proof {
                lemma_buffers_remove_absent(m2, name);
                assert(self.buffers() == buffers_remove(m2, name));
                assert(self.sink_log() =~= log0 + pubs1.push(
                    (name, spec_encode_message(agg_to_message(b2))),
                ));
                assert(self.buffers() == step.0 && self.sink_log() == log0 + step.1);
            }
        } else {
            proof {
                assert(b2.current_size != self.max_size);
                assert(self.buffers() == step.0 && self.sink_log() == log0 + step.1);
            }
        }
    }
}

// ------------------------------------------------------------------
// Laws of the flush policy
// ------------------------------------------------------------------

/// One insertion keeps a buffer well formed, as long as the size sum fits.
pub proof fn lemma_buffer_insert_wf(
    b: AggView,
    pk: Seq<char>,
    ehk: Option<Seq<char>>,
    data: Seq<u8>,
    size: u32,
)
    requires
        agg_wf(b),
        b.current_size + size <= u32::MAX,
    ensures
        agg_wf(spec_buffer_insert(b, pk, ehk, data, size)),
{
    let b2 = spec_buffer_insert(b, pk, ehk, data, size);
    if !table_has_key(b.partition_key_table, pk) {
        let t1 = b.partition_key_table.push(pk);
        assert forall|a: int, c: int| 0 <= a < c < t1.len() implies t1[a] != t1[c] by {
            if c == t1.len() - 1 {
                if t1[a] == pk {
                    assert(table_has_key(b.partition_key_table, pk));
                }
            }
        }
    }
    match ehk {
        Some(k) => {
            if !table_has_key(b.explicit_hash_key_table, k) {
                let t1 = b.explicit_hash_key_table.push(k);
                assert forall|a: int, c: int| 0 <= a < c < t1.len() implies t1[a] != t1[c] by {
                    if c == t1.len() - 1 {
                        if t1[a] == k {
                            assert(table_has_key(b.explicit_hash_key_table, k));
                        }
                    }
                }
            }
        },
        None => {},
    }
    assert(forall|i: int| 0 <= i < b.records.len() ==> b2.records[i] == b.records[i]);
}

/// One engine step keeps every buffer well formed.
pub proof fn lemma_engine_insert_wf(
    m: Buffers,
    max: u32,
    name: Seq<char>,
    pk: Seq<char>,
    ehk: Option<Seq<char>>,
    data: Seq<u8>,
    size: u32,
)
    requires
        buffers_wf(m),
    ensures
        buffers_wf(spec_engine_insert(m, max, name, pk, ehk, data, size).0),
{
    let pre_flush = buffers_has(m, name) && buffers_at(m, name).current_size + size > max;
    let m1 = if pre_flush {
        buffers_remove(m, name)
    } else {
        m
    };
    if pre_flush {
        let i = buffers_index_of(m, name);
        assert(buffers_wf(m1)) by {
            assert(forall|a: int|
                0 <= a < m1.len() ==> #[trigger] m1[a] == (if a < i {
                    m[a]
                } else {
                    m[a + 1]
                }));
        }
        lemma_buffers_remove_absent(m, name);
    }
    let base = if buffers_has(m1, name) {
        buffers_at(m1, name)
    } else {
        agg_view_empty()
    };
    assert(base.current_size + size <= u32::MAX) by {
        if buffers_has(m1, name) {
            assert(!pre_flush);
            assert(base.current_size + size <= max);
        }
    }
    lemma_buffer_insert_wf(base, pk, ehk, data, size);
    let b2 = spec_buffer_insert(base, pk, ehk, data, size);
    let m2 = if buffers_has(m1, name) {
        m1.update(buffers_index_of(m1, name), (name, b2))
    } else {
        m1.push((name, b2))
    };
    assert(buffers_wf(m2)) by {
        if buffers_has(m1, name) {
            let j = buffers_index_of(m1, name);
            assert(forall|a: int| 0 <= a < m2.len() && a != j ==> m2[a] == m1[a]);
            assert(m2[j].0 == m1[j].0);
        } else {
            assert(forall|a: int| 0 <= a < m1.len() ==> m2[a] == m1[a]);
        }
    }
    if b2.current_size == max {
        lemma_buffers_index_of(m2, name, if buffers_has(m1, name) {
            buffers_index_of(m1, name)
        } else {
            m1.len() as int
        });
        let j = buffers_index_of(m2, name);
        let m3 = buffers_remove(m2, name);
        assert(buffers_wf(m3)) by {
            assert(forall|a: int|
                0 <= a < m3.len() ==> #[trigger] m3[a] == (if a < j {
                    m2[a]
                } else {
                    m2[a + 1]
                }));
        }
    }
}

/// One insert request: partition key, optional explicit hash key, payload,
/// declared size.
pub type InsertReq = (Seq<char>, Option<Seq<char>>, Seq<u8>, u32);

pub open spec fn sum_sizes(reqs: Seq<InsertReq>) -> int
    decreases reqs.len(),
{
    if reqs.len() == 0 {
        0
    } else {
        reqs[0].3 + sum_sizes(reqs.drop_first())
    }
}

pub proof fn lemma_sum_sizes_nonneg(reqs: Seq<InsertReq>)
    ensures
        sum_sizes(reqs) >= 0,
    decreases reqs.len(),
{
    if reqs.len() > 0 {
        lemma_sum_sizes_nonneg(reqs.drop_first());
    }
}

/// A whole run of inserts to one stream: the buffers afterwards and
/// everything published along the way, in order.
pub open spec fn spec_engine_insert_all(
    m: Buffers,
    max: u32,
    name: Seq<char>,
    reqs: Seq<InsertReq>,
) -> (Buffers, Seq<(Seq<char>, Seq<u8>)>)
    decreases reqs.len(),
{
    if reqs.len() == 0 {
        (m, Seq::empty())
    } else {
        let first = spec_engine_insert(m, max, name, reqs[0].0, reqs[0].1, reqs[0].2, reqs[0].3);
        let rest = spec_engine_insert_all(first.0, max, name, reqs.drop_first());
        (rest.0, first.1 + rest.1)
    }
}

/// For every run of inserts to one stream whose cumulative declared size
/// stays strictly below the maximum, nothing is published: no flush happens
/// until one is asked for.
pub proof fn lemma_no_flush_below_max(m: Buffers, max: u32, name: Seq<char>, reqs: Seq<InsertReq>)
    requires
        buffers_wf(m),
        !buffers_has(m, name) ==> sum_sizes(reqs) < max,
        buffers_has(m, name) ==> buffers_at(m, name).current_size + sum_sizes(reqs) < max,
    ensures
        spec_engine_insert_all(m, max, name, reqs).1 == Seq::<(Seq<char>, Seq<u8>)>::empty(),
    decreases reqs.len(),
{
    if reqs.len() == 0 {
    } else {
        let size = reqs[0].3;
        lemma_sum_sizes_nonneg(reqs.drop_first());
        let pre_flush = buffers_has(m, name) && buffers_at(m, name).current_size + size > max;
        assert(!pre_flush);
        let base = if buffers_has(m, name) {
            buffers_at(m, name)
        } else {
            agg_view_empty()
        };
        let b2 = spec_buffer_insert(base, reqs[0].0, reqs[0].1, reqs[0].2, size);
        assert(b2.current_size < max);
        let first = spec_engine_insert(m, max, name, reqs[0].0, reqs[0].1, reqs[0].2, size);
        assert(first.1 =~= Seq::<(Seq<char>, Seq<u8>)>::empty());
        let m2 = first.0;
        let j = if buffers_has(m, name) {
            buffers_index_of(m, name)
        } else {
            m.len() as int
        };
        lemma_buffers_index_of(m2, name, j);
        assert(buffers_at(m2, name) == b2);
        lemma_engine_insert_wf(m, max, name, reqs[0].0, reqs[0].1, reqs[0].2, size);
        lemma_no_flush_below_max(m2, max, name, reqs.drop_first());
        assert(spec_engine_insert_all(m, max, name, reqs).1 =~= Seq::<(
            Seq<char>,
            Seq<u8>,
        )>::empty());
    }
}

/// A record that brings the cumulative size exactly to the maximum is
/// flushed at once: one message, for this stream, encoding the buffer that
/// ends with that record; no buffer remains for the stream.
pub proof fn lemma_flush_on_exact_fill(
    m: Buffers,
    max: u32,
    name: Seq<char>,
    pk: Seq<char>,
    ehk: Option<Seq<char>>,
    data: Seq<u8>,
    size: u32,
)
    requires
        buffers_wf(m),
        buffers_has(m, name) ==> buffers_at(m, name).current_size + size == max,
        !buffers_has(m, name) ==> size == max,
    ensures
        ({
            let base = if buffers_has(m, name) {
                buffers_at(m, name)
            } else {
                agg_view_empty()
            };
            let b2 = spec_buffer_insert(base, pk, ehk, data, size);
            let step = spec_engine_insert(m, max, name, pk, ehk, data, size);
            &&& step.1 == seq![(name, spec_encode_message(agg_to_message(b2)))]
            &&& b2.records.len() == base.records.len() + 1
            &&& b2.records[b2.records.len() - 1].data == data
            &&& !buffers_has(step.0, name)
        }),
{
    let base = if buffers_has(m, name) {
        buffers_at(m, name)
    } else {
        agg_view_empty()
    };
    let b2 = spec_buffer_insert(base, pk, ehk, data, size);
    let pre_flush = buffers_has(m, name) && buffers_at(m, name).current_size + size > max;
    assert(!pre_flush);
    assert(b2.current_size == max);
    let j = if buffers_has(m, name) {
        buffers_index_of(m, name)
    } else {
        m.len() as int
    };
    let m2 = if buffers_has(m, name) {
        m.update(buffers_index_of(m, name), (name, b2))
    } else {
        m.push((name, b2))
    };
    lemma_buffers_index_of(m2, name, j);
    lemma_buffers_remove_absent(m2, name);
    let step = spec_engine_insert(m, max, name, pk, ehk, data, size);
    assert(step.1 =~= seq![(name, spec_encode_message(agg_to_message(b2)))]);
}

/// A record whose declared size would push the cumulative size strictly
/// past the maximum flushes the *prior* contents first, in exactly one
/// message that does not carry the new record; the new record then starts
/// a fresh buffer — fresh key tables, only this record, the record's own
/// size. The one excluded input: a record whose own size equals the
/// maximum, which fills the fresh buffer exactly and is flushed at once.
pub proof fn lemma_flush_before_overflow(
    m: Buffers,
    max: u32,
    name: Seq<char>,
    pk: Seq<char>,
    ehk: Option<Seq<char>>,
    data: Seq<u8>,
    size: u32,
)
    requires
        buffers_wf(m),
        buffers_has(m, name),
        buffers_at(m, name).current_size + size > max,
        size != max,
    ensures
        ({
            let step = spec_engine_insert(m, max, name, pk, ehk, data, size);
            let fresh = buffers_at(step.0, name);
            &&& step.1 == seq![
                (name, spec_encode_message(agg_to_message(buffers_at(m, name)))),
            ]
            &&& buffers_has(step.0, name)
            &&& fresh == spec_buffer_insert(agg_view_empty(), pk, ehk, data, size)
            &&& fresh.partition_key_table == seq![pk]
            &&& fresh.records.len() == 1
            &&& fresh.records[0].data == data
            &&& fresh.current_size == size
        }),
{
    lemma_buffers_remove_absent(m, name);
    let m1 = buffers_remove(m, name);
    let b2 = spec_buffer_insert(agg_view_empty(), pk, ehk, data, size);
    let m2 = m1.push((name, b2));
    lemma_buffers_index_of(m2, name, m1.len() as int);
    assert(buffers_at(m2, name) == b2);
    assert(!table_has_key(agg_view_empty().partition_key_table, pk));
    assert(b2.partition_key_table =~= seq![pk]);
    assert(b2.records =~= seq![b2.records[0]]);
    let step = spec_engine_insert(m, max, name, pk, ehk, data, size);
    assert(step.1 =~= seq![
        (name, spec_encode_message(agg_to_message(buffers_at(m, name)))),
    ]);
}

/// Two records with the same partition key in one unflushed buffer share a
/// single table entry: the second insert adds nothing to the table, both
/// records carry the same index, and the table holds the key there.
pub proof fn lemma_key_dedup(
    b: AggView,
    pk: Seq<char>,
    ehk1: Option<Seq<char>>,
    d1: Seq<u8>,
    s1: u32,
    ehk2: Option<Seq<char>>,
    d2: Seq<u8>,
    s2: u32,
)
    requires
        table_unique(b.partition_key_table),
        b.partition_key_table.len() <= u64::MAX,
    ensures
        ({
            let b1 = spec_buffer_insert(b, pk, ehk1, d1, s1);
            let b2 = spec_buffer_insert(b1, pk, ehk2, d2, s2);
            &&& b2.partition_key_table == b1.partition_key_table
            &&& b1.partition_key_table == (if table_has_key(b.partition_key_table, pk) {
                b.partition_key_table
            } else {
                b.partition_key_table.push(pk)
            })
            &&& b2.records[b2.records.len() - 1].partition_key_index == b2.records[
                b2.records.len() - 2].partition_key_index
            &&& b1.partition_key_table[b2.records[b2.records.len()
                - 1].partition_key_index as int] == pk
        }),
{
    let t0 = b.partition_key_table;
    let b1 = spec_buffer_insert(b, pk, ehk1, d1, s1);
    let b2 = spec_buffer_insert(b1, pk, ehk2, d2, s2);
    if table_has_key(t0, pk) {
        let i = table_index_of(t0, pk);
        assert(0 <= i < t0.len() && t0[i] == pk);
    } else {
        let t1 = t0.push(pk);
        assert forall|a: int, c: int| 0 <= a < c < t1.len() implies t1[a] != t1[c] by {
            if c == t1.len() - 1 {
                if t1[a] == pk {
                    assert(table_has_key(t0, pk));
                }
            }
        }
        lemma_table_index_of(t1, pk, t0.len() as int);
    }
}

/// Flushing all buffers publishes exactly one message per stream, each
/// encoding only that stream's tables and records.
pub proof fn lemma_one_message_per_stream(m: Buffers)
    ensures
        spec_flush_all_msgs(m).len() == m.len(),
        forall|i: int|
            0 <= i < m.len() ==> #[trigger] spec_flush_all_msgs(m)[i] == (
            m[i].0,
            spec_encode_message(agg_to_message(m[i].1)),
            ),
{
}

} // verus!
