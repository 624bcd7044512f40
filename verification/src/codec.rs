//! The wire codec: encodes one flushed stream buffer into a single binary
//! message (tag-length-value fields with varint integers, fixed field
//! numbers), and decodes such a message back. Pure and stateless.

use vstd::prelude::*;
use vstd::arithmetic::div_mod::lemma_fundamental_div_mod;
use vstd::utf8::{decode_utf8, encode_utf8, encode_utf8_decode_utf8, encode_utf8_valid_utf8,
    valid_utf8};

verus! {

// ------------------------------------------------------------------
// The message model
// ------------------------------------------------------------------

/// One key/value pair carried by a record. Present in the wire format,
/// unused by current callers.
#[derive(Debug, Clone, PartialEq)]
pub struct Tag {
    pub key: String,
    pub value: Option<String>,
}

/// One buffered record: indices into the key tables plus the raw payload.
#[derive(Debug, Clone, PartialEq)]
pub struct Record {
    pub partition_key_index: u64,
    pub explicit_hash_key_index: Option<u64>,
    pub data: Vec<u8>,
    pub tags: Vec<Tag>,
}

/// The aggregated message: deduplicated key tables plus the record list.
#[derive(Debug, Clone, PartialEq)]
pub struct AggregatedRecord {
    pub partition_key_table: Vec<String>,
    pub explicit_hash_key_table: Vec<String>,
    pub records: Vec<Record>,
}

#[verifier::ext_equal]
pub ghost struct TagView {
    pub key: Seq<char>,
    pub value: Option<Seq<char>>,
}

#[verifier::ext_equal]
pub ghost struct RecordView {
    pub partition_key_index: u64,
    pub explicit_hash_key_index: Option<u64>,
    pub data: Seq<u8>,
    pub tags: Seq<TagView>,
}

#[verifier::ext_equal]
pub ghost struct MessageView {
    pub partition_key_table: Seq<Seq<char>>,
    pub explicit_hash_key_table: Seq<Seq<char>>,
    pub records: Seq<RecordView>,
}

impl View for Tag {
    type V = TagView;

    open spec fn view(&self) -> TagView {
        TagView {
            key: self.key@,
            value: match self.value {
                Some(v) => Some(v@),
                None => None,
            },
        }
    }
}

impl View for Record {
    type V = RecordView;

    open spec fn view(&self) -> RecordView {
        RecordView {
            partition_key_index: self.partition_key_index,
            explicit_hash_key_index: self.explicit_hash_key_index,
            data: self.data@,
            tags: self.tags@.map_values(|t: Tag| t@),
        }
    }
}

impl View for AggregatedRecord {
    type V = MessageView;

    open spec fn view(&self) -> MessageView {
        MessageView {
            partition_key_table: self.partition_key_table@.map_values(|s: String| s@),
            explicit_hash_key_table: self.explicit_hash_key_table@.map_values(|s: String| s@),
            records: self.records@.map_values(|r: Record| r@),
        }
    }
}

/// The view of an optional string.
pub open spec fn opt_string_view(v: Option<String>) -> Option<Seq<char>> {
    match v {
        Some(s) => Some(s@),
        None => None,
    }
}

pub open spec fn tag_view_default() -> TagView {
    TagView { key: Seq::empty(), value: None }
}

pub open spec fn record_view_default() -> RecordView {
    RecordView {
        partition_key_index: 0,
        explicit_hash_key_index: None,
        data: Seq::empty(),
        tags: Seq::empty(),
    }
}

pub open spec fn message_view_empty() -> MessageView {
    MessageView {
        partition_key_table: Seq::empty(),
        explicit_hash_key_table: Seq::empty(),
        records: Seq::empty(),
    }
}

// ------------------------------------------------------------------
// Varints
// ------------------------------------------------------------------

/// The little-endian base-128 varint encoding of `v`: seven bits per byte,
/// low bits first, the high bit of each byte set while more bytes follow.
pub open spec fn spec_varint(v: nat) -> Seq<u8>
    decreases v,
{
    if v < 128 {
        seq![v as u8]
    } else {
        seq![(v % 128 + 128) as u8] + spec_varint(v / 128)
    }
}

pub proof fn lemma_varint_len(v: nat)
    ensures
        spec_varint(v).len() >= 1,
{
}

/// Reads one varint from the front of `b`: the value and the remaining bytes.
pub open spec fn parse_varint(b: Seq<u8>) -> Option<(nat, Seq<u8>)>
    decreases b.len(),
{
    if b.len() == 0 {
        None
    } else if b[0] < 128 {
        Some((b[0] as nat, b.drop_first()))
    } else {
        match parse_varint(b.drop_first()) {
            Some(r) => Some((((b[0] - 128) + 128 * r.0) as nat, r.1)),
            None => None,
        }
    }
}

/// Reading a varint undoes writing one, whatever follows it.
pub proof fn lemma_parse_spec_varint(v: nat, rest: Seq<u8>)
    ensures
        parse_varint(spec_varint(v) + rest) == Some((v, rest)),
    decreases v,
{
    let b = spec_varint(v) + rest;
    if v < 128 {
        assert(b[0] == v as u8);
        assert(b.drop_first() =~= rest);
    } else {
        assert(b[0] == (v % 128 + 128) as u8);
        assert(b.drop_first() =~= spec_varint(v / 128) + rest);
        lemma_parse_spec_varint(v / 128, rest);
        lemma_fundamental_div_mod(v as int, 128);
    }
}

/// A parsed varint consumed at least one byte.
pub proof fn lemma_parse_varint_shrinks(b: Seq<u8>)
    ensures
        parse_varint(b) matches Some(r) ==> r.1.len() < b.len(),
    decreases b.len(),
{
    if b.len() > 0 && b[0] >= 128 {
        lemma_parse_varint_shrinks(b.drop_first());
    }
}

/// Appends the varint encoding of `v` to `out`.
pub fn write_varint(out: &mut Vec<u8>, v: u64)
    ensures
        final(out)@ == old(out)@ + spec_varint(v as nat),
{
    let mut x = v;
    while x >= 128
        invariant
            out@ + spec_varint(x as nat) == old(out)@ + spec_varint(v as nat),
        decreases x,
    {
        let ghost pre = out@;
        out.push((x % 128 + 128) as u8);
        proof {
            assert(out@ + spec_varint((x / 128) as nat) =~= pre + spec_varint(x as nat));
        }
        x = x / 128;
    }
    out.push(x as u8);
    proof {
        assert(final(out)@ =~= old(out)@ + spec_varint(v as nat));
    }
}

/// Reads one varint at byte offset `pos`; fails on truncated input and on
/// values that overflow 64 bits.
pub fn read_varint(b: &Vec<u8>, pos: usize) -> (r: Option<(u64, usize)>)
    requires
        pos <= b.len(),
    ensures
        (match r {
            Some(vp) => pos < vp.1 <= b@.len() && parse_varint(b@.skip(pos as int))
                == Some((vp.0 as nat, b@.skip(vp.1 as int))),
            None => (match parse_varint(b@.skip(pos as int)) {
                Some(x) => x.0 > u64::MAX,
                None => true,
            }),
        }),
    decreases b.len() - pos,
{
    let ghost s = b@.skip(pos as int);
    if pos == b.len() {
        proof {
            assert(s =~= Seq::<u8>::empty());
        }
        None
    } else {
        let byte = b[pos];
        proof {
            assert(s[0] == b@[pos as int]);
            assert(s.drop_first() =~= b@.skip(pos as int + 1));
        }
        if byte < 128 {
            Some((byte as u64, pos + 1))
        } else {
            match read_varint(b, pos + 1) {
                None => None,
                Some((v, p)) => {
                    let low = (byte - 128) as u64;
                    let cap = (u64::MAX - low) / 128;
                    if v <= cap {
                        proof {
                            lemma_fundamental_div_mod((u64::MAX - low) as int, 128);
                        }
                        Some((low + 128 * v, p))
                    } else {
                        proof {
                            lemma_fundamental_div_mod((u64::MAX - low) as int, 128);
                        }
                        None
                    }
                },
            }
        }
    }
}

// ------------------------------------------------------------------
// Length-delimited payloads
// ------------------------------------------------------------------

/// Reads a varint length followed by that many payload bytes: the payload
/// and the remaining bytes.
pub open spec fn parse_bytes(b: Seq<u8>) -> Option<(Seq<u8>, Seq<u8>)> {
    match parse_varint(b) {
        None => None,
        Some(r) => if r.0 <= r.1.len() {
            Some((r.1.take(r.0 as int), r.1.skip(r.0 as int)))
        } else {
            None
        },
    }
}

/// The length-then-payload encoding that `parse_bytes` undoes.
pub open spec fn spec_len_prefixed(p: Seq<u8>) -> Seq<u8> {
    spec_varint(p.len()) + p
}

pub proof fn lemma_parse_bytes(p: Seq<u8>, rest: Seq<u8>)
    ensures
        parse_bytes(spec_len_prefixed(p) + rest) == Some((p, rest)),
{
    assert(spec_len_prefixed(p) + rest =~= spec_varint(p.len()) + (p + rest));
    lemma_parse_spec_varint(p.len(), p + rest);
    assert((p + rest).take(p.len() as int) =~= p);
    assert((p + rest).skip(p.len() as int) =~= rest);
}

/// Copies `b[from..to]` into a fresh vector.
fn copy_range(b: &Vec<u8>, from: usize, to: usize) -> (r: Vec<u8>)
    requires
        from <= to <= b.len(),
    ensures
        r@ == b@.subrange(from as int, to as int),
{
    let mut out: Vec<u8> = Vec::new();
    let mut i = from;
    while i < to
        invariant
            from <= i <= to <= b.len(),
            out@ == b@.subrange(from as int, i as int),
        decreases to - i,
    {
        let ghost pre = out@;
        out.push(b[i]);
        i += 1;
        proof {
            assert(out@ =~= b@.subrange(from as int, i as int));
        }
    }
    out
}

/// Reads one length-delimited payload at byte offset `pos`.
pub fn read_len_payload(b: &Vec<u8>, pos: usize) -> (r: Option<(Vec<u8>, usize)>)
    requires
        pos <= b.len(),
    ensures
        (match r {
            Some(vp) => pos < vp.1 <= b@.len() && parse_bytes(b@.skip(pos as int))
                == Some((vp.0@, b@.skip(vp.1 as int))),
            None => parse_bytes(b@.skip(pos as int)) is None,
        }),
{
    let ghost s = b@.skip(pos as int);
    match read_varint(b, pos) {
        None => {
            // Either no varint parses here, or its value exceeds `u64::MAX`;
            // in the latter case it also exceeds every possible payload length.
            proof {
                vstd::std_specs::vec::axiom_spec_len(b);
                lemma_parse_varint_shrinks(s);
            }
            None
        },
        Some((len, p)) => {
            let avail = b.len() - p;
            if len > avail as u64 {
                None
            } else {
                let len_us = len as usize;
                let payload = copy_range(b, p, p + len_us);
                proof {
                    assert(b@.skip(p as int).take(len as int) =~= b@.subrange(
                        p as int,
                        p as int + len as int,
                    ));
                    assert(b@.skip(p as int).skip(len as int) =~= b@.skip(p as int + len as int));
                    let r = parse_varint(s)->Some_0;
                    assert(r.0 == len as nat && r.1 == b@.skip(p as int));
                    assert(r.0 <= r.1.len());
                    assert(parse_bytes(s) == Some((r.1.take(r.0 as int), r.1.skip(r.0 as int))));
                    assert(payload@ == r.1.take(r.0 as int));
                    assert(b@.skip((p + len_us) as int) == r.1.skip(r.0 as int));
                }
                Some((payload, p + len_us))
            }
        },
    }
}

// ------------------------------------------------------------------
// Encoding
//
// Field numbers are fixed. A field is encoded as a varint key
// `field_number * 8 + wire_type` (wire type 0 for varints, 2 for
// length-delimited payloads) followed by its content.
// ------------------------------------------------------------------

/// Tag message: field 1 the key string, field 2 the optional value string.
pub open spec fn spec_encode_tag(t: TagView) -> Seq<u8> {
    spec_varint(10) + spec_len_prefixed(encode_utf8(t.key)) + (match t.value {
        Some(v) => spec_varint(18) + spec_len_prefixed(encode_utf8(v)),
        None => Seq::empty(),
    })
}

/// The tags of a record, each as field 4 of the record message.
pub open spec fn spec_encode_tags(ts: Seq<TagView>) -> Seq<u8>
    decreases ts.len(),
{
    if ts.len() == 0 {
        Seq::empty()
    } else {
        spec_varint(34) + spec_len_prefixed(spec_encode_tag(ts[0])) + spec_encode_tags(
            ts.drop_first(),
        )
    }
}

/// Record message: field 1 the partition-key index, field 2 the optional
/// explicit-hash-key index, field 3 the payload bytes, field 4 the tags.
pub open spec fn spec_encode_record(r: RecordView) -> Seq<u8> {
    spec_varint(8) + spec_varint(r.partition_key_index as nat) + (
    match r.explicit_hash_key_index {
        Some(i) => spec_varint(16) + spec_varint(i as nat),
        None => Seq::empty(),
    }) + spec_varint(26) + spec_len_prefixed(r.data) + spec_encode_tags(r.tags)
}

/// A key table, each entry as one length-delimited string field with the
/// given field key (`10` for partition keys, `18` for explicit hash keys).
pub open spec fn spec_encode_key_table(key: nat, keys: Seq<Seq<char>>) -> Seq<u8>
    decreases keys.len(),
{
    if keys.len() == 0 {
        Seq::empty()
    } else {
        spec_varint(key) + spec_len_prefixed(encode_utf8(keys[0])) + spec_encode_key_table(
            key,
            keys.drop_first(),
        )
    }
}

/// The records of a message, each as field 3 of the aggregated message.
pub open spec fn spec_encode_records(rs: Seq<RecordView>) -> Seq<u8>
    decreases rs.len(),
{
    if rs.len() == 0 {
        Seq::empty()
    } else {
        spec_varint(26) + spec_len_prefixed(spec_encode_record(rs[0])) + spec_encode_records(
            rs.drop_first(),
        )
    }
}

/// Aggregated message: field 1 the partition-key table, field 2 the
/// explicit-hash-key table, field 3 the records.
pub open spec fn spec_encode_message(m: MessageView) -> Seq<u8> {
    spec_encode_key_table(10, m.partition_key_table) + spec_encode_key_table(
        18,
        m.explicit_hash_key_table,
    ) + spec_encode_records(m.records)
}

pub proof fn lemma_encode_key_table_app(key: nat, a: Seq<Seq<char>>, b: Seq<Seq<char>>)
    ensures
        spec_encode_key_table(key, a + b) == spec_encode_key_table(key, a)
            + spec_encode_key_table(key, b),
    decreases a.len(),
{
    if a.len() == 0 {
        assert(a + b =~= b);
        assert(spec_encode_key_table(key, a + b) =~= spec_encode_key_table(key, a)
            + spec_encode_key_table(key, b));
    } else {
        assert((a + b).drop_first() =~= a.drop_first() + b);
        lemma_encode_key_table_app(key, a.drop_first(), b);
        assert(spec_encode_key_table(key, a + b) =~= spec_encode_key_table(key, a)
            + spec_encode_key_table(key, b));
    }
}

pub proof fn lemma_encode_tags_app(a: Seq<TagView>, b: Seq<TagView>)
    ensures
        spec_encode_tags(a + b) == spec_encode_tags(a) + spec_encode_tags(b),
    decreases a.len(),
{
    if a.len() == 0 {
        assert(a + b =~= b);
        assert(spec_encode_tags(a + b) =~= spec_encode_tags(a) + spec_encode_tags(b));
    } else {
        assert((a + b).drop_first() =~= a.drop_first() + b);
        lemma_encode_tags_app(a.drop_first(), b);
        assert(spec_encode_tags(a + b) =~= spec_encode_tags(a) + spec_encode_tags(b));
    }
}

pub proof fn lemma_encode_records_app(a: Seq<RecordView>, b: Seq<RecordView>)
    ensures
        spec_encode_records(a + b) == spec_encode_records(a) + spec_encode_records(b),
    decreases a.len(),
{
    if a.len() == 0 {
        assert(a + b =~= b);
        assert(spec_encode_records(a + b) =~= spec_encode_records(a) + spec_encode_records(b));
    } else {
        assert((a + b).drop_first() =~= a.drop_first() + b);
        lemma_encode_records_app(a.drop_first(), b);
        assert(spec_encode_records(a + b) =~= spec_encode_records(a) + spec_encode_records(b));
    }
}

pub proof fn lemma_encode_key_table_singleton(key: nat, k: Seq<char>)
    ensures
        spec_encode_key_table(key, seq![k]) == spec_varint(key) + spec_len_prefixed(
            encode_utf8(k),
        ),
{
    assert(seq![k].drop_first() =~= Seq::<Seq<char>>::empty());
    assert(spec_encode_key_table(key, Seq::<Seq<char>>::empty()) == Seq::<u8>::empty());
    assert(spec_encode_key_table(key, seq![k]) =~= spec_varint(key) + spec_len_prefixed(
        encode_utf8(k),
    ));
}

pub proof fn lemma_encode_tags_singleton(t: TagView)
    ensures
        spec_encode_tags(seq![t]) == spec_varint(34) + spec_len_prefixed(spec_encode_tag(t)),
{
    assert(seq![t].drop_first() =~= Seq::<TagView>::empty());
    assert(spec_encode_tags(Seq::<TagView>::empty()) == Seq::<u8>::empty());
    assert(spec_encode_tags(seq![t]) =~= spec_varint(34) + spec_len_prefixed(spec_encode_tag(t)));
}

pub proof fn lemma_encode_records_singleton(r: RecordView)
    ensures
        spec_encode_records(seq![r]) == spec_varint(26) + spec_len_prefixed(spec_encode_record(r)),
{
    assert(seq![r].drop_first() =~= Seq::<RecordView>::empty());
    assert(spec_encode_records(Seq::<RecordView>::empty()) == Seq::<u8>::empty());
    assert(spec_encode_records(seq![r]) =~= spec_varint(26) + spec_len_prefixed(
        spec_encode_record(r),
    ));
}

/// Appends a varint length header followed by the payload itself.
fn write_len_prefixed(out: &mut Vec<u8>, payload: &[u8])
    ensures
        final(out)@ == old(out)@ + spec_len_prefixed(payload@),
{
    write_varint(out, payload.len() as u64);
    let ghost mid = out@;
    out.extend_from_slice(payload);
    proof {
        assert(out@ =~= mid + payload@);
        assert(final(out)@ =~= old(out)@ + spec_len_prefixed(payload@));
    }
}

/// Appends one length-delimited string field: the field key, then the
/// length of the string's byte encoding, then those bytes.
fn write_string_field(out: &mut Vec<u8>, key: u64, s: &String)
    ensures
        final(out)@ == old(out)@ + spec_varint(key as nat) + spec_len_prefixed(encode_utf8(s@)),
{
    write_varint(out, key);
    let bytes = s.as_str().as_bytes();
    write_len_prefixed(out, bytes);
}

/// Builds the encoding of one tag message.
fn encode_tag_payload(t: &Tag) -> (r: Vec<u8>)
    ensures
        r@ == spec_encode_tag(t@),
{
    let mut out: Vec<u8> = Vec::new();
    write_string_field(&mut out, 10, &t.key);
    match &t.value {
        Some(v) => {
            write_string_field(&mut out, 18, v);
        },
        None => {},
    }
    proof {
        assert(out@ =~= spec_encode_tag(t@));
    }
    out
}

/// Builds the encoding of one record message.
fn encode_record_payload(r: &Record) -> (out: Vec<u8>)
    ensures
        out@ == spec_encode_record(r@),
{
    let mut out: Vec<u8> = Vec::new();
    write_varint(&mut out, 8);
    write_varint(&mut out, r.partition_key_index);
    match r.explicit_hash_key_index {
        Some(i) => {
            write_varint(&mut out, 16);
            write_varint(&mut out, i);
        },
        None => {},
    }
    write_varint(&mut out, 26);
    write_len_prefixed(&mut out, r.data.as_slice());
    let ghost head = out@;
    proof {
        assert(head =~= spec_varint(8) + spec_varint(r@.partition_key_index as nat) + (
        match r@.explicit_hash_key_index {
            Some(i) => spec_varint(16) + spec_varint(i as nat),
            None => Seq::<u8>::empty(),
        }) + spec_varint(26) + spec_len_prefixed(r@.data));
    }
    let mut j: usize = 0;
    while j < r.tags.len()
        invariant
            j <= r.tags.len(),
            out@ == head + spec_encode_tags(r@.tags.take(j as int)),
        decreases r.tags.len() - j,
    {
        let ghost pre = out@;
        let tag_bytes = encode_tag_payload(&r.tags[j]);
        write_varint(&mut out, 34);
        write_len_prefixed(&mut out, tag_bytes.as_slice());
        proof {
            let ts = r@.tags;
            assert(ts.take(j + 1) =~= ts.take(j as int) + seq![ts[j as int]]);
            lemma_encode_tags_app(ts.take(j as int), seq![ts[j as int]]);
            lemma_encode_tags_singleton(ts[j as int]);
            assert(out@ =~= head + spec_encode_tags(ts.take(j + 1)));
        }
        j += 1;
    }
    proof {
        assert(r@.tags.take(r.tags@.len() as int) =~= r@.tags);
        assert(out@ =~= spec_encode_record(r@));
    }
    out
}

impl AggregatedRecord {
    /// Encodes the whole aggregated message into its wire bytes.
    pub fn encode(&self) -> (out: Vec<u8>)
        ensures
            out@ == spec_encode_message(self@),
    {
        let mut out: Vec<u8> = Vec::new();
        let mut i: usize = 0;
        while i < self.partition_key_table.len()
            invariant
                i <= self.partition_key_table.len(),
                out@ == spec_encode_key_table(10, self@.partition_key_table.take(i as int)),
            decreases self.partition_key_table.len() - i,
        {
            write_string_field(&mut out, 10, &self.partition_key_table[i]);
            proof {
                let ks = self@.partition_key_table;
                assert(ks.take(i + 1) =~= ks.take(i as int) + seq![ks[i as int]]);
                lemma_encode_key_table_app(10, ks.take(i as int), seq![ks[i as int]]);
                lemma_encode_key_table_singleton(10, ks[i as int]);
                assert(out@ =~= spec_encode_key_table(10, ks.take(i + 1)));
            }
            i += 1;
        }
        let ghost part1 = out@;
        proof {
            assert(self@.partition_key_table.take(self.partition_key_table@.len() as int)
                =~= self@.partition_key_table);
        }
        let mut i: usize = 0;
        while i < self.explicit_hash_key_table.len()
            invariant
                i <= self.explicit_hash_key_table.len(),
                out@ == part1 + spec_encode_key_table(
                    18,
                    self@.explicit_hash_key_table.take(i as int),
                ),
            decreases self.explicit_hash_key_table.len() - i,
        {
            write_string_field(&mut out, 18, &self.explicit_hash_key_table[i]);
            proof {
                let ks = self@.explicit_hash_key_table;
                assert(ks.take(i + 1) =~= ks.take(i as int) + seq![ks[i as int]]);
                lemma_encode_key_table_app(18, ks.take(i as int), seq![ks[i as int]]);
                lemma_encode_key_table_singleton(18, ks[i as int]);
                assert(out@ =~= part1 + spec_encode_key_table(18, ks.take(i + 1)));
            }
            i += 1;
        }
        let ghost part2 = out@;
        proof {
            assert(self@.explicit_hash_key_table.take(self.explicit_hash_key_table@.len() as int)
                =~= self@.explicit_hash_key_table);
        }
        let mut i: usize = 0;
        while i < self.records.len()
            invariant
                i <= self.records.len(),
                out@ == part2 + spec_encode_records(self@.records.take(i as int)),
            decreases self.records.len() - i,
        {
            let rec_bytes = encode_record_payload(&self.records[i]);
            write_varint(&mut out, 26);
            write_len_prefixed(&mut out, rec_bytes.as_slice());
            proof {
                let rs = self@.records;
                assert(rs.take(i + 1) =~= rs.take(i as int) + seq![rs[i as int]]);
                lemma_encode_records_app(rs.take(i as int), seq![rs[i as int]]);
                lemma_encode_records_singleton(rs[i as int]);
                assert(out@ =~= part2 + spec_encode_records(rs.take(i + 1)));
            }
            i += 1;
        }
        proof {
            assert(self@.records.take(self.records@.len() as int) =~= self@.records);
            assert(out@ =~= spec_encode_message(self@));
        }
        out
    }
}

// ------------------------------------------------------------------
// Decoding
//
// Each parser walks the fields of one message, folding them into an
// accumulator that starts from the default value; a message is the fields
// it carries, repeated fields appending in order. The `len() < b.len()`
// guards make termination evident; they hold whenever a field was consumed.
// ------------------------------------------------------------------

pub open spec fn spec_parse_tag_fields(b: Seq<u8>, acc: TagView) -> Option<TagView>
    decreases b.len(),
{
    if b.len() == 0 {
        Some(acc)
    } else {
        match parse_varint(b) {
            None => None,
            Some(t) => if t.0 == 10 {
                match parse_bytes(t.1) {
                    None => None,
                    Some(pr) => if valid_utf8(pr.0) && pr.1.len() < b.len() {
                        spec_parse_tag_fields(pr.1, TagView { key: decode_utf8(pr.0), ..acc })
                    } else {
                        None
                    },
                }
            } else if t.0 == 18 {
                match parse_bytes(t.1) {
                    None => None,
                    Some(pr) => if valid_utf8(pr.0) && pr.1.len() < b.len() {
                        spec_parse_tag_fields(
                            pr.1,
                            TagView { value: Some(decode_utf8(pr.0)), ..acc },
                        )
                    } else {
                        None
                    },
                }
            } else {
                None
            },
        }
    }
}

pub open spec fn spec_parse_record_fields(b: Seq<u8>, acc: RecordView) -> Option<RecordView>
    decreases b.len(),
{
    if b.len() == 0 {
        Some(acc)
    } else {
        match parse_varint(b) {
            None => None,
            Some(t) => if t.0 == 8 {
                match parse_varint(t.1) {
                    None => None,
                    Some(v) => if v.0 <= u64::MAX && v.1.len() < b.len() {
                        spec_parse_record_fields(
                            v.1,
                            RecordView { partition_key_index: v.0 as u64, ..acc },
                        )
                    } else {
                        None
                    },
                }
            } else if t.0 == 16 {
                match parse_varint(t.1) {
                    None => None,
                    Some(v) => if v.0 <= u64::MAX && v.1.len() < b.len() {
                        spec_parse_record_fields(
                            v.1,
                            RecordView { explicit_hash_key_index: Some(v.0 as u64), ..acc },
                        )
                    } else {
                        None
                    },
                }
            } else if t.0 == 26 {
                match parse_bytes(t.1) {
                    None => None,
                    Some(pr) => if pr.1.len() < b.len() {
                        spec_parse_record_fields(pr.1, RecordView { data: pr.0, ..acc })
                    } else {
                        None
                    },
                }
            } else if t.0 == 34 {
                match parse_bytes(t.1) {
                    None => None,
                    Some(pr) => match spec_parse_tag_fields(pr.0, tag_view_default()) {
                        None => None,
                        Some(tv) => if pr.1.len() < b.len() {
                            spec_parse_record_fields(
                                pr.1,
                                RecordView { tags: acc.tags.push(tv), ..acc },
                            )
                        } else {
                            None
                        },
                    },
                }
            } else {
                None
            },
        }
    }
}

pub open spec fn spec_parse_message_fields(b: Seq<u8>, acc: MessageView) -> Option<MessageView>
    decreases b.len(),
{
    if b.len() == 0 {
        Some(acc)
    } else {
        match parse_varint(b) {
            None => None,
            Some(t) => if t.0 == 10 {
                match parse_bytes(t.1) {
                    None => None,
                    Some(pr) => if valid_utf8(pr.0) && pr.1.len() < b.len() {
                        spec_parse_message_fields(
                            pr.1,
                            MessageView {
                                partition_key_table: acc.partition_key_table.push(
                                    decode_utf8(pr.0),
                                ),
                                ..acc
                            },
                        )
                    } else {
                        None
                    },
                }
            } else if t.0 == 18 {
                match parse_bytes(t.1) {
                    None => None,
                    Some(pr) => if valid_utf8(pr.0) && pr.1.len() < b.len() {
                        spec_parse_message_fields(
                            pr.1,
                            MessageView {
                                explicit_hash_key_table: acc.explicit_hash_key_table.push(
                                    decode_utf8(pr.0),
                                ),
                                ..acc
                            },
                        )
                    } else {
                        None
                    },
                }
            } else if t.0 == 26 {
                match parse_bytes(t.1) {
                    None => None,
                    Some(pr) => match spec_parse_record_fields(pr.0, record_view_default()) {
                        None => None,
                        Some(rv) => if pr.1.len() < b.len() {
                            spec_parse_message_fields(
                                pr.1,
                                MessageView { records: acc.records.push(rv), ..acc },
                            )
                        } else {
                            None
                        },
                    },
                }
            } else {
                None
            },
        }
    }
}

/// What a byte string means as an aggregated message, if anything.
pub open spec fn spec_parse_message(b: Seq<u8>) -> Option<MessageView> {
    spec_parse_message_fields(b, message_view_empty())
}

// ------------------------------------------------------------------
// Round trip: parsing undoes encoding
// ------------------------------------------------------------------

/// Peels one length-delimited field off the front of a byte string.
proof fn lemma_peel_field(k: nat, p: Seq<u8>, rest: Seq<u8>)
    ensures
        parse_varint(spec_varint(k) + spec_len_prefixed(p) + rest) == Some(
            (k, spec_len_prefixed(p) + rest),
        ),
        parse_bytes(spec_len_prefixed(p) + rest) == Some((p, rest)),
        rest.len() < (spec_varint(k) + spec_len_prefixed(p) + rest).len(),
{
    assert(spec_varint(k) + spec_len_prefixed(p) + rest =~= spec_varint(k) + (spec_len_prefixed(p)
        + rest));
    lemma_parse_spec_varint(k, spec_len_prefixed(p) + rest);
    lemma_parse_bytes(p, rest);
    lemma_varint_len(k);
    lemma_varint_len(p.len());
}

/// Peels one varint field off the front of a byte string.
proof fn lemma_peel_varint_field(k: nat, v: nat, rest: Seq<u8>)
    ensures
        parse_varint(spec_varint(k) + spec_varint(v) + rest) == Some(
            (k, spec_varint(v) + rest),
        ),
        parse_varint(spec_varint(v) + rest) == Some((v, rest)),
        rest.len() < (spec_varint(k) + spec_varint(v) + rest).len(),
{
    assert(spec_varint(k) + spec_varint(v) + rest =~= spec_varint(k) + (spec_varint(v) + rest));
    lemma_parse_spec_varint(k, spec_varint(v) + rest);
    lemma_parse_spec_varint(v, rest);
    lemma_varint_len(k);
    lemma_varint_len(v);
}

pub proof fn lemma_parse_encode_tag(t: TagView)
    ensures
        spec_parse_tag_fields(spec_encode_tag(t), tag_view_default()) == Some(t),
{
    let kb = encode_utf8(t.key);
    encode_utf8_valid_utf8(t.key);
    encode_utf8_decode_utf8(t.key);
    let acc1 = TagView { key: decode_utf8(kb), ..tag_view_default() };
    match t.value {
        None => {
            assert(spec_encode_tag(t) =~= spec_varint(10) + spec_len_prefixed(kb)
                + Seq::<u8>::empty());
            lemma_peel_field(10, kb, Seq::<u8>::empty());
            assert(spec_parse_tag_fields(Seq::<u8>::empty(), acc1) == Some(acc1));
            assert(acc1 == t);
            assert(spec_parse_tag_fields(spec_encode_tag(t), tag_view_default()) == Some(t));
        },
        Some(v) => {
            let vb = encode_utf8(v);
            encode_utf8_valid_utf8(v);
            encode_utf8_decode_utf8(v);
            let rest1 = spec_varint(18) + spec_len_prefixed(vb);
            assert(spec_encode_tag(t) =~= spec_varint(10) + spec_len_prefixed(kb) + rest1);
            lemma_peel_field(10, kb, rest1);
            assert(rest1 =~= spec_varint(18) + spec_len_prefixed(vb) + Seq::<u8>::empty());
            lemma_peel_field(18, vb, Seq::<u8>::empty());
            let acc2 = TagView { value: Some(decode_utf8(vb)), ..acc1 };
            assert(spec_parse_tag_fields(Seq::<u8>::empty(), acc2) == Some(acc2));
            assert(spec_parse_tag_fields(rest1, acc1) == Some(acc2));
            assert(acc2 == t);
            assert(spec_parse_tag_fields(spec_encode_tag(t), tag_view_default()) == Some(t));
        },
    }
}

/// Parsing a run of encoded tag fields appends those tags, in order.
proof fn lemma_parse_record_tags(ts: Seq<TagView>, acc: RecordView)
    ensures
        spec_parse_record_fields(spec_encode_tags(ts), acc) == Some(
            (RecordView { tags: acc.tags + ts, ..acc }),
        ),
    decreases ts.len(),
{
    if ts.len() == 0 {
        assert(acc.tags + ts =~= acc.tags);
        assert(RecordView { tags: acc.tags + ts, ..acc } == acc);
    } else {
        let t0 = ts[0];
        let tp = spec_encode_tag(t0);
        let rest = spec_encode_tags(ts.drop_first());
        let b = spec_encode_tags(ts);
        assert(b =~= spec_varint(34) + spec_len_prefixed(tp) + rest);
        lemma_peel_field(34, tp, rest);
        lemma_parse_encode_tag(t0);
        let acc1 = RecordView { tags: acc.tags.push(t0), ..acc };
        lemma_parse_record_tags(ts.drop_first(), acc1);
        assert(acc1.tags + ts.drop_first() =~= acc.tags + ts);
        assert(RecordView { tags: acc1.tags + ts.drop_first(), ..acc1 } == (RecordView {
            tags: acc.tags + ts,
            ..acc
        }));
        assert(spec_parse_record_fields(b, acc) == Some(
            (RecordView { tags: acc.tags + ts, ..acc }),
        ));
    }
}

pub proof fn lemma_parse_encode_record(r: RecordView)
    ensures
        spec_parse_record_fields(spec_encode_record(r), record_view_default()) == Some(r),
{
    let b = spec_encode_record(r);
    let pk = r.partition_key_index as nat;
    let ehk_enc = match r.explicit_hash_key_index {
        Some(i) => spec_varint(16) + spec_varint(i as nat),
        None => Seq::<u8>::empty(),
    };
    let tail3 = spec_varint(26) + spec_len_prefixed(r.data) + spec_encode_tags(r.tags);
    let rest1 = ehk_enc + tail3;
    assert(b =~= spec_varint(8) + spec_varint(pk) + rest1);
    lemma_peel_varint_field(8, pk, rest1);
    let acc1 = RecordView { partition_key_index: r.partition_key_index, ..record_view_default() };
    let acc2 = match r.explicit_hash_key_index {
        Some(i) => RecordView { explicit_hash_key_index: Some(i), ..acc1 },
        None => acc1,
    };
    match r.explicit_hash_key_index {
        Some(i) => {
            assert(rest1 =~= spec_varint(16) + spec_varint(i as nat) + tail3);
            lemma_peel_varint_field(16, i as nat, tail3);
            assert(spec_parse_record_fields(rest1, acc1) == spec_parse_record_fields(
                tail3,
                acc2,
            ));
        },
        None => {
            assert(rest1 =~= tail3);
        },
    }
    assert(tail3 =~= spec_varint(26) + spec_len_prefixed(r.data) + spec_encode_tags(r.tags));
    lemma_peel_field(26, r.data, spec_encode_tags(r.tags));
    let acc3 = RecordView { data: r.data, ..acc2 };
    lemma_parse_record_tags(r.tags, acc3);
    assert(acc3.tags + r.tags =~= r.tags);
    assert(RecordView { tags: acc3.tags + r.tags, ..acc3 } == r);
    assert(spec_parse_record_fields(tail3, acc2) == Some(r));
    assert(spec_parse_record_fields(b, record_view_default()) == Some(r));
}

/// Parsing a run of encoded partition-key fields appends those keys, in
/// order, and goes on with whatever follows.
proof fn lemma_parse_message_pk_table(ks: Seq<Seq<char>>, suffix: Seq<u8>, acc: MessageView)
    ensures
        spec_parse_message_fields(spec_encode_key_table(10, ks) + suffix, acc)
            == spec_parse_message_fields(
            suffix,
            MessageView { partition_key_table: acc.partition_key_table + ks, ..acc },
        ),
    decreases ks.len(),
{
    if ks.len() == 0 {
        assert(spec_encode_key_table(10, ks) + suffix =~= suffix);
        assert(acc.partition_key_table + ks =~= acc.partition_key_table);
        assert(MessageView { partition_key_table: acc.partition_key_table + ks, ..acc } == acc);
    } else {
        let k0 = ks[0];
        let kb = encode_utf8(k0);
        let rest = spec_encode_key_table(10, ks.drop_first()) + suffix;
        let b = spec_encode_key_table(10, ks) + suffix;
        assert(b =~= spec_varint(10) + spec_len_prefixed(kb) + rest);
        lemma_peel_field(10, kb, rest);
        encode_utf8_valid_utf8(k0);
        encode_utf8_decode_utf8(k0);
        let acc1 = MessageView {
            partition_key_table: acc.partition_key_table.push(k0),
            ..acc
        };
        lemma_parse_message_pk_table(ks.drop_first(), suffix, acc1);
        assert(acc1.partition_key_table + ks.drop_first() =~= acc.partition_key_table + ks);
        assert(MessageView {
            partition_key_table: acc1.partition_key_table + ks.drop_first(),
            ..acc1
        } == (MessageView { partition_key_table: acc.partition_key_table + ks, ..acc }));
        assert(spec_parse_message_fields(b, acc) == spec_parse_message_fields(
            suffix,
            MessageView { partition_key_table: acc.partition_key_table + ks, ..acc },
        ));
    }
}

/// The same for explicit-hash-key fields.
proof fn lemma_parse_message_ehk_table(ks: Seq<Seq<char>>, suffix: Seq<u8>, acc: MessageView)
    ensures
        spec_parse_message_fields(spec_encode_key_table(18, ks) + suffix, acc)
            == spec_parse_message_fields(
            suffix,
            MessageView { explicit_hash_key_table: acc.explicit_hash_key_table + ks, ..acc },
        ),
    decreases ks.len(),
{
    if ks.len() == 0 {
        assert(spec_encode_key_table(18, ks) + suffix =~= suffix);
        assert(acc.explicit_hash_key_table + ks =~= acc.explicit_hash_key_table);
        assert(MessageView { explicit_hash_key_table: acc.explicit_hash_key_table + ks, ..acc }
            == acc);
    } else {
        let k0 = ks[0];
        let kb = encode_utf8(k0);
        let rest = spec_encode_key_table(18, ks.drop_first()) + suffix;
        let b = spec_encode_key_table(18, ks) + suffix;
        assert(b =~= spec_varint(18) + spec_len_prefixed(kb) + rest);
        lemma_peel_field(18, kb, rest);
        encode_utf8_valid_utf8(k0);
        encode_utf8_decode_utf8(k0);
        let acc1 = MessageView {
            explicit_hash_key_table: acc.explicit_hash_key_table.push(k0),
            ..acc
        };
        lemma_parse_message_ehk_table(ks.drop_first(), suffix, acc1);
        assert(acc1.explicit_hash_key_table + ks.drop_first() =~= acc.explicit_hash_key_table
            + ks);
        assert(MessageView {
            explicit_hash_key_table: acc1.explicit_hash_key_table + ks.drop_first(),
            ..acc1
        } == (MessageView {
            explicit_hash_key_table: acc.explicit_hash_key_table + ks,
            ..acc
        }));
        assert(spec_parse_message_fields(b, acc) == spec_parse_message_fields(
            suffix,
            MessageView { explicit_hash_key_table: acc.explicit_hash_key_table + ks, ..acc },
        ));
    }
}

/// Parsing a run of encoded record fields appends those records, in order.
proof fn lemma_parse_message_records(rs: Seq<RecordView>, acc: MessageView)
    ensures
        spec_parse_message_fields(spec_encode_records(rs), acc) == Some(
            (MessageView { records: acc.records + rs, ..acc }),
        ),
    decreases rs.len(),
{
    if rs.len() == 0 {
        assert(acc.records + rs =~= acc.records);
        assert(MessageView { records: acc.records + rs, ..acc } == acc);
    } else {
        let r0 = rs[0];
        let rp = spec_encode_record(r0);
        let rest = spec_encode_records(rs.drop_first());
        let b = spec_encode_records(rs);
        assert(b =~= spec_varint(26) + spec_len_prefixed(rp) + rest);
        lemma_peel_field(26, rp, rest);
        lemma_parse_encode_record(r0);
        let acc1 = MessageView { records: acc.records.push(r0), ..acc };
        lemma_parse_message_records(rs.drop_first(), acc1);
        assert(acc1.records + rs.drop_first() =~= acc.records + rs);
        assert(MessageView { records: acc1.records + rs.drop_first(), ..acc1 } == (MessageView {
            records: acc.records + rs,
            ..acc
        }));
        assert(spec_parse_message_fields(b, acc) == Some(
            (MessageView { records: acc.records + rs, ..acc }),
        ));
    }
}

/// Round trip: parsing an encoded message reproduces the original key
/// tables and records, in their original order.
pub proof fn lemma_parse_encode_message(m: MessageView)
    ensures
        spec_parse_message(spec_encode_message(m)) == Some(m),
{
    let e1 = spec_encode_key_table(10, m.partition_key_table);
    let e2 = spec_encode_key_table(18, m.explicit_hash_key_table);
    let e3 = spec_encode_records(m.records);
    let acc0 = message_view_empty();
    assert(spec_encode_message(m) =~= e1 + (e2 + e3));
    lemma_parse_message_pk_table(m.partition_key_table, e2 + e3, acc0);
    let acc1 = MessageView {
        partition_key_table: acc0.partition_key_table + m.partition_key_table,
        ..acc0
    };
    lemma_parse_message_ehk_table(m.explicit_hash_key_table, e3, acc1);
    let acc2 = MessageView {
        explicit_hash_key_table: acc1.explicit_hash_key_table + m.explicit_hash_key_table,
        ..acc1
    };
    lemma_parse_message_records(m.records, acc2);
    assert(acc0.partition_key_table + m.partition_key_table =~= m.partition_key_table);
    assert(acc1.explicit_hash_key_table + m.explicit_hash_key_table
        =~= m.explicit_hash_key_table);
    assert(acc2.records + m.records =~= m.records);
    assert(MessageView { records: acc2.records + m.records, ..acc2 } == m);
}

// ------------------------------------------------------------------
// The executable decoder
// ------------------------------------------------------------------

/// Decoding failed: the bytes are not a well-formed aggregated message.
#[derive(Debug, Clone, Copy, PartialEq, Eq)]
pub struct DecodeError;

/// Relies on `String::from_utf8`: yields the string whose UTF-8 encoding is
/// the given bytes, and nothing when the bytes are not valid UTF-8.
#[verifier::external_body]
fn string_from_utf8(v: Vec<u8>) -> (r: Option<String>)
    ensures
        r is Some <==> valid_utf8(v@),
        r is Some ==> r->Some_0@ == decode_utf8(v@),
{
    String::from_utf8(v).ok()
}

/// Decodes the payload of one tag message.
fn decode_tag_payload(b: &Vec<u8>) -> (r: Option<Tag>)
    ensures
        (match r {
            Some(t) => spec_parse_tag_fields(b@, tag_view_default()) == Some(t@),
            None => spec_parse_tag_fields(b@, tag_view_default()) is None,
        }),
{
    let mut key = String::new();
    let mut value: Option<String> = None;
    let mut pos: usize = 0;
    proof {
        assert(b@.skip(0) =~= b@);
    }
    while pos < b.len()
        invariant
            pos <= b.len(),
            spec_parse_tag_fields(b@, tag_view_default()) == spec_parse_tag_fields(
                b@.skip(pos as int),
                (TagView { key: key@, value: opt_string_view(value) }),
            ),
        decreases b.len() - pos,
    {
        let ghost s = b@.skip(pos as int);
        let ghost cur = TagView { key: key@, value: opt_string_view(value) };
        match read_varint(b, pos) {
            None => {
                return None;
            },
            Some((k, p1)) => {
                if k == 10 || k == 18 {
                    match read_len_payload(b, p1) {
                        None => {
                            return None;
                        },
                        Some((payload, p2)) => {
                            let ghost pb = payload@;
                            proof {
                                assert(s.skip((p2 - pos) as int) =~= b@.skip(p2 as int));
                                assert(b@.skip(p2 as int).len() < s.len());
                            }
                            match string_from_utf8(payload) {
                                None => {
                                    return None;
                                },
                                Some(txt) => {
                                    if k == 10 {
                                        key = txt;
                                    } else {
                                        value = Some(txt);
                                    }
                                    pos = p2;
                                },
                            }
                        },
                    }
                } else {
                    return None;
                }
            },
        }
    }
    proof {
        assert(b@.skip(pos as int) =~= Seq::<u8>::empty());
    }
    Some(Tag { key, value })
}

/// Decodes the payload of one record message.
fn decode_record_payload(b: &Vec<u8>) -> (r: Option<Record>)
    ensures
        (match r {
            Some(rec) => spec_parse_record_fields(b@, record_view_default()) == Some(rec@),
            None => spec_parse_record_fields(b@, record_view_default()) is None,
        }),
{
    let mut partition_key_index: u64 = 0;
    let mut explicit_hash_key_index: Option<u64> = None;
    let mut data: Vec<u8> = Vec::new();
    let mut tags: Vec<Tag> = Vec::new();
    let mut pos: usize = 0;
    proof {
        assert(b@.skip(0) =~= b@);
        assert(tags@.map_values(|t: Tag| t@) =~= Seq::<TagView>::empty());
    }
    while pos < b.len()
        invariant
            pos <= b.len(),
            spec_parse_record_fields(b@, record_view_default()) == spec_parse_record_fields(
                b@.skip(pos as int),
                (RecordView {
                    partition_key_index,
                    explicit_hash_key_index,
                    data: data@,
                    tags: tags@.map_values(|t: Tag| t@),
                }),
            ),
        decreases b.len() - pos,
    {
        let ghost s = b@.skip(pos as int);
        let ghost cur = RecordView {
            partition_key_index,
            explicit_hash_key_index,
            data: data@,
            tags: tags@.map_values(|t: Tag| t@),
        };
        match read_varint(b, pos) {
            None => {
                return None;
            },
            Some((k, p1)) => {
                if k == 8 || k == 16 {
                    match read_varint(b, p1) {
                        None => {
                            return None;
                        },
                        Some((v, p2)) => {
                            proof {
                                assert(b@.skip(p2 as int).len() < s.len());
                            }
                            if k == 8 {
                                partition_key_index = v;
                            } else {
                                explicit_hash_key_index = Some(v);
                            }
                            pos = p2;
                        },
                    }
                } else if k == 26 {
                    match read_len_payload(b, p1) {
                        None => {
                            return None;
                        },
                        Some((payload, p2)) => {
                            proof {
                                assert(b@.skip(p2 as int).len() < s.len());
                            }
                            data = payload;
                            pos = p2;
                        },
                    }
                } else if k == 34 {
                    match read_len_payload(b, p1) {
                        None => {
                            return None;
                        },
                        Some((payload, p2)) => {
                            proof {
                                assert(b@.skip(p2 as int).len() < s.len());
                            }
                            match decode_tag_payload(&payload) {
                                None => {
                                    return None;
                                },
                                Some(t) => {
                                    let ghost tv = t@;
                                    tags.push(t);
                                    proof {
                                        assert(tags@.map_values(|t: Tag| t@) =~= cur.tags.push(
                                            tv,
                                        ));
                                    }
                                    pos = p2;
                                },
                            }
                        },
                    }
                } else {
                    return None;
                }
            },
        }
    }
    proof {
        assert(b@.skip(pos as int) =~= Seq::<u8>::empty());
    }
    Some(Record { partition_key_index, explicit_hash_key_index, data, tags })
}

impl AggregatedRecord {
    /// Decodes an aggregated message from its wire bytes: the exact inverse
    /// of `encode`. Fails exactly on bytes that no parse of the message
    /// schema accepts.
    pub fn decode(buf: &Vec<u8>) -> (r: Result<AggregatedRecord, DecodeError>)
        ensures
            (match r {
                Ok(m) => spec_parse_message(buf@) == Some(m@),
                Err(_) => spec_parse_message(buf@) is None,
            }),
    {
        let mut partition_key_table: Vec<String> = Vec::new();
        let mut explicit_hash_key_table: Vec<String> = Vec::new();
        let mut records: Vec<Record> = Vec::new();
        let mut pos: usize = 0;
        proof {
            assert(buf@.skip(0) =~= buf@);
            assert(partition_key_table@.map_values(|s: String| s@) =~= Seq::<Seq<char>>::empty());
            assert(explicit_hash_key_table@.map_values(|s: String| s@)
                =~= Seq::<Seq<char>>::empty());
            assert(records@.map_values(|rc: Record| rc@) =~= Seq::<RecordView>::empty());
        }
        while pos < buf.len()
            invariant
                pos <= buf.len(),
                spec_parse_message(buf@) == spec_parse_message_fields(
                    buf@.skip(pos as int),
                    (MessageView {
                        partition_key_table: partition_key_table@.map_values(|s: String| s@),
                        explicit_hash_key_table: explicit_hash_key_table@.map_values(
                            |s: String| s@,
                        ),
                        records: records@.map_values(|rc: Record| rc@),
                    }),
                ),
            decreases buf.len() - pos,
        {
            let ghost s = buf@.skip(pos as int);
            let ghost cur = MessageView {
                partition_key_table: partition_key_table@.map_values(|s: String| s@),
                explicit_hash_key_table: explicit_hash_key_table@.map_values(|s: String| s@),
                records: records@.map_values(|rc: Record| rc@),
            };
            match read_varint(buf, pos) {
                None => {
                    return Err(DecodeError);
                },
                Some((k, p1)) => {
                    if k == 10 || k == 18 {
                        match read_len_payload(buf, p1) {
                            None => {
                                return Err(DecodeError);
                            },
                            Some((payload, p2)) => {
                                let ghost pb = payload@;
                                proof {
                                    assert(buf@.skip(p2 as int).len() < s.len());
                                }
                                match string_from_utf8(payload) {
                                    None => {
                                        return Err(DecodeError);
                                    },
                                    Some(txt) => {
                                        let ghost tv = txt@;
                                        if k == 10 {
                                            partition_key_table.push(txt);
                                            proof {
                                                assert(partition_key_table@.map_values(
                                                    |s: String| s@,
                                                ) =~= cur.partition_key_table.push(tv));
                                            }
                                        } else {
                                            explicit_hash_key_table.push(txt);
                                            proof {
                                                assert(explicit_hash_key_table@.map_values(
                                                    |s: String| s@,
                                                ) =~= cur.explicit_hash_key_table.push(tv));
                                            }
                                        }
                                        pos = p2;
                                    },
                                }
                            },
                        }
                    } else if k == 26 {
                        match read_len_payload(buf, p1) {
                            None => {
                                return Err(DecodeError);
                            },
                            Some((payload, p2)) => {
                                proof {
                                    assert(buf@.skip(p2 as int).len() < s.len());
                                }
                                match decode_record_payload(&payload) {
                                    None => {
                                        return Err(DecodeError);
                                    },
                                    Some(rec) => {
                                        let ghost rv = rec@;
                                        records.push(rec);
                                        proof {
                                            assert(records@.map_values(|rc: Record| rc@)
                                                =~= cur.records.push(rv));
                                        }
                                        pos = p2;
                                    },
                                }
                            },
                        }
                    } else {
                        return Err(DecodeError);
                    }
                },
            }
        }
        proof {
            assert(buf@.skip(pos as int) =~= Seq::<u8>::empty());
        }
        Ok(AggregatedRecord { partition_key_table, explicit_hash_key_table, records })
    }
}

} // verus!
