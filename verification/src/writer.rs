//! The writing side of the format: records as bytes, and the context
//! records that a sequence of entries needs so that a replay reads every
//! key in the context it was written in.

use crate::bytes::{be_u32_at, lemma_be_u32_round_trip, u32_be_bytes, write_be_u32};
use crate::codec::{
    parse_record, parse_records, parse_snapshot, sized_bytes_at, Parsed, Record, RecordView,
    FILE_VERSION, MAGIC_MARKER, TAG_ACCOUNT_ID, TAG_COLLECTION, TAG_DOCUMENT_ID, TAG_FAMILY,
    TAG_KEY_ONLY, TAG_KEY_VALUE,
};
use crate::error::RestoreError;
use crate::family::{lemma_family_tag_round_trip, Family};
use crate::ops::views;
use vstd::prelude::*;

verus! {

/// A block of bytes behind its length.
pub open spec fn sized_bytes(b: Seq<u8>) -> Seq<u8> {
    u32_be_bytes(b.len() as u32) + b
}

/// The bytes of one record: its tag, and its fields.
pub open spec fn record_bytes(r: RecordView) -> Seq<u8> {
    match r {
        RecordView::Family(f) => seq![TAG_FAMILY, f.tag_spec()],
        RecordView::AccountId(id) => seq![TAG_ACCOUNT_ID] + u32_be_bytes(id),
        RecordView::Collection(c) => seq![TAG_COLLECTION, c],
        RecordView::DocumentId(id) => seq![TAG_DOCUMENT_ID] + u32_be_bytes(id),
        RecordView::KeyValue(key, value) => seq![TAG_KEY_VALUE] + sized_bytes(key) + sized_bytes(
            value,
        ),
        RecordView::KeyOnly(key) => seq![TAG_KEY_ONLY] + sized_bytes(key),
    }
}

/// Whether the blocks of a record are short enough for their length
/// prefix.
pub open spec fn fits(r: RecordView) -> bool {
    match r {
        RecordView::KeyValue(key, value) => key.len() <= u32::MAX && value.len() <= u32::MAX,
        RecordView::KeyOnly(key) => key.len() <= u32::MAX,
        _ => true,
    }
}

/// Whether every record of a sequence fits.
pub open spec fn all_fit(records: Seq<RecordView>) -> bool {
    forall|i: int| 0 <= i < records.len() ==> fits(#[trigger] records[i])
}

/// The bytes of the records, one after the other.
pub open spec fn stream_bytes(records: Seq<RecordView>) -> Seq<u8>
    decreases records.len(),
{
    if records.len() == 0 {
        Seq::empty()
    } else {
        record_bytes(records[0]) + stream_bytes(records.skip(1))
    }
}

/// The bytes of a snapshot file that holds the records: the header, and
/// the records.
pub open spec fn snapshot_bytes(records: Seq<RecordView>) -> Seq<u8> {
    seq![MAGIC_MARKER, FILE_VERSION] + stream_bytes(records)
}

proof fn lemma_sized_round_trip(s: Seq<u8>, at: int, b: Seq<u8>)
    requires
        0 <= at,
        b.len() <= u32::MAX,
        at + 4 + b.len() <= s.len(),
        s.subrange(at, at + 4 + b.len()) == sized_bytes(b),
    ensures
        sized_bytes_at(s, at) == Some((b, at + 4 + b.len())),
{
    let len = b.len() as u32;
    assert(s.subrange(at, at + 4) =~= u32_be_bytes(len)) by {
        assert forall|i: int| 0 <= i < 4 implies s.subrange(at, at + 4)[i] == u32_be_bytes(
            len,
        )[i] by {
            assert(s.subrange(at, at + 4 + b.len())[i] == sized_bytes(b)[i]);
        }
    }
    lemma_be_u32_round_trip(s, at, len);
    assert(s.subrange(at + 4, at + 4 + len) =~= b) by {
        assert forall|i: int| 0 <= i < b.len() implies s.subrange(at + 4, at + 4 + len)[i]
            == b[i] by {
            assert(s.subrange(at, at + 4 + b.len())[i + 4] == sized_bytes(b)[i + 4]);
        }
    }
}

/// A record that fits is read back from its bytes, whatever stands before
/// and behind them.
pub proof fn lemma_record_round_trip(front: Seq<u8>, r: RecordView, rest: Seq<u8>)
    requires
        fits(r),
    ensures
        parse_record(front + record_bytes(r) + rest, front.len() as int) == (Parsed::Item {
            record: r,
            next: (front.len() + record_bytes(r).len()) as int,
        }),
{
    let s = front + record_bytes(r) + rest;
    let pos = front.len() as int;
    let enc = record_bytes(r);
    assert forall|i: int| 0 <= i < enc.len() implies #[trigger] s[pos + i] == enc[i] by {}
    assert(s[pos] == enc[0]);
    match r {
        RecordView::Family(f) => {
            lemma_family_tag_round_trip(f, 0);
            assert(s[pos + 1] == enc[1]);
        },
        RecordView::AccountId(id) => {
            assert(s.subrange(pos + 1, pos + 5) =~= u32_be_bytes(id)) by {
                assert forall|i: int| 0 <= i < 4 implies s.subrange(pos + 1, pos + 5)[i]
                    == u32_be_bytes(id)[i] by {
                    assert(s[pos + (i + 1)] == enc[i + 1]);
                }
            }
            lemma_be_u32_round_trip(s, pos + 1, id);
        },
        RecordView::Collection(c) => {
            assert(s[pos + 1] == enc[1]);
        },
        RecordView::DocumentId(id) => {
            assert(s.subrange(pos + 1, pos + 5) =~= u32_be_bytes(id)) by {
                assert forall|i: int| 0 <= i < 4 implies s.subrange(pos + 1, pos + 5)[i]
                    == u32_be_bytes(id)[i] by {
                    assert(s[pos + (i + 1)] == enc[i + 1]);
                }
            }
            lemma_be_u32_round_trip(s, pos + 1, id);
        },
        RecordView::KeyValue(key, value) => {
            let after_key = pos + 1 + 4 + key.len();
            assert(s.subrange(pos + 1, after_key) =~= sized_bytes(key)) by {
                assert forall|i: int| 0 <= i < 4 + key.len() implies s.subrange(
                    pos + 1,
                    after_key,
                )[i] == sized_bytes(key)[i] by {
                    assert(s[pos + (i + 1)] == enc[i + 1]);
                }
            }
            lemma_sized_round_trip(s, pos + 1, key);
            assert(s.subrange(after_key, after_key + 4 + value.len()) =~= sized_bytes(value)) by {
                assert forall|i: int| 0 <= i < 4 + value.len() implies s.subrange(
                    after_key,
                    after_key + 4 + value.len(),
                )[i] == sized_bytes(value)[i] by {
                    assert(s[pos + (i + 5 + key.len())] == enc[i + 5 + key.len()]);
                }
            }
            lemma_sized_round_trip(s, after_key, value);
        },
        RecordView::KeyOnly(key) => {
            let after_key = pos + 1 + 4 + key.len();
            assert(s.subrange(pos + 1, after_key) =~= sized_bytes(key)) by {
                assert forall|i: int| 0 <= i < 4 + key.len() implies s.subrange(
                    pos + 1,
                    after_key,
                )[i] == sized_bytes(key)[i] by {
                    assert(s[pos + (i + 1)] == enc[i + 1]);
                }
            }
            lemma_sized_round_trip(s, pos + 1, key);
        },
    }
}

/// Records that fit are read back from their bytes, whatever stands before
/// them.
pub proof fn lemma_stream_round_trip(front: Seq<u8>, records: Seq<RecordView>, index: int)
    requires
        all_fit(records),
    ensures
        parse_records(front + stream_bytes(records), front.len() as int, index) == Ok::<
            Seq<RecordView>,
            RestoreError,
        >(records),
    decreases records.len(),
{
    let s = front + stream_bytes(records);
    if records.len() == 0 {
        assert(s =~= front);
        assert(records =~= Seq::<RecordView>::empty());
    } else {
        let r = records[0];
        let later = records.skip(1);
        let enc = record_bytes(r);
        assert(s =~= front + enc + stream_bytes(later));
        lemma_record_round_trip(front, r, stream_bytes(later));
        assert(all_fit(later)) by {
            assert forall|i: int| 0 <= i < later.len() implies fits(#[trigger] later[i]) by {
                assert(later[i] == records[i + 1]);
            }
        }
        lemma_stream_round_trip(front + enc, later, index + 1);
        assert((front + enc) + stream_bytes(later) =~= s);
        assert(seq![r] + later =~= records);
    }
}

/// Reading what was written gives back the records: a snapshot that holds
/// records that fit is accepted, and its records are those written, in
/// order.
pub proof fn law_codec_round_trip(records: Seq<RecordView>)
    requires
        all_fit(records),
    ensures
        parse_snapshot(snapshot_bytes(records)) == Ok::<Seq<RecordView>, RestoreError>(records),
{
    let header = seq![MAGIC_MARKER, FILE_VERSION];
    lemma_stream_round_trip(header, records, 0);
}

/// The bytes that a big-endian `u32` was read from are the bytes that
/// writing it gives.
pub proof fn lemma_be_u32_exact(s: Seq<u8>, at: int)
    ensures
        be_u32_at(s, at) matches Some(v) ==> u32_be_bytes(v) == s.subrange(at, at + 4),
{
    if be_u32_at(s, at) is Some {
        let v = be_u32_at(s, at)->Some_0;
        assert(u32_be_bytes(v) =~= s.subrange(at, at + 4));
    }
}

proof fn lemma_sized_exact(s: Seq<u8>, at: int)
    ensures
        sized_bytes_at(s, at) matches Some((b, next)) ==> next == at + 4 + b.len() && b.len()
            <= u32::MAX && 0 <= at && next <= s.len() && sized_bytes(b) == s.subrange(at, next),
{
    if sized_bytes_at(s, at) is Some {
        lemma_be_u32_exact(s, at);
        let (b, next) = sized_bytes_at(s, at)->Some_0;
        assert(sized_bytes(b) =~= s.subrange(at, next)) by {
            assert forall|i: int| 0 <= i < 4 + b.len() implies sized_bytes(b)[i] == s.subrange(
                at,
                next,
            )[i] by {
                if i < 4 {
                    assert(u32_be_bytes(b.len() as u32)[i] == s.subrange(at, at + 4)[i]);
                }
            }
        }
    }
}

/// The bytes that a record was read from are the bytes of that record.
pub proof fn lemma_record_exact(s: Seq<u8>, pos: int)
    ensures
        parse_record(s, pos) matches Parsed::Item { record, next } ==> 0 <= pos < next <= s.len()
            && fits(record) && record_bytes(record) == s.subrange(pos, next),
{
    match parse_record(s, pos) {
        Parsed::Item { record, next } => {
            match record {
                RecordView::Family(f) => {
                    lemma_family_tag_round_trip(f, s[pos + 1]);
                    assert(record_bytes(record) =~= s.subrange(pos, next));
                },
                RecordView::AccountId(id) => {
                    lemma_be_u32_exact(s, pos + 1);
                    assert(record_bytes(record) =~= s.subrange(pos, next)) by {
                        assert forall|i: int| 0 <= i < 5 implies record_bytes(record)[i]
                            == s.subrange(pos, next)[i] by {
                            if i > 0 {
                                assert(u32_be_bytes(id)[i - 1] == s.subrange(pos + 1, pos + 5)[i
                                    - 1]);
                            }
                        }
                    }
                },
                RecordView::Collection(c) => {
                    assert(record_bytes(record) =~= s.subrange(pos, next));
                },
                RecordView::DocumentId(id) => {
                    lemma_be_u32_exact(s, pos + 1);
                    assert(record_bytes(record) =~= s.subrange(pos, next)) by {
                        assert forall|i: int| 0 <= i < 5 implies record_bytes(record)[i]
                            == s.subrange(pos, next)[i] by {
                            if i > 0 {
                                assert(u32_be_bytes(id)[i - 1] == s.subrange(pos + 1, pos + 5)[i
                                    - 1]);
                            }
                        }
                    }
                },
                RecordView::KeyValue(key, value) => {
                    lemma_sized_exact(s, pos + 1);
                    let after_key = pos + 5 + key.len();
                    lemma_sized_exact(s, after_key);
                    assert(record_bytes(record) =~= s.subrange(pos, next)) by {
                        assert forall|i: int| 0 <= i < next - pos implies record_bytes(record)[i]
                            == s.subrange(pos, next)[i] by {
                            if 1 <= i < 5 + key.len() {
                                assert(sized_bytes(key)[i - 1] == s.subrange(pos + 1, after_key)[i
                                    - 1]);
                            } else if i >= 5 + key.len() {
                                assert(sized_bytes(value)[i - 5 - key.len()] == s.subrange(
                                    after_key,
                                    next,
                                )[i - 5 - key.len()]);
                            }
                        }
                    }
                },
                RecordView::KeyOnly(key) => {
                    lemma_sized_exact(s, pos + 1);
                    assert(record_bytes(record) =~= s.subrange(pos, next)) by {
                        assert forall|i: int| 0 <= i < next - pos implies record_bytes(record)[i]
                            == s.subrange(pos, next)[i] by {
                            if 1 <= i {
                                assert(sized_bytes(key)[i - 1] == s.subrange(pos + 1, next)[i
                                    - 1]);
                            }
                        }
                    }
                },
            }
        },
        _ => {},
    }
}

proof fn lemma_stream_exact(s: Seq<u8>, pos: int, index: int)
    requires
        0 <= pos <= s.len(),
    ensures
        parse_records(s, pos, index) matches Ok(records) ==> all_fit(records) && stream_bytes(
            records,
        ) == s.skip(pos),
    decreases s.len() - pos,
{
    match parse_record(s, pos) {
        Parsed::End => {
            assert(s.skip(pos) =~= Seq::<u8>::empty());
        },
        Parsed::Fail(_) => {},
        Parsed::Item { record, next } => {
            lemma_record_exact(s, pos);
            lemma_stream_exact(s, next, index + 1);
            if parse_records(s, next, index + 1) is Ok {
                let rest = parse_records(s, next, index + 1)->Ok_0;
                let records = seq![record] + rest;
                assert(records.skip(1) =~= rest);
                assert(records[0] == record);
                assert(s.subrange(pos, next) + s.skip(next) =~= s.skip(pos));
                assert forall|i: int| 0 <= i < records.len() implies fits(
                    #[trigger] records[i],
                ) by {
                    if i > 0 {
                        assert(records[i] == rest[i - 1]);
                    }
                }
            }
        },
    }
}

/// The format leaves no freedom: the records of an accepted file, written
/// again, give the file byte for byte.
pub proof fn law_codec_is_exact(data: Seq<u8>)
    ensures
        parse_snapshot(data) matches Ok(records) ==> all_fit(records) && snapshot_bytes(records)
            == data,
{
    if parse_snapshot(data) is Ok {
        lemma_stream_exact(data, 2, 0);
        let records = parse_snapshot(data)->Ok_0;
        assert(seq![MAGIC_MARKER, FILE_VERSION] + data.skip(2) =~= data);
    }
}

/// The bytes of two runs of records, one after the other.
pub proof fn lemma_stream_add(a: Seq<RecordView>, b: Seq<RecordView>)
    ensures
        stream_bytes(a + b) == stream_bytes(a) + stream_bytes(b),
    decreases a.len(),
{
    if a.len() == 0 {
        assert(a + b =~= b);
        assert(stream_bytes(a) + stream_bytes(b) =~= stream_bytes(b));
    } else {
        lemma_stream_add(a.skip(1), b);
        assert((a + b).skip(1) =~= a.skip(1) + b);
        assert((a + b)[0] == a[0]);
        assert(record_bytes(a[0]) + (stream_bytes(a.skip(1)) + stream_bytes(b)) =~= (record_bytes(
            a[0],
        ) + stream_bytes(a.skip(1))) + stream_bytes(b));
    }
}

fn append(out: &mut Vec<u8>, bytes: &[u8])
    ensures
        final(out)@ == old(out)@ + bytes@,
{
    out.extend_from_slice(bytes);
    assert(out@ =~= old(out)@ + bytes@);
}

fn write_sized(out: &mut Vec<u8>, bytes: &[u8])
    requires
        bytes@.len() <= u32::MAX,
    ensures
        final(out)@ == old(out)@ + sized_bytes(bytes@),
{
    write_be_u32(out, bytes.len() as u32);
    append(out, bytes);
    assert(out@ =~= old(out)@ + sized_bytes(bytes@));
}

/// Appends the bytes of a record. A record with a block too long for its
/// length prefix is not written: the outcome is `false` and `out` stays as
/// it is.
pub fn write_record(out: &mut Vec<u8>, record: &Record) -> (ok: bool)
    ensures
        ok == fits(record@),
        ok ==> final(out)@ == old(out)@ + record_bytes(record@),
        !ok ==> final(out)@ == old(out)@,
{
    match record {
        Record::Family(f) => {
            out.push(TAG_FAMILY);
            out.push(f.tag());
        },
        Record::AccountId(id) => {
            out.push(TAG_ACCOUNT_ID);
            write_be_u32(out, *id);
        },
        Record::Collection(c) => {
            out.push(TAG_COLLECTION);
            out.push(*c);
        },
        Record::DocumentId(id) => {
            out.push(TAG_DOCUMENT_ID);
            write_be_u32(out, *id);
        },
        Record::KeyValue(key, value) => {
            if key.len() > 0xFFFF_FFFF || value.len() > 0xFFFF_FFFF {
                return false;
            }
            out.push(TAG_KEY_VALUE);
            write_sized(out, key.as_slice());
            write_sized(out, value.as_slice());
        },
        Record::KeyOnly(key) => {
            if key.len() > 0xFFFF_FFFF {
                return false;
            }
            out.push(TAG_KEY_ONLY);
            write_sized(out, key.as_slice());
        },
    }
    assert(out@ =~= old(out)@ + record_bytes(record@));
    true
}

/// The bytes of a snapshot file that holds the records. There is no such
/// file where a key or a value is too long for its length prefix.
pub fn encode(records: &Vec<Record>) -> (r: Option<Vec<u8>>)
    ensures
        match r {
            Some(bytes) => all_fit(views(records@)) && bytes@ == snapshot_bytes(views(records@)),
            None => !all_fit(views(records@)),
        },
{
    let ghost all = views(records@);
    let mut out: Vec<u8> = Vec::new();
    out.push(MAGIC_MARKER);
    out.push(FILE_VERSION);
    assert(out@ =~= snapshot_bytes(all.take(0))) by {
        assert(all.take(0) =~= Seq::<RecordView>::empty());
    }
    let mut i: usize = 0;
    while i < records.len()
        invariant
            i <= records@.len(),
            all == views(records@),
            all_fit(all.take(i as int)),
            out@ == snapshot_bytes(all.take(i as int)),
        decreases records@.len() - i,
    {
        let ghost before = all.take(i as int);
        let ghost r = all[i as int];
        if !write_record(&mut out, &records[i]) {
            return None;
        }
        proof {
            assert(all.take(i as int + 1) =~= before + seq![r]);
            lemma_stream_add(before, seq![r]);
            assert(seq![r].skip(1) =~= Seq::<RecordView>::empty());
            assert(stream_bytes(Seq::<RecordView>::empty()) =~= Seq::<u8>::empty());
            assert(stream_bytes(seq![r]) =~= record_bytes(r));
            assert(out@ =~= snapshot_bytes(all.take(i as int + 1)));
            assert forall|j: int| 0 <= j < i + 1 implies fits(
                #[trigger] all.take(i as int + 1)[j],
            ) by {
                if j < i {
                    assert(before[j] == all.take(i as int + 1)[j]);
                }
            }
        }
        i = i + 1;
    }
    assert(all.take(i as int) =~= all);
    Some(out)
}

} // verus!
