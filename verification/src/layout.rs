//! Where each piece of a serialized font lies, and what reading it back gives.
use vstd::prelude::*;
use crate::bytes::{
    lemma_align4, lemma_splice, be16_bytes, be32_bytes, get_be16, get_be32, lemma_be16_roundtrip, lemma_be32_roundtrip, splice,
    wrap_sub, zeros, checksum,
};
use crate::sfnt::{
    directory_fits, is_known_version, num_tables, parse_font, rec_length, rec_offset,
    rec_tag, table_at, tables_fit, FontModel,
    adjustment_pos, blob, blobs, data_start, font_len, last_head, lemma_blobs_len,
    lemma_prefix_len_mono, lemma_records_len, offset_table, padded_len, prefix_len, raw_font,
    record, record_pos, records, table_offset, write_tables, TableModel, CHECKSUM_MAGIC,
};

verus! {

/// Every tag has four bytes.
pub open spec fn tags4(ts: Seq<TableModel>) -> bool {
    forall|i: int| 0 <= i < ts.len() ==> (#[trigger] ts[i]).tag.len() == 4
}

/// A directory record takes sixteen bytes.
pub proof fn lemma_record_len(ts: Seq<TableModel>, i: int)
    requires
        0 <= i < ts.len(),
        tags4(ts),
    ensures
        record(ts, i).len() == 16,
{
    assert(ts[i].tag.len() == 4);
}

/// Byte `j` of record `i` lies at `16 * i + j` in the records.
pub proof fn lemma_records_index(ts: Seq<TableModel>, k: int, i: int, j: int)
    requires
        0 <= i < k <= ts.len(),
        0 <= j < 16,
        tags4(ts),
    ensures
        records(ts, k)[16 * i + j] == record(ts, i)[j],
    decreases k,
{
    lemma_records_len(ts, k - 1);
    lemma_record_len(ts, k - 1);
    if i < k - 1 {
        lemma_records_index(ts, k - 1, i, j);
    }
}

/// Byte `j` of table `i`'s padded data lies at `prefix_len(ts, i) + j` in
/// the blobs.
pub proof fn lemma_blobs_index(ts: Seq<TableModel>, k: int, i: int, j: int)
    requires
        0 <= i < k <= ts.len(),
        0 <= j < padded_len(ts[i]),
    ensures
        blobs(ts, k)[prefix_len(ts, i) + j] == blob(ts[i])[j],
    decreases k,
{
    lemma_blobs_len(ts, k - 1);
    lemma_align4(ts[k - 1].data.len() as int);
    lemma_align4(ts[i].data.len() as int);
    lemma_prefix_len_mono(ts, 0, i);
    let b = blobs(ts, k - 1);
    let t = blob(ts[k - 1]);
    assert(blobs(ts, k) == b + t);
    if i < k - 1 {
        lemma_prefix_len_mono(ts, i + 1, k - 1);
        lemma_blobs_index(ts, k - 1, i, j);
        assert((b + t)[prefix_len(ts, i) + j] == b[prefix_len(ts, i) + j]);
    } else {
        assert((b + t)[prefix_len(ts, i) + j] == t[j]);
    }
}

/// A padded blob holds the data, then zeros.
pub proof fn lemma_blob(t: TableModel, j: int)
    requires
        0 <= j < padded_len(t),
    ensures
        blob(t).len() == padded_len(t),
        blob(t)[j] == if j < t.data.len() { t.data[j] } else { 0u8 },
{
    lemma_align4(t.data.len() as int);
}

/// The layout of the font before `checkSumAdjustment` is set.
pub proof fn lemma_raw_layout(v: u32, ts: Seq<TableModel>)
    requires
        tags4(ts),
    ensures
        ({
            let raw = raw_font(v, ts);
            &&& raw.len() == font_len(ts)
            &&& raw.subrange(0, 4) == be32_bytes(v)
            &&& raw.subrange(4, 6) == be16_bytes(ts.len() as u16)
            &&& forall|i: int, j: int|
                0 <= i < ts.len() && 0 <= j < 16 ==> raw[record_pos(i) + j] == #[trigger] record(ts, i)[j]
            &&& forall|i: int, j: int|
                0 <= i < ts.len() && 0 <= j < ts[i].data.len() ==> raw[table_offset(ts, i) + j]
                    == #[trigger] ts[i].data[j]
            &&& forall|i: int, j: int|
                0 <= i < ts.len() && 0 <= j < padded_len(ts[i]) ==> raw[table_offset(ts, i) + j]
                    == #[trigger] blob(ts[i])[j]
        }),
{
    reveal(raw_font);
    let n = ts.len() as int;
    let raw = raw_font(v, ts);
    let ot = offset_table(v, n as u16);
    lemma_records_len(ts, n);
    lemma_blobs_len(ts, n);
    assert(ot.len() == 12);
    assert(raw.subrange(0, 4) =~= be32_bytes(v));
    assert(raw.subrange(4, 6) =~= be16_bytes(n as u16));
    assert forall|i: int, j: int| 0 <= i < n && 0 <= j < 16 implies raw[record_pos(i) + j]
        == #[trigger] record(ts, i)[j] by {
        lemma_records_index(ts, n, i, j);
    }
    assert forall|i: int, j: int| 0 <= i < n && 0 <= j < padded_len(ts[i]) implies raw[table_offset(
        ts,
        i,
    ) + j] == #[trigger] blob(ts[i])[j] by {
        lemma_blobs_index(ts, n, i, j);
        lemma_prefix_len_mono(ts, 0, i);
        lemma_prefix_len_mono(ts, i + 1, n);
    }
    assert forall|i: int, j: int| 0 <= i < n && 0 <= j < ts[i].data.len() implies raw[table_offset(
        ts,
        i,
    ) + j] == #[trigger] ts[i].data[j] by {
        lemma_align4(ts[i].data.len() as int);
        lemma_blob(ts[i], j);
        assert(raw[table_offset(ts, i) + j] == blob(ts[i])[j]);
    }
}

/// Whether `checkSumAdjustment` lies inside the written font.
pub open spec fn adjustment_fits(ts: Seq<TableModel>) -> bool {
    last_head(ts) matches Some(h) ==> adjustment_pos(ts, h) + 4 <= font_len(ts)
}

/// Whether byte `x` is outside the `checkSumAdjustment` field.
pub open spec fn outside_adjustment(ts: Seq<TableModel>, x: int) -> bool {
    last_head(ts) matches Some(h) ==> (x < adjustment_pos(ts, h) || adjustment_pos(ts, h) + 4 <= x)
}

/// The value written into `checkSumAdjustment`.
pub open spec fn adjustment_value(v: u32, ts: Seq<TableModel>) -> u32 {
    let p = adjustment_pos(ts, last_head(ts).unwrap());
    wrap_sub(CHECKSUM_MAGIC, checksum(splice(raw_font(v, ts), p, zeros(4))))
}

/// The written font is the raw layout except for `checkSumAdjustment`.
pub proof fn lemma_written(v: u32, ts: Seq<TableModel>)
    requires
        tags4(ts),
        adjustment_fits(ts),
    ensures
        ({
            let raw = raw_font(v, ts);
            let s = write_tables(v, ts);
            &&& s.len() == raw.len()
            &&& forall|x: int| 0 <= x < s.len() && outside_adjustment(ts, x) ==> #[trigger] s[x] == raw[x]
            &&& last_head(ts) matches Some(h) ==> s.subrange(adjustment_pos(ts, h), adjustment_pos(ts, h) + 4)
                == be32_bytes(adjustment_value(v, ts))
        }),
{
    reveal(write_tables);
    let raw = raw_font(v, ts);
    let s = write_tables(v, ts);
    crate::sfnt::lemma_last_head(ts, ts.len() as int);
    lemma_raw_layout(v, ts);
    if let Some(h) = last_head(ts) {
        let p = adjustment_pos(ts, h);
        let z = splice(raw, p, zeros(4));
        let a = be32_bytes(adjustment_value(v, ts));
        lemma_prefix_len_mono(ts, 0, h);
        lemma_splice(raw, p, zeros(4));
        lemma_splice(z, p, a);
        assert(s == splice(z, p, a));
        assert forall|x: int| 0 <= x < s.len() && outside_adjustment(ts, x) implies #[trigger] s[x]
            == raw[x] by {
            assert(s[x] == z[x]);
        }
    }
}

/// Where the directory of a written font points: record `i` holds table `i`'s
/// tag, its offset and its length.
pub open spec fn directory_describes(s: Seq<u8>, ts: Seq<TableModel>) -> bool {
    &&& num_tables(s) == ts.len()
    &&& forall|i: int| 0 <= i < ts.len() ==> #[trigger] rec_tag(s, i) == ts[i].tag
    &&& forall|i: int| 0 <= i < ts.len() ==> #[trigger] rec_offset(s, i) == table_offset(ts, i)
    &&& forall|i: int| 0 <= i < ts.len() ==> #[trigger] rec_length(s, i) == ts[i].data.len()
}

/// What reading back a font written from `ts` gives: the tables in the same
/// order with the same tags and data lengths, and the same data bytes
/// wherever they are not the `checkSumAdjustment` field.
pub open spec fn reads_back(g: FontModel, v: u32, ts: Seq<TableModel>) -> bool {
    &&& g.version == v
    &&& g.tables.len() == ts.len()
    &&& forall|i: int| 0 <= i < ts.len() ==> (#[trigger] g.tables[i]).tag == ts[i].tag
    &&& forall|i: int| 0 <= i < ts.len() ==> (#[trigger] g.tables[i]).data.len() == ts[i].data.len()
    &&& forall|i: int, j: int|
        0 <= i < ts.len() && 0 <= j < ts[i].data.len() && outside_adjustment(ts, table_offset(ts, i) + j)
            ==> (#[trigger] g.tables[i].data[j]) == ts[i].data[j]
}

/// Whether `ts` can be written so that it reads back: four-byte tags, a
/// known version, a table count that fits the 16-bit field, offsets that fit
/// the 32-bit fields, and `checkSumAdjustment` inside the font.
pub open spec fn writes_back(v: u32, ts: Seq<TableModel>) -> bool {
    &&& tags4(ts)
    &&& is_known_version(v)
    &&& ts.len() <= u16::MAX
    &&& font_len(ts) <= u32::MAX
    &&& adjustment_fits(ts)
}

/// The bytes of a written font before the table data are the raw layout's.
proof fn lemma_written_prefix(v: u32, ts: Seq<TableModel>, x: int)
    requires
        writes_back(v, ts),
        0 <= x < data_start(ts.len() as int),
    ensures
        write_tables(v, ts)[x] == raw_font(v, ts)[x],
        x < write_tables(v, ts).len(),
{
    lemma_written(v, ts);
    crate::sfnt::lemma_last_head(ts, ts.len() as int);
    lemma_prefix_len_mono(ts, 0, ts.len() as int);
    if let Some(h) = last_head(ts) {
        lemma_prefix_len_mono(ts, 0, h);
    }
    lemma_raw_layout(v, ts);
}

/// The offset table of a written font holds the version and table count.
proof fn lemma_written_header(v: u32, ts: Seq<TableModel>)
    requires
        writes_back(v, ts),
    ensures
        write_tables(v, ts).len() == font_len(ts),
        font_len(ts) >= data_start(ts.len() as int),
        get_be32(write_tables(v, ts), 0) == v,
        num_tables(write_tables(v, ts)) == ts.len(),
{
    let n = ts.len() as int;
    let raw = raw_font(v, ts);
    let s = write_tables(v, ts);
    lemma_raw_layout(v, ts);
    lemma_written(v, ts);
    lemma_prefix_len_mono(ts, 0, n);
    lemma_be32_roundtrip(v);
    lemma_be16_roundtrip(n as u16);
    lemma_written_prefix(v, ts, 0);
    lemma_written_prefix(v, ts, 1);
    lemma_written_prefix(v, ts, 2);
    lemma_written_prefix(v, ts, 3);
    lemma_written_prefix(v, ts, 4);
    lemma_written_prefix(v, ts, 5);
    assert(raw.subrange(0, 4)[0] == raw[0] && raw.subrange(0, 4)[1] == raw[1]);
    assert(raw.subrange(0, 4)[2] == raw[2] && raw.subrange(0, 4)[3] == raw[3]);
    assert(raw.subrange(4, 6)[0] == raw[4] && raw.subrange(4, 6)[1] == raw[5]);
    assert(get_be32(s, 0) == get_be32(be32_bytes(v), 0));
    assert(get_be16(s, 4) == get_be16(be16_bytes(n as u16), 0));
}

/// A written font begins with its offset table.
pub proof fn lemma_written_offset_table(v: u32, ts: Seq<TableModel>)
    requires
        writes_back(v, ts),
    ensures
        write_tables(v, ts).len() >= 12,
        write_tables(v, ts).subrange(0, 12) == offset_table(v, ts.len() as u16),
{
    let s = write_tables(v, ts);
    let raw = raw_font(v, ts);
    let ot = offset_table(v, ts.len() as u16);
    reveal(raw_font);
    assert(ot.len() == 12);
    assert forall|x: int| 0 <= x < 12 implies #[trigger] s[x] == ot[x] by {
        lemma_written_prefix(v, ts, x);
        assert(raw[x] == ot[x]);
    }
    lemma_written_prefix(v, ts, 11);
    assert(s.subrange(0, 12) =~= ot);
}

/// The fields of directory record `i`.
proof fn lemma_record_fields(ts: Seq<TableModel>, i: int)
    requires
        0 <= i < ts.len(),
        tags4(ts),
    ensures
        record(ts, i).len() == 16,
        record(ts, i).subrange(0, 4) == ts[i].tag,
        get_be32(record(ts, i), 8) == table_offset(ts, i) as u32,
        get_be32(record(ts, i), 12) == ts[i].data.len() as u32,
{
    let r = record(ts, i);
    let off = table_offset(ts, i) as u32;
    let len = ts[i].data.len() as u32;
    assert(ts[i].tag.len() == 4);
    assert(r.subrange(0, 4) =~= ts[i].tag);
    lemma_be32_roundtrip(off);
    lemma_be32_roundtrip(len);
    assert(r.subrange(8, 12) =~= be32_bytes(off));
    assert(r.subrange(12, 16) =~= be32_bytes(len));
    assert(get_be32(r, 8) == get_be32(r.subrange(8, 12), 0));
    assert(get_be32(r, 12) == get_be32(r.subrange(12, 16), 0));
}

/// The directory record bytes of a written font are the records'.
pub proof fn lemma_written_record_bytes(v: u32, ts: Seq<TableModel>, i: int)
    requires
        writes_back(v, ts),
        0 <= i < ts.len(),
    ensures
        write_tables(v, ts).subrange(record_pos(i), record_pos(i) + 16) == record(ts, i),
{
    let s = write_tables(v, ts);
    let raw = raw_font(v, ts);
    lemma_raw_layout(v, ts);
    lemma_record_len(ts, i);
    lemma_written_prefix(v, ts, record_pos(i) + 15);
    assert forall|j: int| 0 <= j < 16 implies s.subrange(record_pos(i), record_pos(i) + 16)[j]
        == #[trigger] record(ts, i)[j] by {
        lemma_written_prefix(v, ts, record_pos(i) + j);
        assert(raw[record_pos(i) + j] == record(ts, i)[j]);
    }
    assert(s.subrange(record_pos(i), record_pos(i) + 16) =~= record(ts, i));
}

/// Directory record `i` of a written font describes table `i`.
proof fn lemma_written_record(v: u32, ts: Seq<TableModel>, i: int)
    requires
        writes_back(v, ts),
        0 <= i < ts.len(),
    ensures
        rec_tag(write_tables(v, ts), i) == ts[i].tag,
        rec_offset(write_tables(v, ts), i) == table_offset(ts, i),
        rec_length(write_tables(v, ts), i) == ts[i].data.len(),
        table_offset(ts, i) + ts[i].data.len() <= font_len(ts),
{
    let n = ts.len() as int;
    let s = write_tables(v, ts);
    let r = record(ts, i);
    let rp = record_pos(i);
    lemma_written_record_bytes(v, ts, i);
    lemma_record_fields(ts, i);
    lemma_prefix_len_mono(ts, 0, i);
    lemma_prefix_len_mono(ts, i + 1, n);
    crate::bytes::lemma_align4(ts[i].data.len() as int);
    lemma_written_prefix(v, ts, rp + 15);
    let w = s.subrange(rp, rp + 16);
    assert(rec_tag(s, i) =~= w.subrange(0, 4));
    assert(get_be32(s, rp + 8) == get_be32(w, 8));
    assert(get_be32(s, rp + 12) == get_be32(w, 12));
}

/// Data byte `j` of table `i` of a written font, away from
/// `checkSumAdjustment`, is the table's.
proof fn lemma_written_data(v: u32, ts: Seq<TableModel>, i: int, j: int)
    requires
        writes_back(v, ts),
        0 <= i < ts.len(),
        0 <= j < ts[i].data.len(),
        outside_adjustment(ts, table_offset(ts, i) + j),
    ensures
        write_tables(v, ts)[table_offset(ts, i) + j] == ts[i].data[j],
{
    lemma_raw_layout(v, ts);
    lemma_written(v, ts);
    lemma_written_record(v, ts, i);
    lemma_prefix_len_mono(ts, 0, i);
    assert(raw_font(v, ts)[table_offset(ts, i) + j] == ts[i].data[j]);
}

/// Reading back a written font gives its tables in order (see
/// [`reads_back`]) and a directory describing them.
pub proof fn lemma_parse_written(v: u32, ts: Seq<TableModel>)
    requires
        writes_back(v, ts),
    ensures
        parse_font(write_tables(v, ts)) is Ok,
        reads_back(parse_font(write_tables(v, ts)).unwrap(), v, ts),
        directory_describes(write_tables(v, ts), ts),
        write_tables(v, ts).len() == font_len(ts),
{
    let n = ts.len() as int;
    let s = write_tables(v, ts);
    lemma_written_header(v, ts);
    assert forall|i: int| 0 <= i < n implies #[trigger] rec_tag(s, i) == ts[i].tag by {
        lemma_written_record(v, ts, i);
    }
    assert forall|i: int| 0 <= i < n implies #[trigger] rec_offset(s, i) == table_offset(ts, i) by {
        lemma_written_record(v, ts, i);
    }
    assert forall|i: int| 0 <= i < n implies #[trigger] rec_length(s, i) == ts[i].data.len() by {
        lemma_written_record(v, ts, i);
    }
    assert forall|i: int| 0 <= i < n implies #[trigger] rec_offset(s, i) + rec_length(s, i) <= s.len() by {
        lemma_written_record(v, ts, i);
    }
    assert(directory_fits(s));
    assert(tables_fit(s));
    let g = FontModel { version: v, tables: Seq::new(n as nat, |i: int| table_at(s, i)) };
    assert(parse_font(s) == Ok::<FontModel, crate::error::ErrorKind>(g));
    assert forall|i: int| 0 <= i < n implies (#[trigger] g.tables[i]).tag == ts[i].tag && g.tables[i].data.len()
        == ts[i].data.len() by {
        lemma_written_record(v, ts, i);
    }
    assert forall|i: int, j: int|
        0 <= i < n && 0 <= j < ts[i].data.len() && outside_adjustment(ts, table_offset(ts, i) + j)
            implies (#[trigger] g.tables[i].data[j]) == ts[i].data[j] by {
        lemma_written_record(v, ts, i);
        lemma_written_data(v, ts, i, j);
    }
}

} // verus!
