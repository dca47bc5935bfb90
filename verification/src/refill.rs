//! Why re-writing a `C2PA` table of the same size moves nothing: the tables
//! keep their tags and lengths, so every offset stays put and only the bytes
//! that depend on the table's content change.
use vstd::prelude::*;
use crate::binding::{exclusion_list, exclusions_of, first_record_from, sort_by_start, Exclusion};
use crate::bytes::get_be32;
use crate::laws::{lemma_c2pa_before_head, lemma_reads_back_before_head, lemma_unique_index};
use crate::layout::{
    adjustment_fits,
    directory_describes, lemma_blob, lemma_parse_written, lemma_record_len, lemma_written,
    outside_adjustment, reads_back, tags4, writes_back,
};
use crate::bytes::{lemma_align4, lemma_splice, splice, zeros};
use crate::table::c2pa_tag;
use crate::sfnt::{
    adjustment_pos, blob, blobs, head_tag, lemma_first_from, lemma_last_head, parse_font, rec_length,
    rec_offset, rec_tag, write_tables, num_tables, lemma_prefix_len_mono, head_zeroed, data_start, find_index, first_from, font_len, insert_sorted,
    last_head, last_head_upto, lemma_blobs_len, lemma_insert_sorted_at, lemma_records_len,
    offset_table, padded_len, prefix_len, raw_font, record, record_checksum, record_pos, records,
    sort_tables, table_offset, tag_count, tag_key, without_tag, TableModel,
};
use crate::sorting::{
    lemma_count_pos, lemma_sort_sorted_identity, lemma_sorted_before, lemma_tag_key_injective,
    sorted_by_tag,
};

verus! {

/// Whether `a` and `b` have the same tags and data lengths, in order.
pub open spec fn same_shape(a: Seq<TableModel>, b: Seq<TableModel>) -> bool {
    &&& a.len() == b.len()
    &&& forall|i: int| 0 <= i < a.len() ==> (#[trigger] b[i]).tag == a[i].tag
    &&& forall|i: int| 0 <= i < a.len() ==> (#[trigger] b[i]).data.len() == a[i].data.len()
}

/// Tables of the same shape are laid out alike: the same prefix lengths.
pub proof fn lemma_same_prefix(a: Seq<TableModel>, b: Seq<TableModel>, k: int)
    requires
        same_shape(a, b),
        k <= a.len(),
    ensures
        prefix_len(a, k) == prefix_len(b, k),
    decreases k,
{
    if k > 0 {
        lemma_same_prefix(a, b, k - 1);
        assert(padded_len(a[k - 1]) == padded_len(b[k - 1]));
    }
}

/// Tables of the same shape have the same last `head` among the first `k`.
proof fn lemma_same_last_head(a: Seq<TableModel>, b: Seq<TableModel>, k: int)
    requires
        same_shape(a, b),
        k <= a.len(),
    ensures
        last_head_upto(a, k) == last_head_upto(b, k),
    decreases k,
{
    if k > 0 {
        lemma_same_last_head(a, b, k - 1);
        assert(b[k - 1].tag == a[k - 1].tag);
    }
}

/// Tables of the same shape find each tag at the same index.
proof fn lemma_same_first(a: Seq<TableModel>, b: Seq<TableModel>, tag: Seq<u8>, i: int)
    requires
        same_shape(a, b),
        0 <= i,
    ensures
        first_from(a, tag, i) == first_from(b, tag, i),
    decreases a.len() - i,
{
    if i < a.len() {
        assert(b[i].tag == a[i].tag);
        lemma_same_first(a, b, tag, i + 1);
    }
}

/// Tables of the same shape are written with the same offsets, length,
/// last `head` table and `checkSumAdjustment` position, and find each tag at
/// the same index.
pub proof fn lemma_same_layout(a: Seq<TableModel>, b: Seq<TableModel>)
    requires
        same_shape(a, b),
    ensures
        forall|i: int| 0 <= i <= a.len() ==> #[trigger] table_offset(a, i) == table_offset(b, i),
        font_len(a) == font_len(b),
        last_head(a) == last_head(b),
        last_head(a) matches Some(h) ==> adjustment_pos(a, h) == adjustment_pos(b, h),
        forall|tag: Seq<u8>| #[trigger] find_index(a, tag) == find_index(b, tag),
        tags4(a) ==> tags4(b),
{
    assert forall|i: int| 0 <= i <= a.len() implies #[trigger] table_offset(a, i) == table_offset(b, i) by {
        lemma_same_prefix(a, b, i);
    }
    lemma_same_prefix(a, b, a.len() as int);
    lemma_same_last_head(a, b, a.len() as int);
    crate::sfnt::lemma_last_head(a, a.len() as int);
    assert forall|tag: Seq<u8>| #[trigger] find_index(a, tag) == find_index(b, tag) by {
        lemma_same_first(a, b, tag, 0);
    }
    if tags4(a) {
        assert forall|i: int| 0 <= i < b.len() implies (#[trigger] b[i]).tag.len() == 4 by {
            assert(b[i].tag == a[i].tag);
        }
    }
}

/// Without any table of `tag`, removing that tag changes nothing.
proof fn lemma_without_absent(s: Seq<TableModel>, tag: Seq<u8>)
    requires
        forall|j: int| 0 <= j < s.len() ==> (#[trigger] s[j]).tag != tag,
    ensures
        without_tag(s, tag) == s,
    decreases s.len(),
{
    if s.len() > 0 {
        let d = s.drop_last();
        assert forall|j: int| 0 <= j < d.len() implies (#[trigger] d[j]).tag != tag by {
            assert(d[j] == s[j]);
        }
        lemma_without_absent(d, tag);
        assert(s.last().tag != tag);
        assert(d.push(s.last()) =~= s);
    }
}

/// With a single table of `tag`, at `c`, removing the tag removes that table.
pub proof fn lemma_without_single(s: Seq<TableModel>, tag: Seq<u8>, c: int)
    requires
        0 <= c < s.len(),
        s[c].tag == tag,
        forall|j: int| 0 <= j < s.len() && j != c ==> (#[trigger] s[j]).tag != tag,
    ensures
        without_tag(s, tag) == s.remove(c),
    decreases s.len(),
{
    let d = s.drop_last();
    if c == s.len() - 1 {
        assert forall|j: int| 0 <= j < d.len() implies (#[trigger] d[j]).tag != tag by {
            assert(d[j] == s[j]);
        }
        lemma_without_absent(d, tag);
        assert(s.remove(c) =~= d);
    } else {
        assert forall|j: int| 0 <= j < d.len() && j != c implies (#[trigger] d[j]).tag != tag by {
            assert(d[j] == s[j]);
        }
        lemma_without_single(d, tag, c);
        assert(s.last().tag != tag);
        assert(d.remove(c).push(s.last()) =~= s.remove(c));
    }
}

/// In sorted tables with four-byte tags whose only table of `tag` is at
/// `c`, replacing the tables of `tag` by `x` (of that tag) and sorting puts
/// `x` in place of the old table.
pub proof fn lemma_replace_sorted(s: Seq<TableModel>, c: int, x: TableModel)
    requires
        sorted_by_tag(s),
        tags4(s),
        0 <= c < s.len(),
        tag_count(s, s[c].tag) == 1,
        x.tag == s[c].tag,
    ensures
        sort_tables(without_tag(s, x.tag).push(x)) == s.update(c, x),
{
    let tag = x.tag;
    assert forall|j: int| 0 <= j < s.len() && j != c implies (#[trigger] s[j]).tag != tag by {
        if s[j].tag == tag {
            lemma_count_pos(s, tag, j, c);
        }
    }
    lemma_without_single(s, tag, c);
    let r = s.remove(c);
    assert(sorted_by_tag(r)) by {
        assert forall|i: int, j: int| 0 <= i < j < r.len() implies tag_key(#[trigger] r[i].tag) <= tag_key(
            #[trigger] r[j].tag,
        ) by {
            let si = if i < c { i } else { i + 1 };
            let sj = if j < c { j } else { j + 1 };
            assert(r[i] == s[si] && r[j] == s[sj]);
        }
    }
    lemma_sort_sorted_identity(r);
    assert(r.push(x).drop_last() =~= r);
    assert(r.push(x).last() == x);
    assert forall|m: int| c <= m < r.len() implies tag_key(#[trigger] r[m].tag) > tag_key(x.tag) by {
        assert(r[m] == s[m + 1]);
        assert(tag_key(s[c].tag) <= tag_key(s[m + 1].tag));
        if tag_key(s[m + 1].tag) == tag_key(x.tag) {
            assert(s[m + 1].tag.len() == 4 && s[c].tag.len() == 4);
            lemma_tag_key_injective(s[m + 1].tag, x.tag);
        }
    }
    if c > 0 {
        assert(r[c - 1] == s[c - 1]);
        assert(tag_key(s[c - 1].tag) <= tag_key(s[c].tag));
    }
    lemma_insert_sorted_at(r, x, c);
    assert(insert_sorted(r, x) == r.insert(c, x));
    assert(r.insert(c, x) =~= s.update(c, x));
}

/// Where the directory records of tables of the same shape differ: at byte
/// `r.1` of record `r.0`.
proof fn lemma_records_diff(a: Seq<TableModel>, b: Seq<TableModel>, k: int, y: int) -> (r: (int, int))
    requires
        same_shape(a, b),
        tags4(a),
        0 <= k <= a.len(),
        0 <= y < 16 * k,
        records(a, k)[y] != records(b, k)[y],
    ensures
        0 <= r.0 < k,
        0 <= r.1 < 16,
        y == 16 * r.0 + r.1,
        record(a, r.0)[r.1] != record(b, r.0)[r.1],
    decreases k,
{
    lemma_same_layout(a, b);
    lemma_records_len(a, k - 1);
    lemma_records_len(b, k - 1);
    lemma_record_len(a, k - 1);
    lemma_record_len(b, k - 1);
    let ra = records(a, k - 1);
    let rb = records(b, k - 1);
    assert(records(a, k) == ra + record(a, k - 1));
    assert(records(b, k) == rb + record(b, k - 1));
    if y < 16 * (k - 1) {
        assert(records(a, k)[y] == ra[y]);
        assert(records(b, k)[y] == rb[y]);
        lemma_records_diff(a, b, k - 1, y)
    } else {
        (k - 1, y - 16 * (k - 1))
    }
}

/// Where the padded data of tables of the same shape differ: at data byte
/// `r.1` of table `r.0`.
proof fn lemma_blobs_diff(a: Seq<TableModel>, b: Seq<TableModel>, k: int, y: int) -> (r: (int, int))
    requires
        same_shape(a, b),
        0 <= k <= a.len(),
        0 <= y < prefix_len(a, k),
        blobs(a, k)[y] != blobs(b, k)[y],
    ensures
        0 <= r.0 < k,
        0 <= r.1 < a[r.0].data.len(),
        y == prefix_len(a, r.0) + r.1,
        a[r.0].data[r.1] != b[r.0].data[r.1],
    decreases k,
{
    lemma_same_prefix(a, b, k - 1);
    lemma_blobs_len(a, k - 1);
    lemma_blobs_len(b, k - 1);
    let ba = blobs(a, k - 1);
    let bb = blobs(b, k - 1);
    assert(blobs(a, k) == ba + blob(a[k - 1]));
    assert(blobs(b, k) == bb + blob(b[k - 1]));
    if y < prefix_len(a, k - 1) {
        assert(blobs(a, k)[y] == ba[y]);
        assert(blobs(b, k)[y] == bb[y]);
        lemma_blobs_diff(a, b, k - 1, y)
    } else {
        let j = y - prefix_len(a, k - 1);
        assert(padded_len(a[k - 1]) == padded_len(b[k - 1]));
        lemma_blob(a[k - 1], j);
        lemma_blob(b[k - 1], j);
        (k - 1, j)
    }
}

/// Where the raw layouts of tables of the same shape differ: in byte `r.2`
/// of directory record `r.1` when `r.0`, else in data byte `r.2` of table
/// `r.1`.
pub proof fn lemma_raw_diff(v: u32, a: Seq<TableModel>, b: Seq<TableModel>, x: int) -> (r: (bool, int, int))
    requires
        same_shape(a, b),
        tags4(a),
        0 <= x < font_len(a),
        raw_font(v, a)[x] != raw_font(v, b)[x],
    ensures
        r.0 ==> 0 <= r.1 < a.len() && 0 <= r.2 < 16 && x == record_pos(r.1) + r.2 && record(a, r.1)[r.2]
            != record(b, r.1)[r.2],
        !r.0 ==> 0 <= r.1 < a.len() && 0 <= r.2 < a[r.1].data.len() && x == table_offset(a, r.1) + r.2
            && a[r.1].data[r.2] != b[r.1].data[r.2],
{
    reveal(raw_font);
    lemma_same_layout(a, b);
    let n = a.len() as int;
    let ot = offset_table(v, n as u16);
    let ra = records(a, n);
    let rb = records(b, n);
    let ba = blobs(a, n);
    let bb = blobs(b, n);
    lemma_records_len(a, n);
    lemma_records_len(b, n);
    lemma_blobs_len(a, n);
    lemma_blobs_len(b, n);
    lemma_same_prefix(a, b, n);
    assert(ot.len() == 12);
    assert(raw_font(v, a) == ot + ra + ba);
    assert(raw_font(v, b) == ot + rb + bb);
    if x < 12 {
        assert(raw_font(v, a)[x] == ot[x]);
        assert(raw_font(v, b)[x] == ot[x]);
        (true, 0, 0)
    } else if x < 12 + 16 * n {
        assert(raw_font(v, a)[x] == ra[x - 12]);
        assert(raw_font(v, b)[x] == rb[x - 12]);
        let (i, j) = lemma_records_diff(a, b, n, x - 12);
        (true, i, j)
    } else {
        let y = x - data_start(n);
        assert(raw_font(v, a)[x] == ba[y]);
        assert(raw_font(v, b)[x] == bb[y]);
        let (i, j) = lemma_blobs_diff(a, b, n, y);
        (false, i, j)
    }
}

/// Directory records of tables of the same shape differ only in the
/// checksum field, and only when the checksums differ.
pub proof fn lemma_record_diff(a: Seq<TableModel>, b: Seq<TableModel>, i: int, j: int)
    requires
        same_shape(a, b),
        tags4(a),
        0 <= i < a.len(),
        0 <= j < 16,
        record(a, i)[j] != record(b, i)[j],
    ensures
        4 <= j < 8,
        record_checksum(a[i]) != record_checksum(b[i]),
{
    lemma_same_layout(a, b);
    assert(a[i].tag.len() == 4);
    assert(b[i].tag == a[i].tag);
    if record_checksum(a[i]) == record_checksum(b[i]) {
        assert(record(a, i) =~= record(b, i));
    }
    if j < 4 || j >= 8 {
        assert(record(a, i) =~= record(b, i).update(4, record(a, i)[4]).update(5, record(a, i)[5]).update(
            6,
            record(a, i)[6],
        ).update(7, record(a, i)[7]));
    }
}

/// A directory that describes the tables finds each tag where the tables do.
pub proof fn lemma_first_record(d: Seq<u8>, ts: Seq<TableModel>, tag: Seq<u8>, i: int)
    requires
        directory_describes(d, ts),
        0 <= i,
    ensures
        first_record_from(d, ts.len() as int, tag, i) == first_from(ts, tag, i),
    decreases ts.len() - i,
{
    if i < ts.len() {
        assert(rec_tag(d, i) == ts[i].tag);
        lemma_first_record(d, ts, tag, i + 1);
    }
}

/// The hard-binding exclusions of tables written in order, whose `C2PA`
/// table is table `c`: its store (at the offset and length its header
/// gives), its directory checksum, and `checkSumAdjustment` when the first
/// `head` table holds it.
pub open spec fn binding_list(ts: Seq<TableModel>, c: int) -> Seq<Exclusion> {
    let d = ts[c].data;
    let base = seq![
        Exclusion { start: (table_offset(ts, c) + get_be32(d, 12)) as u64, length: get_be32(d, 16) as u64 },
        Exclusion { start: (record_pos(c) + 4) as u64, length: 4 },
    ];
    let h = find_index(ts, head_tag());
    if h < ts.len() && ts[h].data.len() >= 12 {
        base.push(Exclusion { start: (table_offset(ts, h) + 8) as u64, length: 4 })
    } else {
        base
    }
}

/// The ranges of [`binding_list`]: the store's first, then checksum fields of
/// four bytes.
pub proof fn lemma_binding_lengths(ts: Seq<TableModel>, c: int)
    ensures
        binding_list(ts, c).len() >= 2,
        binding_list(ts, c)[0].length == get_be32(ts[c].data, 16) as u64,
        binding_list(ts, c)[0].start == (table_offset(ts, c) + get_be32(ts[c].data, 12)) as u64,
        forall|m: int| 1 <= m < binding_list(ts, c).len() ==> (#[trigger] binding_list(ts, c)[m]).length == 4,
{
}

/// Whether table `c` of `ts` is the only `C2PA` table and holds a header
/// whose non-empty store lies inside it.
pub open spec fn binds_store(ts: Seq<TableModel>, c: int) -> bool {
    let d = ts[c].data;
    &&& 0 <= c < ts.len()
    &&& ts[c].tag == c2pa_tag()
    &&& tag_count(ts, c2pa_tag()) == 1
    &&& d.len() >= 20
    &&& get_be32(d, 12) != 0
    &&& get_be32(d, 16) != 0
    &&& get_be32(d, 12) + get_be32(d, 16) <= d.len()
}

/// The exclusions of sorted tables written in order are their
/// [`binding_list`], sorted by start.
pub proof fn lemma_written_exclusions(v: u32, ts: Seq<TableModel>, c: int)
    requires
        writes_back(v, ts),
        sorted_by_tag(ts),
        binds_store(ts, c),
    ensures
        exclusions_of(write_tables(v, ts)) == Ok::<Seq<Exclusion>, crate::error::ErrorKind>(
            sort_by_start(binding_list(ts, c)),
        ),
        crate::binding::store_exclusion(write_tables(v, ts)) == binding_list(ts, c)[0],
{
    reveal(exclusions_of);
    let s = write_tables(v, ts);
    let n = ts.len() as int;
    lemma_parse_written(v, ts);
    let g = parse_font(s).unwrap();
    assert(num_tables(s) == n);
    lemma_first_record(s, ts, c2pa_tag(), 0);
    lemma_first_record(s, ts, head_tag(), 0);
    lemma_unique_index(ts, c2pa_tag(), c);
    lemma_last_head(ts, n);
    if let Some(h) = last_head(ts) {
        lemma_c2pa_before_head();
        lemma_sorted_before(ts, c, h);
    }
    lemma_reads_back_before_head(g, v, ts, c);
    let off = rec_offset(s, c);
    assert(off == table_offset(ts, c));
    assert(rec_length(s, c) == ts[c].data.len());
    assert(g.tables[c].data == s.subrange(off, off + rec_length(s, c)));
    let d = ts[c].data;
    assert(get_be32(s, off + 12) == get_be32(d, 12)) by {
        assert(s[off + 12] == d[12] && s[off + 13] == d[13] && s[off + 14] == d[14] && s[off + 15] == d[15]);
    }
    assert(get_be32(s, off + 16) == get_be32(d, 16)) by {
        assert(s[off + 16] == d[16] && s[off + 17] == d[17] && s[off + 18] == d[18] && s[off + 19] == d[19]);
    }
    let hi = find_index(ts, head_tag());
    lemma_first_from(ts, head_tag(), 0);
    let so = get_be32(d, 12) as int;
    let sl = get_be32(d, 16) as int;
    assert(exclusion_list(s, n, c, hi, off + so, sl) =~= binding_list(ts, c));
}

/// The `C2PA` table of sorted tables is written as it stands: it comes
/// before any `head` table, away from `checkSumAdjustment`.
pub proof fn lemma_c2pa_written(v: u32, ts: Seq<TableModel>, c: int, j: int)
    requires
        writes_back(v, ts),
        sorted_by_tag(ts),
        0 <= c < ts.len(),
        ts[c].tag == c2pa_tag(),
        0 <= j < ts[c].data.len(),
    ensures
        write_tables(v, ts)[table_offset(ts, c) + j] == ts[c].data[j],
        table_offset(ts, c) + ts[c].data.len() <= write_tables(v, ts).len(),
{
    lemma_parse_written(v, ts);
    lemma_last_head(ts, ts.len() as int);
    if let Some(h) = last_head(ts) {
        lemma_c2pa_before_head();
        lemma_sorted_before(ts, c, h);
        lemma_align4(ts[c].data.len() as int);
        lemma_prefix_len_mono(ts, c + 1, h);
    }
    let s = write_tables(v, ts);
    let g = parse_font(s).unwrap();
    assert(g.tables[c].data[j] == ts[c].data[j]);
    assert(rec_offset(s, c) == table_offset(ts, c));
    assert(rec_length(s, c) == ts[c].data.len());
}

/// The data of a table other than the last `head` table lies away from
/// `checkSumAdjustment`, when the `head` table holds that field.
pub proof fn lemma_outside_other(ts: Seq<TableModel>, h: int, i: int, j: int)
    requires
        last_head(ts) == Some(h),
        0 <= h < ts.len(),
        ts[h].data.len() >= 12,
        0 <= i < ts.len(),
        i != h,
        0 <= j < ts[i].data.len(),
    ensures
        outside_adjustment(ts, table_offset(ts, i) + j),
{
    lemma_align4(ts[i].data.len() as int);
    lemma_align4(ts[h].data.len() as int);
    if i < h {
        lemma_prefix_len_mono(ts, i + 1, h);
    } else {
        lemma_prefix_len_mono(ts, h + 1, i);
    }
}

/// A table that reads back from a written font keeps its directory
/// checksum, when every `head` table holds `checkSumAdjustment`.
pub proof fn lemma_same_checksum(v: u32, a: Seq<TableModel>, g: crate::sfnt::FontModel, i: int)
    requires
        reads_back(g, v, a),
        0 <= i < a.len(),
        forall|k: int| 0 <= k < a.len() && (#[trigger] a[k]).tag == head_tag() ==> a[k].data.len() >= 12,
    ensures
        record_checksum(g.tables[i]) == record_checksum(a[i]),
{
    lemma_last_head(a, a.len() as int);
    let gd = g.tables[i].data;
    let ad = a[i].data;
    if last_head(a) == Some(i) {
        lemma_splice(gd, 8, zeros(4));
        lemma_splice(ad, 8, zeros(4));
        assert(head_zeroed(gd) =~= head_zeroed(ad)) by {
            assert forall|j: int| 0 <= j < ad.len() implies head_zeroed(gd)[j] == head_zeroed(ad)[j] by {
                if 8 <= j < 12 {
                    assert(splice(gd, 8, zeros(4))[8 + (j - 8)] == zeros(4)[j - 8]);
                    assert(splice(ad, 8, zeros(4))[8 + (j - 8)] == zeros(4)[j - 8]);
                } else {
                    assert(gd[j] == ad[j]);
                }
            }
        }
    } else {
        assert(gd =~= ad) by {
            assert forall|j: int| 0 <= j < ad.len() implies gd[j] == ad[j] by {
                if let Some(h) = last_head(a) {
                    lemma_outside_other(a, h, i, j);
                }
            }
        }
    }
}

/// Where a font written from `a` and one written from `b` differ, when `b`
/// is what reads back from the first with table `c` replaced by one of the
/// same shape that agrees with it before its store, whose store runs to the
/// table's end: inside one of the ranges of `binding_list(a, c)`.
pub proof fn lemma_rewrite_diff(
    v: u32,
    a: Seq<TableModel>,
    g: crate::sfnt::FontModel,
    b: Seq<TableModel>,
    c: int,
    x: int,
) -> (m: int)
    requires
        writes_back(v, a),
        writes_back(v, b),
        reads_back(g, v, a),
        same_shape(a, b),
        binds_store(a, c),
        forall|i: int| 0 <= i < a.len() && i != c ==> b[i] == #[trigger] g.tables[i],
        forall|j: int| 0 <= j < get_be32(a[c].data, 12) ==> #[trigger] b[c].data[j] == a[c].data[j],
        get_be32(a[c].data, 12) + get_be32(a[c].data, 16) == a[c].data.len(),
        tag_count(a, head_tag()) <= 1,
        forall|k: int| 0 <= k < a.len() && (#[trigger] a[k]).tag == head_tag() ==> a[k].data.len() >= 12,
        0 <= x < font_len(a),
        write_tables(v, a)[x] != write_tables(v, b)[x],
    ensures
        0 <= m < binding_list(a, c).len(),
        binding_list(a, c)[m].start <= x < binding_list(a, c)[m].start + binding_list(a, c)[m].length,
{
    lemma_same_layout(a, b);
    lemma_written(v, a);
    lemma_written(v, b);
    lemma_last_head(a, a.len() as int);
    lemma_prefix_len_mono(a, 0, c);
    let bl = binding_list(a, c);
    if !outside_adjustment(a, x) {
        let h = last_head(a).unwrap();
        lemma_count_pos(a, head_tag(), h, h);
        lemma_unique_index(a, head_tag(), h);
        lemma_prefix_len_mono(a, 0, h);
        assert(bl[2].start == table_offset(a, h) + 8);
        2
    } else {
        assert(outside_adjustment(b, x));
        crate::layout::lemma_raw_layout(v, a);
        crate::layout::lemma_raw_layout(v, b);
        assert(write_tables(v, a)[x] == raw_font(v, a)[x]);
        assert(write_tables(v, b)[x] == raw_font(v, b)[x]);
        let (isrec, i, j) = lemma_raw_diff(v, a, b, x);
        if isrec {
            lemma_record_diff(a, b, i, j);
            if i != c {
                lemma_same_checksum(v, a, g, i);
                assert(b[i] == g.tables[i]);
            }
            assert(crate::sfnt::data_start(a.len() as int) <= font_len(a)) by {
                lemma_prefix_len_mono(a, 0, a.len() as int);
            }
            1
        } else {
            if i != c {
                assert(b[i] == g.tables[i]);
            }
            0
        }
    }
}

/// Inserting into sorted position puts the table at some index `j`.
pub proof fn lemma_insert_sorted_index(s: Seq<TableModel>, t: TableModel) -> (j: int)
    ensures
        0 <= j <= s.len(),
        insert_sorted(s, t) == s.insert(j, t),
    decreases s.len(),
{
    if s.len() == 0 {
        assert(s.insert(0, t) =~= seq![t]);
        0
    } else if tag_key(s.last().tag) <= tag_key(t.tag) {
        assert(s.insert(s.len() as int, t) =~= s.push(t));
        s.len() as int
    } else {
        let j = lemma_insert_sorted_index(s.drop_last(), t);
        assert(s.drop_last().insert(j, t).push(s.last()) =~= s.insert(j, t));
        j
    }
}

/// Fonts written from tables of the same shape, equal except in bytes 8..12
/// of the last `head` table, which holds them, are the same: those bytes are
/// `checkSumAdjustment`, which writing sets.
pub proof fn lemma_write_ignores_adjustment(v: u32, a: Seq<TableModel>, b: Seq<TableModel>)
    requires
        same_shape(a, b),
        tags4(a),
        adjustment_fits(a),
        forall|i: int, j: int|
            0 <= i < a.len() && 0 <= j < a[i].data.len() && !(last_head(a) == Some(i) && 8 <= j < 12) ==> #[trigger] b[i].data[j]
                == a[i].data[j],
        last_head(a) matches Some(h) ==> a[h].data.len() >= 12,
    ensures
        write_tables(v, a) == write_tables(v, b),
{
    lemma_same_layout(a, b);
    lemma_last_head(a, a.len() as int);
    crate::layout::lemma_raw_layout(v, a);
    crate::layout::lemma_raw_layout(v, b);
    let ra = raw_font(v, a);
    let rb = raw_font(v, b);
    // The records agree: a `head` table's checksum skips bytes 8..12.
    assert forall|i: int| 0 <= i < a.len() implies #[trigger] record_checksum(a[i]) == record_checksum(b[i]) by {
        let ad = a[i].data;
        let bd = b[i].data;
        if last_head(a) == Some(i) {
            lemma_splice(ad, 8, zeros(4));
            lemma_splice(bd, 8, zeros(4));
            assert(head_zeroed(ad) =~= head_zeroed(bd)) by {
                assert forall|j: int| 0 <= j < ad.len() implies head_zeroed(ad)[j] == head_zeroed(bd)[j] by {
                    if 8 <= j < 12 {
                        assert(splice(ad, 8, zeros(4))[8 + (j - 8)] == zeros(4)[j - 8]);
                        assert(splice(bd, 8, zeros(4))[8 + (j - 8)] == zeros(4)[j - 8]);
                    } else {
                        assert(bd[j] == ad[j]);
                    }
                }
            }
        } else {
            assert(ad =~= bd) by {
                assert forall|j: int| 0 <= j < ad.len() implies ad[j] == bd[j] by {
                    assert(b[i].data[j] == a[i].data[j]);
                }
            }
        }
    }
    assert forall|x: int| 0 <= x < ra.len() && outside_adjustment(a, x) implies ra[x] == rb[x] by {
        if ra[x] != rb[x] {
            let (isrec, i, j) = lemma_raw_diff(v, a, b, x);
            if isrec {
                lemma_record_diff(a, b, i, j);
                assert(record_checksum(a[i]) == record_checksum(b[i]));
            } else {
                assert(b[i].data[j] == a[i].data[j]) by {
                    if last_head(a) == Some(i) && 8 <= j < 12 {
                        lemma_prefix_len_mono(a, 0, i);
                    }
                }
            }
        }
    }
    reveal(write_tables);
    if let Some(h) = last_head(a) {
        let p = adjustment_pos(a, h);
        lemma_prefix_len_mono(a, 0, h);
        lemma_splice(ra, p, zeros(4));
        lemma_splice(rb, p, zeros(4));
        assert(splice(ra, p, zeros(4)) =~= splice(rb, p, zeros(4))) by {
            assert forall|x: int| 0 <= x < ra.len() implies splice(ra, p, zeros(4))[x] == splice(rb, p, zeros(4))[x] by {
                if p <= x < p + 4 {
                    assert(splice(ra, p, zeros(4))[p + (x - p)] == zeros(4)[x - p]);
                    assert(splice(rb, p, zeros(4))[p + (x - p)] == zeros(4)[x - p]);
                }
            }
        }
    } else {
        assert(ra =~= rb);
    }
}

/// Removing a table keeps the tables sorted.
pub proof fn lemma_remove_sorted(s: Seq<TableModel>, c: int)
    requires
        sorted_by_tag(s),
        0 <= c < s.len(),
    ensures
        sorted_by_tag(s.remove(c)),
{
    let r = s.remove(c);
    assert forall|i: int, j: int| 0 <= i < j < r.len() implies tag_key(#[trigger] r[i].tag) <= tag_key(
        #[trigger] r[j].tag,
    ) by {
        let si = if i < c { i } else { i + 1 };
        let sj = if j < c { j } else { j + 1 };
        assert(r[i] == s[si] && r[j] == s[sj]);
    }
}

/// Removing a table that is not a `head` table shifts the last `head`
/// table's index down when it came after it.
pub proof fn lemma_last_head_remove(s: Seq<TableModel>, c: int)
    requires
        0 <= c < s.len(),
        s[c].tag != head_tag(),
    ensures
        last_head(s.remove(c)) == match last_head(s) {
            Some(h) => Some(if h < c { h } else { h - 1 }),
            None => None::<int>,
        },
{
    let r = s.remove(c);
    lemma_last_head(s, s.len() as int);
    lemma_last_head(r, r.len() as int);
    match last_head(s) {
        Some(h) => {
            let k = if h < c { h } else { h - 1 };
            assert(r[k] == s[h]);
            match last_head(r) {
                Some(h2) => {
                    let s2 = if h2 < c { h2 } else { h2 + 1 };
                    assert(r[h2] == s[s2]);
                    if h2 > k {
                        assert(s2 > h);
                    }
                },
                None => {},
            }
        },
        None => {
            if let Some(h2) = last_head(r) {
                let s2 = if h2 < c { h2 } else { h2 + 1 };
                assert(r[h2] == s[s2]);
            }
        },
    }
}

/// When every `head` table holds `checkSumAdjustment`, the field lies
/// inside the written font.
pub proof fn lemma_heads_fit(ts: Seq<TableModel>)
    requires
        forall|k: int| 0 <= k < ts.len() && (#[trigger] ts[k]).tag == head_tag() ==> ts[k].data.len() >= 12,
    ensures
        adjustment_fits(ts),
{
    lemma_last_head(ts, ts.len() as int);
    if let Some(h) = last_head(ts) {
        lemma_align4(ts[h].data.len() as int);
        lemma_prefix_len_mono(ts, h + 1, ts.len() as int);
    }
}

} // verus!
