//! Properties of the library as a whole: what reading back a written font
//! gives, that its offsets are aligned and its checksums hold, what reading
//! an embedded, filled or removed manifest gives, that embedding keeps the
//! other tables and makes a compliant font, and that the hard binding
//! survives filling a reserved manifest.
use vstd::prelude::*;
use crate::bytes::{
    be16_bytes, be32_bytes, get_be32, lemma_align4, lemma_be32_roundtrip, lemma_splice, splice, wrap_sub, zeros,
    checksum,
};
use crate::layout::{
    adjustment_fits, adjustment_value, directory_describes, lemma_parse_written, lemma_written,
    reads_back, tags4,
};
use crate::sfnt::{
    adjustment_pos, adjustment_valid, can_serialize, find_index, font_len, head_tag,
    is_known_version, last_head, last_head_upto, lemma_first_from, lemma_last_head,
    lemma_prefix_len_mono, locatable, num_tables, parse_font, prefix_len, raw_font, rec_length,
    rec_offset, rec_tag, serialize_font,
    sort_tables, table_offset, tag_count, write_tables, FontModel, TableModel, CHECKSUM_MAGIC,
};
use crate::sorting::{
    all_tables, lemma_count_pos, lemma_count_push, lemma_sort_count, lemma_sort_props,
    lemma_sort_sorted, lemma_sorted_before, lemma_without_tag_count, sorted_by_tag,
};
use crate::table::{
    c2pa_tag, decode_table, encode_table, lemma_decode_encode, round_trips, C2paTableModel,
    MAJOR_VERSION, MINOR_VERSION,
};
use crate::reader::{c2pa_table_of, manifest_of, manifest_uri_of};
use crate::verify::{compliance_of, lemma_count_tag};
use crate::writer::{
    embed_target, without_c2pa, fill_target, new_table, reserve_target, reserved_of,
    target_writable, with_c2pa, writable, written,
};
use crate::error::ErrorKind;
use crate::binding::{
    all_exclusions, excluded, exclusion_list, exclusions_of, first_record_from, lemma_excluded_sorted,
    lemma_first_record_range, lemma_sort_by_start_sorted, starts_sorted, Exclusion,
};
use crate::refill::{
    binding_list, binds_store, lemma_c2pa_written, lemma_replace_sorted, lemma_rewrite_diff, lemma_same_layout,
    lemma_written_exclusions, same_shape,
};
use crate::table::{
    encoded_len, fits_fields, lemma_decode_encode_normalized, lemma_encode_fields,
    lemma_encode_same_header, normalized, store_bytes, uri_bytes,
};
use crate::layout::{lemma_raw_layout, writes_back};

verus! {

/// Whether `f` can be serialized and read back: it can be serialized, its
/// tags have four bytes, its version is known, its table count fits the
/// 16-bit field and its serialized length the 32-bit offsets.
pub open spec fn round_trippable(f: FontModel) -> bool {
    &&& can_serialize(f)
    &&& tags4(f.tables)
    &&& is_known_version(f.version)
    &&& f.tables.len() <= u16::MAX
    &&& font_len(sort_tables(f.tables)) <= u32::MAX
}

/// Sorting keeps four-byte tags, the length and tag counts, and sorts.
pub proof fn lemma_sorted_tables(f: FontModel)
    requires
        tags4(f.tables),
    ensures
        tags4(sort_tables(f.tables)),
        sort_tables(f.tables).len() == f.tables.len(),
        sorted_by_tag(sort_tables(f.tables)),
{
    lemma_sort_props(f.tables, |t: TableModel| t.tag.len() == 4);
    lemma_sort_sorted(f.tables);
    let s = sort_tables(f.tables);
    assert forall|i: int| 0 <= i < s.len() implies (#[trigger] s[i]).tag.len() == 4 by {
        assert((|t: TableModel| t.tag.len() == 4)(s[i]));
    }
}

/// Tables with equal tags in order are sorted alike.
pub proof fn lemma_same_tags_sorted(a: Seq<TableModel>, b: Seq<TableModel>)
    requires
        sorted_by_tag(a),
        a.len() == b.len(),
        forall|i: int| 0 <= i < a.len() ==> (#[trigger] b[i]).tag == a[i].tag,
    ensures
        sorted_by_tag(b),
{
    assert forall|i: int, j: int| 0 <= i < j < b.len() implies crate::sfnt::tag_key(#[trigger] b[i].tag)
        <= crate::sfnt::tag_key(#[trigger] b[j].tag) by {
        assert(b[i].tag == a[i].tag && b[j].tag == a[j].tag);
    }
}

/// Serializing a font and parsing the result gives the font's tables sorted
/// by tag, in directory order, each with its tag and data length, and with
/// its data bytes everywhere except the `checkSumAdjustment` field that
/// serializing sets.
pub proof fn law_parse_serialized(f: FontModel)
    requires
        round_trippable(f),
    ensures
        parse_font(serialize_font(f)) is Ok,
        reads_back(parse_font(serialize_font(f)).unwrap(), f.version, sort_tables(f.tables)),
        sorted_by_tag(parse_font(serialize_font(f)).unwrap().tables),
{
    reveal(serialize_font);
    let ts = sort_tables(f.tables);
    lemma_sorted_tables(f);
    lemma_parse_written(f.version, ts);
    let g = parse_font(serialize_font(f)).unwrap();
    lemma_same_tags_sorted(ts, g.tables);
}

/// Padded lengths are multiples of four, and so are their sums.
proof fn lemma_prefix_len_aligned(ts: Seq<TableModel>, k: int)
    requires
        0 <= k,
    ensures
        prefix_len(ts, k) % 4 == 0,
    decreases k,
{
    if k > 0 {
        lemma_prefix_len_aligned(ts, k - 1);
        lemma_align4(ts[k - 1].data.len() as int);
    }
}

/// Every table of a serialized font starts at a multiple of four.
pub proof fn law_offsets_aligned(f: FontModel)
    requires
        round_trippable(f),
    ensures
        forall|i: int|
            0 <= i < f.tables.len() ==> #[trigger] rec_offset(serialize_font(f), i) % 4 == 0,
{
    reveal(serialize_font);
    let ts = sort_tables(f.tables);
    lemma_sorted_tables(f);
    lemma_parse_written(f.version, ts);
    assert forall|i: int| 0 <= i < f.tables.len() implies #[trigger] rec_offset(serialize_font(f), i) % 4
        == 0 by {
        lemma_prefix_len_aligned(ts, i);
    }
}

/// Without a table of `tag`, the count is zero.
proof fn lemma_count_zero(s: Seq<TableModel>, tag: Seq<u8>)
    requires
        forall|j: int| 0 <= j < s.len() ==> s[j].tag != tag,
    ensures
        tag_count(s, tag) == 0,
    decreases s.len(),
{
    if s.len() > 0 {
        lemma_count_zero(s.drop_last(), tag);
    }
}

/// The only table of a tag is the first one found, and the last.
pub proof fn lemma_unique_index(s: Seq<TableModel>, tag: Seq<u8>, i: int)
    requires
        tag_count(s, tag) == 1,
        0 <= i < s.len(),
        s[i].tag == tag,
    ensures
        find_index(s, tag) == i,
        forall|j: int| 0 <= j < s.len() && j != i ==> s[j].tag != tag,
{
    lemma_first_from(s, tag, 0);
    let f = find_index(s, tag);
    if f < s.len() && f != i {
        lemma_count_pos(s, tag, f, i);
    }
    assert forall|j: int| 0 <= j < s.len() && j != i implies s[j].tag != tag by {
        if s[j].tag == tag {
            lemma_count_pos(s, tag, j, i);
        }
    }
}

/// With exactly one `head` table, it is the last one.
pub proof fn lemma_unique_head(s: Seq<TableModel>) -> (h: int)
    requires
        tag_count(s, head_tag()) == 1,
    ensures
        0 <= h < s.len(),
        s[h].tag == head_tag(),
        last_head(s) == Some(h),
        find_index(s, head_tag()) == h,
{
    lemma_last_head(s, s.len() as int);
    match last_head(s) {
        Some(h) => {
            lemma_unique_index(s, head_tag(), h);
            h
        },
        None => {
            lemma_count_zero(s, head_tag());
            0
        },
    }
}

/// Whether `f` has exactly one `head` table, holding `checkSumAdjustment`.
pub open spec fn has_complete_head(f: FontModel) -> bool {
    &&& tag_count(f.tables, head_tag()) == 1
    &&& forall|i: int|
        0 <= i < f.tables.len() && (#[trigger] f.tables[i]).tag == head_tag() ==> f.tables[i].data.len()
            >= 12
}

/// A serialized font with exactly one `head` table that holds
/// `checkSumAdjustment` passes the checksum check.
#[verifier::spinoff_prover]
pub proof fn law_serialized_checksum_valid(f: FontModel)
    requires
        round_trippable(f),
        has_complete_head(f),
    ensures
        adjustment_valid(serialize_font(f)) == Ok::<bool, crate::error::ErrorKind>(true),
{
    reveal(serialize_font);
    let v = f.version;
    let ts = sort_tables(f.tables);
    let s = write_tables(v, ts);
    lemma_sorted_tables(f);
    lemma_sort_count(f.tables, head_tag());
    let hp = |t: TableModel| t.tag == head_tag() ==> t.data.len() >= 12;
    assert forall|i: int| 0 <= i < f.tables.len() implies hp(#[trigger] f.tables[i]) by {}
    lemma_sort_props(f.tables, hp);
    let h = lemma_unique_head(ts);
    assert(hp(ts[h]));
    lemma_parse_written(v, ts);
    lemma_written(v, ts);
    let g = parse_font(s).unwrap();
    // The parsed tables have the same tags, so the first head is `h`.
    assert(tag_count(g.tables, head_tag()) == 1) by {
        lemma_same_tag_count(ts, g.tables, head_tag());
    }
    lemma_unique_index(g.tables, head_tag(), h);
    let p = adjustment_pos(ts, h);
    let off = table_offset(ts, h);
    assert(rec_offset(s, h) == off);
    // The stored value is the one written.
    let a = adjustment_value(v, ts);
    lemma_be32_roundtrip(a);
    assert(g.tables[h].data == s.subrange(off, off + ts[h].data.len()));
    assert(get_be32(g.tables[h].data, 8) == get_be32(s, p));
    assert(s.subrange(p, p + 4) == be32_bytes(a));
    assert(get_be32(s, p) == get_be32(s.subrange(p, p + 4), 0));
    // Zeroing the field again gives the font the value was computed over.
    let raw = raw_font(v, ts);
    let z = splice(raw, p, zeros(4));
    lemma_prefix_len_mono(ts, 0, h);
    lemma_splice(raw, p, zeros(4));
    lemma_splice(s, p, zeros(4));
    assert(splice(s, p, zeros(4)) =~= z) by {
        assert forall|x: int| 0 <= x < z.len() implies splice(s, p, zeros(4))[x] == z[x] by {
            if p <= x < p + 4 {
                assert(splice(s, p, zeros(4))[p + (x - p)] == zeros(4)[x - p]);
                assert(z[p + (x - p)] == zeros(4)[x - p]);
            } else {
                assert(crate::layout::outside_adjustment(ts, x));
            }
        }
    }
    assert(a == wrap_sub(CHECKSUM_MAGIC, checksum(z)));
}

/// Tables with the same tags in order have the same tag counts.
pub proof fn lemma_same_tag_count(a: Seq<TableModel>, b: Seq<TableModel>, tag: Seq<u8>)
    requires
        a.len() == b.len(),
        forall|i: int| 0 <= i < a.len() ==> (#[trigger] b[i]).tag == a[i].tag,
    ensures
        tag_count(b, tag) == tag_count(a, tag),
    decreases a.len(),
{
    if a.len() > 0 {
        lemma_same_tag_count(a.drop_last(), b.drop_last(), tag);
        assert(b.last().tag == a.last().tag);
    }
}

/// Removing the tables of a tag keeps the properties the tables share, and
/// leaves no table of that tag.
pub proof fn lemma_without_tag_props(s: Seq<TableModel>, tag: Seq<u8>, p: spec_fn(TableModel) -> bool)
    requires
        all_tables(s, p),
    ensures
        all_tables(crate::sfnt::without_tag(s, tag), p),
        all_tables(crate::sfnt::without_tag(s, tag), |t: TableModel| t.tag != tag),
        crate::sfnt::without_tag(s, tag).len() <= s.len(),
    decreases s.len(),
{
    if s.len() > 0 {
        let d = s.drop_last();
        assert forall|i: int| 0 <= i < d.len() implies p(#[trigger] d[i]) by {
            assert(d[i] == s[i]);
        }
        lemma_without_tag_props(d, tag, p);
        let r = crate::sfnt::without_tag(d, tag);
        if s.last().tag != tag {
            assert(p(s[s.len() - 1]));
            assert forall|i: int| 0 <= i < r.push(s.last()).len() implies p(#[trigger] r.push(s.last())[i]) by {
                if i < r.len() {
                    assert(r.push(s.last())[i] == r[i]);
                }
            }
            assert forall|i: int| 0 <= i < r.push(s.last()).len() implies (|t: TableModel| t.tag != tag)(
                #[trigger] r.push(s.last())[i],
            ) by {
                if i < r.len() {
                    assert(r.push(s.last())[i] == r[i]);
                }
            }
        }
    }
}

/// The table that embedding writes as the `C2PA` table.
pub open spec fn c2pa_model(t: C2paTableModel) -> TableModel {
    TableModel { tag: c2pa_tag(), data: encode_table(t) }
}

/// A font with `t` written as its `C2PA` table has exactly one such table,
/// the record of `t`, and otherwise the font's tables: same `head` count,
/// same properties.
pub proof fn lemma_with_c2pa(f: FontModel, t: C2paTableModel, p: spec_fn(TableModel) -> bool)
    requires
        tags4(f.tables),
        all_tables(f.tables, p),
        p(c2pa_model(t)),
    ensures
        tags4(with_c2pa(f, t).tables),
        all_tables(with_c2pa(f, t).tables, p),
        all_tables(with_c2pa(f, t).tables, |x: TableModel| x.tag == c2pa_tag() ==> x == c2pa_model(t)),
        tag_count(with_c2pa(f, t).tables, c2pa_tag()) == 1,
        tag_count(with_c2pa(f, t).tables, head_tag()) == tag_count(f.tables, head_tag()),
        with_c2pa(f, t).tables.len() <= f.tables.len() + 1,
        with_c2pa(f, t).version == f.version,
{
    let w = crate::sfnt::without_tag(f.tables, c2pa_tag());
    let x = c2pa_model(t);
    let q = w.push(x);
    lemma_without_tag_props(f.tables, c2pa_tag(), p);
    lemma_without_tag_props(f.tables, c2pa_tag(), |y: TableModel| y.tag.len() == 4);
    assert forall|i: int| 0 <= i < f.tables.len() implies (|y: TableModel| y.tag.len() == 4)(
        #[trigger] f.tables[i],
    ) by {}
    assert forall|i: int| 0 <= i < q.len() implies p(#[trigger] q[i]) by {
        if i < w.len() {
            assert(q[i] == w[i]);
        }
    }
    assert forall|i: int| 0 <= i < q.len() implies (#[trigger] q[i]).tag.len() == 4 by {
        if i < w.len() {
            assert(q[i] == w[i]);
            assert((|y: TableModel| y.tag.len() == 4)(w[i]));
        }
    }
    assert forall|i: int| 0 <= i < q.len() implies (|y: TableModel| y.tag == c2pa_tag() ==> y == x)(
        #[trigger] q[i],
    ) by {
        if i < w.len() {
            assert(q[i] == w[i]);
            assert((|y: TableModel| y.tag != c2pa_tag())(w[i]));
        }
    }
    lemma_without_tag_count(f.tables, c2pa_tag(), c2pa_tag());
    lemma_without_tag_count(f.tables, c2pa_tag(), head_tag());
    lemma_count_push(w, x, c2pa_tag());
    lemma_count_push(w, x, head_tag());
    assert(c2pa_tag() != head_tag()) by {
        assert(c2pa_tag()[0] != head_tag()[0]);
    }
}

/// A parsed font's tags have four bytes and its version is known.
pub proof fn lemma_parsed_tags(d: Seq<u8>)
    requires
        parse_font(d) is Ok,
    ensures
        tags4(parse_font(d).unwrap().tables),
        is_known_version(parse_font(d).unwrap().version),
{
}

/// A table written before the last `head` table reads back unchanged.
pub proof fn lemma_reads_back_before_head(g: FontModel, v: u32, ts: Seq<TableModel>, i: int)
    requires
        writes_back(v, ts),
        reads_back(g, v, ts),
        0 <= i < ts.len(),
        last_head(ts) matches Some(h) ==> i < h,
    ensures
        g.tables[i] == ts[i],
{
    lemma_last_head(ts, ts.len() as int);
    assert(g.tables[i].data =~= ts[i].data) by {
        assert forall|j: int| 0 <= j < ts[i].data.len() implies g.tables[i].data[j] == ts[i].data[j] by {
            if let Some(h) = last_head(ts) {
                lemma_prefix_len_mono(ts, i + 1, h);
                lemma_align4(ts[i].data.len() as int);
            }
            assert(crate::layout::outside_adjustment(ts, table_offset(ts, i) + j));
        }
    }
}

/// The `C2PA` tag sorts before `head`.
pub proof fn lemma_c2pa_before_head()
    ensures
        crate::sfnt::tag_key(c2pa_tag()) < crate::sfnt::tag_key(head_tag()),
{
}

/// In a serialized font whose tables include exactly one `C2PA` table `x`,
/// reading the `C2PA` table finds `x`'s data: its index `c` in tag order.
pub proof fn lemma_serialized_c2pa(f: FontModel, x: TableModel) -> (c: int)
    requires
        round_trippable(f),
        tag_count(f.tables, c2pa_tag()) == 1,
        all_tables(f.tables, |y: TableModel| y.tag == c2pa_tag() ==> y == x),
    ensures
        0 <= c < sort_tables(f.tables).len(),
        sort_tables(f.tables)[c] == x,
        parse_font(serialize_font(f)) is Ok,
        find_index(parse_font(serialize_font(f)).unwrap().tables, c2pa_tag()) == c,
        c < parse_font(serialize_font(f)).unwrap().tables.len(),
        parse_font(serialize_font(f)).unwrap().tables[c] == x,
{
    reveal(serialize_font);
    let ts = sort_tables(f.tables);
    lemma_sorted_tables(f);
    lemma_sort_count(f.tables, c2pa_tag());
    lemma_sort_props(f.tables, |y: TableModel| y.tag == c2pa_tag() ==> y == x);
    lemma_parse_written(f.version, ts);
    let g = parse_font(serialize_font(f)).unwrap();
    lemma_first_from(ts, c2pa_tag(), 0);
    let c = find_index(ts, c2pa_tag());
    if c >= ts.len() {
        lemma_count_zero(ts, c2pa_tag());
    }
    assert((|y: TableModel| y.tag == c2pa_tag() ==> y == x)(ts[c]));
    lemma_same_tag_count(ts, g.tables, c2pa_tag());
    lemma_unique_index(g.tables, c2pa_tag(), c);
    lemma_last_head(ts, ts.len() as int);
    if let Some(h) = last_head(ts) {
        lemma_c2pa_before_head();
        lemma_sorted_before(ts, c, h);
    }
    lemma_reads_back_before_head(g, f.version, ts, c);
    c
}

/// Reading the `C2PA` table of a font serialized with `t` written as its
/// `C2PA` table gives `t`, when `t` survives a round trip and the font can
/// be read back.
proof fn lemma_read_with_c2pa(f: FontModel, t: C2paTableModel)
    requires
        tags4(f.tables),
        is_known_version(f.version),
        round_trips(t),
        can_serialize(with_c2pa(f, t)),
        with_c2pa(f, t).tables.len() <= u16::MAX,
        font_len(sort_tables(with_c2pa(f, t).tables)) <= u32::MAX,
    ensures
        c2pa_table_of(serialize_font(with_c2pa(f, t))) == Ok::<C2paTableModel, ErrorKind>(t),
{
    let w = with_c2pa(f, t);
    lemma_with_c2pa(f, t, |y: TableModel| true);
    assert(round_trippable(w));
    let c = lemma_serialized_c2pa(w, c2pa_model(t));
    lemma_decode_encode(t);
    let g = parse_font(serialize_font(w)).unwrap();
    assert(decode_table(g.tables[c].data) == Some(t));
}

/// Reading the `C2PA` table of a font that embedding wrote gives the table
/// that was embedded, so reading the manifest gives the embedded store and
/// reading the URI gives the embedded URI; this holds when the table
/// survives a round trip ([`round_trips`]) and the font can be read back.
pub proof fn law_read_embedded(d: Seq<u8>, uri: Option<Seq<char>>, store: Option<Seq<u8>>)
    requires
        embed_target(d, uri, store) is Ok,
        round_trips(new_table(uri, store)),
        writable(parse_font(d).unwrap(), new_table(uri, store)),
        with_c2pa(parse_font(d).unwrap(), new_table(uri, store)).tables.len() <= u16::MAX,
        font_len(sort_tables(with_c2pa(parse_font(d).unwrap(), new_table(uri, store)).tables))
            <= u32::MAX,
    ensures
        c2pa_table_of(written(embed_target(d, uri, store)).unwrap()) == Ok::<
            C2paTableModel,
            ErrorKind,
        >(new_table(uri, store)),
        manifest_uri_of(written(embed_target(d, uri, store)).unwrap()) == Ok::<
            Option<Seq<char>>,
            ErrorKind,
        >(uri),
        store matches Some(m) ==> manifest_of(written(embed_target(d, uri, store)).unwrap()) == Ok::<
            Seq<u8>,
            ErrorKind,
        >(m),
        store is None ==> manifest_of(written(embed_target(d, uri, store)).unwrap()) == Err::<
            Seq<u8>,
            ErrorKind,
        >(ErrorKind::InvalidTable),
{
    let f = parse_font(d).unwrap();
    let t = new_table(uri, store);
    lemma_parsed_tags(d);
    lemma_with_c2pa(f, t, |y: TableModel| true);
    lemma_read_with_c2pa(f, t);
}

/// The table that reserving `n` bytes with `uri` writes: a zero-filled
/// store of `n` bytes.
pub open spec fn reserved_table(uri: Option<Seq<char>>, n: usize) -> C2paTableModel {
    new_table(uri, Some(zeros(n as nat)))
}

/// The table that filling a font reserved with `uri` and `n` bytes with
/// `signed` writes: the URI as read back, and `signed` padded with zeros to
/// `n` bytes.
pub open spec fn filled_table(uri: Option<Seq<char>>, n: usize, signed: Seq<u8>) -> C2paTableModel {
    new_table(normalized(reserved_table(uri, n)).uri, Some(signed + zeros((n - signed.len()) as nat)))
}

/// Whether reserving `n` bytes in `d` with `uri` gives a font that filling
/// rewrites in place: `d` parses, `n` is not zero, the reserved font can be
/// written and read back, with its table record, and every `head` table
/// holds `checkSumAdjustment`.
pub open spec fn refillable(d: Seq<u8>, n: usize, uri: Option<Seq<char>>) -> bool {
    let f = parse_font(d).unwrap();
    let t = reserved_table(uri, n);
    &&& n > 0
    &&& parse_font(d) is Ok
    &&& writable(f, t)
    &&& fits_fields(t)
    &&& with_c2pa(f, t).tables.len() <= u16::MAX
    &&& font_len(sort_tables(with_c2pa(f, t).tables)) <= u32::MAX
    &&& heads_complete(f.tables)
}

/// The tables of the font that reserving writes, in the order written.
pub open spec fn reserved_tables(d: Seq<u8>, n: usize, uri: Option<Seq<char>>) -> Seq<TableModel> {
    sort_tables(with_c2pa(parse_font(d).unwrap(), reserved_table(uri, n)).tables)
}

/// A `head` table, where there is one, holds `checkSumAdjustment`.
pub open spec fn heads_complete(ts: Seq<TableModel>) -> bool {
    forall|i: int| 0 <= i < ts.len() && (#[trigger] ts[i]).tag == head_tag() ==> ts[i].data.len() >= 12
}

/// What reserving writes, and what reading it back gives: table `c` is the
/// `C2PA` table of the reserved record, with its store bound.
#[verifier::spinoff_prover]
proof fn lemma_reserved(d: Seq<u8>, n: usize, uri: Option<Seq<char>>) -> (c: int)
    requires
        refillable(d, n, uri),
    ensures
        ({
            let v = parse_font(d).unwrap().version;
            let ts = reserved_tables(d, n, uri);
            let s = write_tables(v, ts);
            let g = parse_font(s).unwrap();
            &&& written(reserve_target(d, n, uri)) == Ok::<Seq<u8>, ErrorKind>(s)
            &&& writes_back(v, ts)
            &&& sorted_by_tag(ts)
            &&& binds_store(ts, c)
            &&& ts[c] == c2pa_model(reserved_table(uri, n))
            &&& tag_count(ts, head_tag()) == tag_count(parse_font(d).unwrap().tables, head_tag())
            &&& heads_complete(ts)
            &&& can_serialize(with_c2pa(parse_font(d).unwrap(), reserved_table(uri, n)))
            &&& parse_font(s) is Ok
            &&& reads_back(g, v, ts)
            &&& sorted_by_tag(g.tables)
            &&& tags4(g.tables)
            &&& find_index(g.tables, c2pa_tag()) == c
            &&& tag_count(g.tables, c2pa_tag()) == 1
            &&& g.tables[c] == ts[c]
        }),
{
    let f = parse_font(d).unwrap();
    let v = f.version;
    let t = reserved_table(uri, n);
    let w = with_c2pa(f, t);
    let ts = sort_tables(w.tables);
    lemma_parsed_tags(d);
    let hp = |x: TableModel| x.tag == head_tag() ==> x.data.len() >= 12;
    assert forall|i: int| 0 <= i < f.tables.len() implies hp(#[trigger] f.tables[i]) by {}
    assert(c2pa_tag() != head_tag()) by {
        assert(c2pa_tag()[0] != head_tag()[0]);
    }
    lemma_with_c2pa(f, t, hp);
    assert(round_trippable(w));
    reveal(serialize_font);
    let c = lemma_serialized_c2pa(w, c2pa_model(t));
    law_parse_serialized(w);
    lemma_sorted_tables(w);
    let s = write_tables(v, ts);
    assert(serialize_font(w) == s);
    let g = parse_font(s).unwrap();
    lemma_parsed_tags(s);
    lemma_sort_count(w.tables, c2pa_tag());
    lemma_sort_count(w.tables, head_tag());
    lemma_same_tag_count(ts, g.tables, c2pa_tag());
    lemma_sort_props(w.tables, hp);
    assert forall|i: int| 0 <= i < ts.len() && (#[trigger] ts[i]).tag == head_tag() implies ts[i].data.len()
        >= 12 by {
        assert(hp(ts[i]));
    }
    lemma_encode_fields(t);
    c
}

/// Replacing the `C2PA` table `c` read back from tables `a` written in order
/// by the record of `t1`, whose record has the shape of `t0`'s, gives tables
/// `b` of the same shape, written as they stand, that bind the same ranges.
#[verifier::spinoff_prover]
proof fn lemma_rewrite_step(
    v: u32,
    a: Seq<TableModel>,
    g: FontModel,
    c: int,
    t0: C2paTableModel,
    t1: C2paTableModel,
)
    requires
        writes_back(v, a),
        sorted_by_tag(a),
        reads_back(g, v, a),
        sorted_by_tag(g.tables),
        tags4(g.tables),
        tag_count(g.tables, c2pa_tag()) == 1,
        tag_count(a, c2pa_tag()) == 1,
        0 <= c < a.len(),
        a[c] == c2pa_model(t0),
        g.tables[c] == a[c],
        fits_fields(t0),
        t1.major == t0.major,
        t1.minor == t0.minor,
        uri_bytes(t1.uri) == uri_bytes(t0.uri),
        store_bytes(t1.store).len() == store_bytes(t0.store).len(),
        store_bytes(t0.store).len() > 0,
    ensures
        ({
            let b = g.tables.update(c, c2pa_model(t1));
            &&& sort_tables(with_c2pa(g, t1).tables) == b
            &&& writes_back(v, b)
            &&& same_shape(a, b)
            &&& sorted_by_tag(b)
            &&& binds_store(a, c)
            &&& binds_store(b, c)
            &&& get_be32(a[c].data, 16) == store_bytes(t0.store).len()
            &&& forall|i: int| 0 <= i < a.len() && i != c ==> b[i] == #[trigger] g.tables[i]
            &&& forall|j: int| 0 <= j < get_be32(a[c].data, 12) ==> #[trigger] b[c].data[j] == a[c].data[j]
            &&& get_be32(a[c].data, 12) + get_be32(a[c].data, 16) == a[c].data.len()
            &&& binding_list(a, c) == binding_list(b, c)
            &&& encoded_len(t1) == encoded_len(t0)
        }),
{
    let x1 = c2pa_model(t1);
    let b = g.tables.update(c, x1);
    lemma_replace_sorted(g.tables, c, x1);
    lemma_encode_same_header(t0, t1);
    lemma_encode_fields(t0);
    lemma_encode_fields(t1);
    assert(same_shape(a, b)) by {
        assert forall|i: int| 0 <= i < a.len() implies (#[trigger] b[i]).tag == a[i].tag by {
            if i != c {
                assert(b[i] == g.tables[i]);
            }
        }
        assert forall|i: int| 0 <= i < a.len() implies (#[trigger] b[i]).data.len() == a[i].data.len() by {
            if i != c {
                assert(b[i] == g.tables[i]);
            }
        }
    }
    lemma_same_layout(a, b);
    lemma_same_tags_sorted(a, b);
    lemma_same_tag_count(a, b, c2pa_tag());
    assert(b[c] == x1);
    assert(get_be32(b[c].data, 12) == get_be32(a[c].data, 12));
    assert(get_be32(b[c].data, 16) == get_be32(a[c].data, 16));
    assert(table_offset(a, c) == table_offset(b, c));
    let h = find_index(a, head_tag());
    assert(find_index(a, head_tag()) == find_index(b, head_tag()));
    lemma_first_from(a, head_tag(), 0);
    if h < a.len() {
        assert(table_offset(a, h) == table_offset(b, h));
        assert(b[h].data.len() == a[h].data.len());
    }
    assert(binding_list(a, c) =~= binding_list(b, c));
}

/// What filling the reserved font with `signed` writes: the tables read
/// back from it with table `c`, its `C2PA` table, replaced by the filled
/// record (see [`lemma_rewrite_step`]).
#[verifier::spinoff_prover]
proof fn lemma_filled(d: Seq<u8>, n: usize, uri: Option<Seq<char>>, signed: Seq<u8>) -> (c: int)
    requires
        refillable(d, n, uri),
        signed.len() <= n,
    ensures
        ({
            let v = parse_font(d).unwrap().version;
            let a = reserved_tables(d, n, uri);
            let s0 = write_tables(v, a);
            let g = parse_font(s0).unwrap();
            let t1 = filled_table(uri, n, signed);
            let b = g.tables.update(c, c2pa_model(t1));
            &&& written(reserve_target(d, n, uri)) == Ok::<Seq<u8>, ErrorKind>(s0)
            &&& fill_target(s0, signed) == Ok::<(FontModel, C2paTableModel), ErrorKind>((g, t1))
            &&& target_writable(fill_target(s0, signed))
            &&& written(fill_target(s0, signed)) == Ok::<Seq<u8>, ErrorKind>(write_tables(v, b))
            &&& writes_back(v, a)
            &&& writes_back(v, b)
            &&& reads_back(g, v, a)
            &&& same_shape(a, b)
            &&& sorted_by_tag(a)
            &&& sorted_by_tag(b)
            &&& binds_store(a, c)
            &&& binds_store(b, c)
            &&& get_be32(a[c].data, 16) == n
            &&& forall|i: int| 0 <= i < a.len() && i != c ==> b[i] == #[trigger] g.tables[i]
            &&& forall|j: int| 0 <= j < get_be32(a[c].data, 12) ==> #[trigger] b[c].data[j] == a[c].data[j]
            &&& get_be32(a[c].data, 12) + get_be32(a[c].data, 16) == a[c].data.len()
            &&& tag_count(a, head_tag()) == tag_count(parse_font(d).unwrap().tables, head_tag())
            &&& heads_complete(a)
            &&& binding_list(a, c) == binding_list(b, c)
            &&& a[c] == c2pa_model(reserved_table(uri, n))
        }),
{
    let c = lemma_reserved(d, n, uri);
    let f = parse_font(d).unwrap();
    let v = f.version;
    let a = reserved_tables(d, n, uri);
    let s0 = write_tables(v, a);
    let g = parse_font(s0).unwrap();
    let t0 = reserved_table(uri, n);
    let tn = normalized(t0);
    let t1 = filled_table(uri, n, signed);
    let x1 = c2pa_model(t1);
    let b = g.tables.update(c, x1);
    lemma_decode_encode_normalized(t0);
    assert(store_bytes(t0.store).len() == n);
    assert(tn.store == t0.store);
    assert(fill_target(s0, signed) == Ok::<(FontModel, C2paTableModel), ErrorKind>((g, t1)));
    assert(uri_bytes(tn.uri) == uri_bytes(t0.uri)) by {
        if uri_bytes(t0.uri).len() == 0 {
            assert(uri_bytes(t0.uri) =~= Seq::<u8>::empty());
        }
    }
    lemma_rewrite_step(v, a, g, c, t0, t1);
    lemma_same_layout(a, b);
    let w = with_c2pa(g, t1);
    lemma_serialize_is_write(w);
    assert(written(fill_target(s0, signed)) == Ok::<Seq<u8>, ErrorKind>(write_tables(v, b)));
    c
}

/// Filling a reserved font keeps its hard binding: reserving `n` bytes
/// succeeds, filling the result with a manifest of at most `n` bytes can be
/// written, gives a font of the same length with the same exclusions, and
/// changes no byte outside them, which are all the bytes a data hash over
/// those exclusions reads. This holds for every font that [`refillable`]
/// admits with at most one `head` table: with several, the exclusions cover
/// the first one's `checkSumAdjustment` while writing sets the last one's.
#[verifier::spinoff_prover]
pub proof fn law_fill_keeps_binding(d: Seq<u8>, n: usize, uri: Option<Seq<char>>, signed: Seq<u8>)
    requires
        refillable(d, n, uri),
        tag_count(parse_font(d).unwrap().tables, head_tag()) <= 1,
        signed.len() <= n,
    ensures
        reserved_of(d, n, uri) is Ok,
        target_writable(fill_target(reserved_of(d, n, uri).unwrap().0, signed)),
        written(fill_target(reserved_of(d, n, uri).unwrap().0, signed)) is Ok,
        ({
            let s0 = reserved_of(d, n, uri).unwrap().0;
            let ex = reserved_of(d, n, uri).unwrap().1;
            let s1 = written(fill_target(s0, signed)).unwrap();
            &&& s1.len() == s0.len()
            &&& exclusions_of(s1) == Ok::<Seq<Exclusion>, ErrorKind>(ex)
            &&& forall|x: int| 0 <= x < s0.len() && !excluded(ex, x) ==> #[trigger] s1[x] == s0[x]
        }),
{
    lemma_refill_binding(d, n, uri, signed);
}

/// What reserving and then filling give, in terms of the reserved tables
/// `a`, their `C2PA` table `c` and the filled tables `b`: the reservation and
/// its exclusions, and the filled font's exclusions and bytes.
#[verifier::spinoff_prover]
proof fn lemma_refill_binding(d: Seq<u8>, n: usize, uri: Option<Seq<char>>, signed: Seq<u8>) -> (c: int)
    requires
        refillable(d, n, uri),
        signed.len() <= n,
    ensures
        ({
            let v = parse_font(d).unwrap().version;
            let a = reserved_tables(d, n, uri);
            let s0 = write_tables(v, a);
            let g = parse_font(s0).unwrap();
            let b = g.tables.update(c, c2pa_model(filled_table(uri, n, signed)));
            let s1 = write_tables(v, b);
            let ex = crate::binding::sort_by_start(binding_list(a, c));
            &&& binds_store(a, c)
            &&& reserved_of(d, n, uri) == Ok::<(Seq<u8>, Seq<Exclusion>, u64), ErrorKind>(
                (s0, ex, crate::binding::store_exclusion(s0).start),
            )
            &&& ex.contains(crate::binding::store_exclusion(s0))
            &&& crate::binding::store_exclusion(s0).length == n as u64
            &&& target_writable(fill_target(s0, signed))
            &&& written(fill_target(s0, signed)) == Ok::<Seq<u8>, ErrorKind>(s1)
            &&& exclusions_of(s1) == Ok::<Seq<Exclusion>, ErrorKind>(ex)
            &&& s1.len() == s0.len()
            &&& tag_count(parse_font(d).unwrap().tables, head_tag()) <= 1 ==> forall|x: int|
                0 <= x < s0.len() && !excluded(ex, x) ==> #[trigger] s1[x] == s0[x]
        }),
{
    let c = lemma_filled(d, n, uri, signed);
    let v = parse_font(d).unwrap().version;
    let a = reserved_tables(d, n, uri);
    let s0 = write_tables(v, a);
    let g = parse_font(s0).unwrap();
    let b = g.tables.update(c, c2pa_model(filled_table(uri, n, signed)));
    let bl = binding_list(a, c);
    let ex = crate::binding::sort_by_start(bl);
    lemma_written_exclusions(v, a, c);
    lemma_written_exclusions(v, b, c);
    lemma_rewrite_keeps_bytes(v, a, g, b, c);
    assert(ex.contains(bl[0])) by {
        crate::binding::lemma_sort_by_start_contains(bl);
        assert(bl.contains(bl[0]));
    }
    c
}


/// Where reserving `n` bytes puts the store: its exclusion starts at `off`,
/// where the reserved font holds zeros and the filled one the padded
/// manifest.
#[verifier::spinoff_prover]
proof fn lemma_refill_window(d: Seq<u8>, n: usize, uri: Option<Seq<char>>, signed: Seq<u8>) -> (c: int)
    requires
        refillable(d, n, uri),
        signed.len() <= n,
    ensures
        ({
            let v = parse_font(d).unwrap().version;
            let a = reserved_tables(d, n, uri);
            let s0 = write_tables(v, a);
            let g = parse_font(s0).unwrap();
            let b = g.tables.update(c, c2pa_model(filled_table(uri, n, signed)));
            let s1 = write_tables(v, b);
            let off = table_offset(a, c) + get_be32(a[c].data, 12);
            &&& binds_store(a, c)
            &&& crate::binding::store_exclusion(s0).start as int == off
            &&& off + n <= s0.len()
            &&& off + n <= s1.len()
            &&& s0.subrange(off, off + n) == zeros(n as nat)
            &&& s1.subrange(off, off + n) == signed + zeros((n - signed.len()) as nat)
        }),
{
    let c = lemma_filled(d, n, uri, signed);
    let v = parse_font(d).unwrap().version;
    let a = reserved_tables(d, n, uri);
    let s0 = write_tables(v, a);
    let g = parse_font(s0).unwrap();
    let t1 = filled_table(uri, n, signed);
    let b = g.tables.update(c, c2pa_model(t1));
    let bl = binding_list(a, c);
    let off = table_offset(a, c) + get_be32(a[c].data, 12);
    lemma_written_exclusions(v, a, c);
    assert(b[c] == c2pa_model(t1));
    lemma_store_window(v, a, b, c, uri, n, signed);
    assert(bl[0].start as int == off) by {
        crate::refill::lemma_binding_lengths(a, c);
        lemma_parse_written(v, a);
    }
    c
}

/// Rewriting table `c` as [`lemma_rewrite_diff`] describes keeps the
/// font's length and every byte outside its exclusions.
proof fn lemma_rewrite_keeps_bytes(v: u32, a: Seq<TableModel>, g: FontModel, b: Seq<TableModel>, c: int)
    requires
        writes_back(v, a),
        writes_back(v, b),
        reads_back(g, v, a),
        same_shape(a, b),
        binds_store(a, c),
        forall|i: int| 0 <= i < a.len() && i != c ==> b[i] == #[trigger] g.tables[i],
        forall|j: int| 0 <= j < get_be32(a[c].data, 12) ==> #[trigger] b[c].data[j] == a[c].data[j],
        get_be32(a[c].data, 12) + get_be32(a[c].data, 16) == a[c].data.len(),
        heads_complete(a),
    ensures
        write_tables(v, b).len() == write_tables(v, a).len(),
        tag_count(a, head_tag()) <= 1 ==> forall|x: int|
            0 <= x < write_tables(v, a).len() && !excluded(
                crate::binding::sort_by_start(binding_list(a, c)),
                x,
            ) ==> #[trigger] write_tables(v, b)[x] == write_tables(v, a)[x],
{
    let s0 = write_tables(v, a);
    let s1 = write_tables(v, b);
    lemma_same_layout(a, b);
    lemma_raw_layout(v, a);
    lemma_raw_layout(v, b);
    lemma_written(v, a);
    lemma_written(v, b);
    let ex = crate::binding::sort_by_start(binding_list(a, c));
    if tag_count(a, head_tag()) <= 1 {
        assert forall|x: int| 0 <= x < s0.len() && !excluded(ex, x) implies #[trigger] s1[x] == s0[x] by {
            if s1[x] != s0[x] {
                let m = lemma_rewrite_diff(v, a, g, b, c, x);
                lemma_excluded_sorted(binding_list(a, c), m, x);
            }
        }
    }
}


/// Reading back what filling writes: the filled record, and, with a single
/// `head` table, a holding checksum.
#[verifier::spinoff_prover]
proof fn lemma_filled_reads(d: Seq<u8>, n: usize, uri: Option<Seq<char>>, signed: Seq<u8>) -> (c: int)
    requires
        refillable(d, n, uri),
        signed.len() <= n,
    ensures
        ({
            let v = parse_font(d).unwrap().version;
            let s0 = write_tables(v, reserved_tables(d, n, uri));
            let g = parse_font(s0).unwrap();
            let t1 = filled_table(uri, n, signed);
            let s1 = write_tables(v, g.tables.update(c, c2pa_model(t1)));
            &&& written(reserve_target(d, n, uri)) == Ok::<Seq<u8>, ErrorKind>(s0)
            &&& written(fill_target(s0, signed)) == Ok::<Seq<u8>, ErrorKind>(s1)
            &&& c2pa_table_of(s1) == Ok::<C2paTableModel, ErrorKind>(t1)
            &&& tag_count(parse_font(d).unwrap().tables, head_tag()) == 1 ==> adjustment_valid(s1) == Ok::<
                bool,
                ErrorKind,
            >(true)
        }),
{
    let c = lemma_filled(d, n, uri, signed);
    let c2 = lemma_reserved(d, n, uri);
    lemma_unique_index(reserved_tables(d, n, uri), c2pa_tag(), c);
    lemma_unique_index(reserved_tables(d, n, uri), c2pa_tag(), c2);
    assert(c2 == c);
    let f = parse_font(d).unwrap();
    let v = f.version;
    let a = reserved_tables(d, n, uri);
    let s0 = write_tables(v, a);
    let g = parse_font(s0).unwrap();
    let t0 = reserved_table(uri, n);
    let t1 = filled_table(uri, n, signed);
    let b = g.tables.update(c, c2pa_model(t1));
    assert(uri_bytes(normalized(t0).uri) == uri_bytes(t0.uri)) by {
        if uri_bytes(t0.uri).len() == 0 {
            assert(uri_bytes(t0.uri) =~= Seq::<u8>::empty());
        }
    }
    lemma_encode_fields(t0);
    lemma_rewrite_step(v, a, g, c, t0, t1);
    let w = with_c2pa(g, t1);
    lemma_serialize_is_write(w);
    assert(written(fill_target(s0, signed)) == Ok::<Seq<u8>, ErrorKind>(write_tables(v, b)));
    lemma_parsed_tags(s0);
    lemma_sort_props(w.tables, |y: TableModel| true);
    assert(c2pa_table_of(write_tables(v, b)) == Ok::<C2paTableModel, ErrorKind>(t1)) by {
        lemma_encode_fields(t0);
        if let Some(u) = t1.uri {
            crate::table::lemma_encode_utf8_nonempty(u);
        }
        lemma_read_with_c2pa(g, t1);
    }
    if tag_count(f.tables, head_tag()) == 1 {
        assert(adjustment_valid(write_tables(v, b)) == Ok::<bool, ErrorKind>(true)) by {
            lemma_parsed_tags(d);
            lemma_with_c2pa(f, t0, |y: TableModel| true);
            lemma_sort_count(with_c2pa(f, t0).tables, head_tag());
            lemma_rewritten_checksum(v, a, g, t1);
        }
    }
    c
}

/// Filling a reserved font gives a font that reads back as filled: its
/// Manifest Store is `signed` padded with zeros to the reserved size, its URI
/// the reserved one (as read back: absent when empty), and, when the font has
/// a `head` table, its `checkSumAdjustment` holds.
#[verifier::spinoff_prover]
pub proof fn law_fill_reads_back(d: Seq<u8>, n: usize, uri: Option<Seq<char>>, signed: Seq<u8>)
    requires
        refillable(d, n, uri),
        signed.len() <= n,
    ensures
        written(reserve_target(d, n, uri)) is Ok,
        written(fill_target(written(reserve_target(d, n, uri)).unwrap(), signed)) is Ok,
        ({
            let s1 = written(fill_target(written(reserve_target(d, n, uri)).unwrap(), signed)).unwrap();
            &&& manifest_of(s1) == Ok::<Seq<u8>, ErrorKind>(signed + zeros((n - signed.len()) as nat))
            &&& manifest_uri_of(s1) == Ok::<Option<Seq<char>>, ErrorKind>(
                normalized(reserved_table(uri, n)).uri,
            )
            &&& tag_count(parse_font(d).unwrap().tables, head_tag()) == 1 ==> adjustment_valid(s1) == Ok::<
                bool,
                ErrorKind,
            >(true)
        }),
{
    let c = lemma_filled_reads(d, n, uri, signed);
}

/// Serializing writes the tables sorted by tag.
proof fn lemma_serialize_is_write(f: FontModel)
    ensures
        serialize_font(f) == write_tables(f.version, sort_tables(f.tables)),
{
    reveal(serialize_font);
}

/// A font serialized from tables that read back from a font written from
/// `a`, with `t1` written as their `C2PA` table, passes the checksum check
/// when `a` has exactly one `head` table and it holds `checkSumAdjustment`.
proof fn lemma_rewritten_checksum(v: u32, a: Seq<TableModel>, g: FontModel, t1: C2paTableModel)
    requires
        reads_back(g, v, a),
        tags4(g.tables),
        is_known_version(v),
        heads_complete(a),
        tag_count(a, head_tag()) == 1,
        can_serialize(with_c2pa(g, t1)),
        with_c2pa(g, t1).tables.len() <= u16::MAX,
        font_len(sort_tables(with_c2pa(g, t1).tables)) <= u32::MAX,
    ensures
        adjustment_valid(serialize_font(with_c2pa(g, t1))) == Ok::<bool, ErrorKind>(true),
{
    let w = with_c2pa(g, t1);
    let hp = |x: TableModel| x.tag == head_tag() ==> x.data.len() >= 12;
    assert forall|i: int| 0 <= i < g.tables.len() implies hp(#[trigger] g.tables[i]) by {
        assert(g.tables[i].tag == a[i].tag);
    }
    assert(hp(c2pa_model(t1))) by {
        assert(c2pa_tag()[0] != head_tag()[0]);
    }
    lemma_with_c2pa(g, t1, hp);
    lemma_same_tag_count(a, g.tables, head_tag());
    assert forall|i: int| 0 <= i < w.tables.len() && (#[trigger] w.tables[i]).tag == head_tag() implies w.tables[i].data.len()
        >= 12 by {
        assert(hp(w.tables[i]));
    }
    assert(round_trippable(w));
    law_serialized_checksum_valid(w);
}

/// The hard-binding exclusions of a font, whenever they can be computed,
/// are sorted by start and each lies inside the font.
pub proof fn law_exclusions_sorted_in_bounds(d: Seq<u8>)
    requires
        exclusions_of(d) is Ok,
        d.len() <= u64::MAX,
    ensures
        starts_sorted(exclusions_of(d).unwrap()),
        forall|k: int|
            0 <= k < exclusions_of(d).unwrap().len() ==> #[trigger] exclusions_of(d).unwrap()[k].start
                + exclusions_of(d).unwrap()[k].length <= d.len(),
{
    reveal(exclusions_of);
    let n = crate::sfnt::num_tables(d);
    let ci = first_record_from(d, n, c2pa_tag(), 0);
    let hi = first_record_from(d, n, head_tag(), 0);
    lemma_first_record_range(d, n, c2pa_tag(), 0);
    lemma_first_record_range(d, n, head_tag(), 0);
    let so = get_be32(d, rec_offset(d, ci) + 12) as int;
    let sl = get_be32(d, rec_offset(d, ci) + 16) as int;
    let list = exclusion_list(d, n, ci, hi, rec_offset(d, ci) + so, sl);
    let p = |e: Exclusion| e.start + e.length <= d.len();
    assert(all_exclusions(list, p)) by {
        assert(rec_offset(d, ci) + rec_length(d, ci) <= d.len());
        if hi < n {
            assert(rec_offset(d, hi) + rec_length(d, hi) <= d.len());
        }
        assert forall|i: int| 0 <= i < list.len() implies p(#[trigger] list[i]) by {}
    }
    lemma_sort_by_start_sorted(list, p);
    let ex = exclusions_of(d).unwrap();
    assert forall|k: int| 0 <= k < ex.len() implies #[trigger] ex[k].start + ex[k].length <= d.len() by {
        assert(p(ex[k]));
    }
}

/// Removing the `C2PA` tables of a font gives a font without one: reading
/// its table, and so its manifest and URI, gives `NotFound`; and when the font
/// has a single `head` table holding `checkSumAdjustment`, its checksum holds.
/// This holds whenever removing can write the font and its offsets fit the
/// 32-bit fields.
#[verifier::spinoff_prover]
pub proof fn law_remove_reads_none(d: Seq<u8>)
    requires
        parse_font(d) is Ok,
        can_serialize(without_c2pa(parse_font(d).unwrap())),
        font_len(sort_tables(without_c2pa(parse_font(d).unwrap()).tables)) <= u32::MAX,
    ensures
        c2pa_table_of(serialize_font(without_c2pa(parse_font(d).unwrap()))) == Err::<
            C2paTableModel,
            ErrorKind,
        >(ErrorKind::NotFound),
        has_complete_head(parse_font(d).unwrap()) ==> adjustment_valid(
            serialize_font(without_c2pa(parse_font(d).unwrap())),
        ) == Ok::<bool, ErrorKind>(true),
{
    let f = parse_font(d).unwrap();
    let w = without_c2pa(f);
    let ts = sort_tables(w.tables);
    lemma_parsed_tags(d);
    let p4 = |t: TableModel| t.tag.len() == 4;
    assert(all_tables(f.tables, p4));
    lemma_without_tag_props(f.tables, c2pa_tag(), p4);
    assert(tags4(w.tables)) by {
        assert forall|i: int| 0 <= i < w.tables.len() implies (#[trigger] w.tables[i]).tag.len() == 4 by {
            assert(p4(w.tables[i]));
        }
    }
    assert(round_trippable(w));
    let nc = |t: TableModel| t.tag != c2pa_tag();
    lemma_sort_props(w.tables, nc);
    law_parse_serialized(w);
    let g = parse_font(serialize_font(w)).unwrap();
    lemma_first_from(g.tables, c2pa_tag(), 0);
    if find_index(g.tables, c2pa_tag()) < g.tables.len() {
        let i = find_index(g.tables, c2pa_tag());
        assert(nc(ts[i]));
    }
    if has_complete_head(f) {
        let hp = |t: TableModel| t.tag == head_tag() ==> t.data.len() >= 12;
        assert(all_tables(f.tables, hp));
        lemma_without_tag_props(f.tables, c2pa_tag(), hp);
        lemma_without_tag_count(f.tables, c2pa_tag(), head_tag());
        assert(c2pa_tag() != head_tag()) by {
            assert(c2pa_tag()[0] != head_tag()[0]);
        }
        assert forall|i: int| 0 <= i < w.tables.len() && (#[trigger] w.tables[i]).tag == head_tag() implies w.tables[i].data.len()
            >= 12 by {
            assert(hp(w.tables[i]));
        }
        law_serialized_checksum_valid(w);
    }
}

/// A font that embedding wrote, from a font with a single `head` table
/// holding `checkSumAdjustment`, is compliant: it has one well-formed `C2PA`
/// table, of the version written, that carries the embedded store and URI,
/// and its checksum holds.
#[verifier::spinoff_prover]
pub proof fn law_embedded_compliant(d: Seq<u8>, uri: Option<Seq<char>>, store: Option<Seq<u8>>)
    requires
        embed_target(d, uri, store) is Ok,
        round_trips(new_table(uri, store)),
        writable(parse_font(d).unwrap(), new_table(uri, store)),
        with_c2pa(parse_font(d).unwrap(), new_table(uri, store)).tables.len() <= u16::MAX,
        font_len(sort_tables(with_c2pa(parse_font(d).unwrap(), new_table(uri, store)).tables))
            <= u32::MAX,
        has_complete_head(parse_font(d).unwrap()),
    ensures
        compliance_of(written(embed_target(d, uri, store)).unwrap()) is Ok,
        ({
            let r = compliance_of(written(embed_target(d, uri, store)).unwrap()).unwrap();
            &&& r.has_c2pa_table
            &&& r.table_version == Some((MAJOR_VERSION, MINOR_VERSION))
            &&& r.has_embedded_manifest == (store is Some)
            &&& r.has_remote_uri == (uri is Some)
            &&& r.checksum_valid
            &&& r.has_c2pa_table && (r.has_embedded_manifest || r.has_remote_uri) && r.checksum_valid
        }),
{
    let f = parse_font(d).unwrap();
    let t = new_table(uri, store);
    let w = with_c2pa(f, t);
    let s = serialize_font(w);
    lemma_parsed_tags(d);
    law_read_embedded(d, uri, store);
    let hp = |x: TableModel| x.tag == head_tag() ==> x.data.len() >= 12;
    assert(all_tables(f.tables, hp));
    assert(hp(c2pa_model(t))) by {
        assert(c2pa_tag()[0] != head_tag()[0]);
    }
    lemma_with_c2pa(f, t, hp);
    assert forall|i: int| 0 <= i < w.tables.len() && (#[trigger] w.tables[i]).tag == head_tag() implies w.tables[i].data.len()
        >= 12 by {
        assert(hp(w.tables[i]));
    }
    assert(round_trippable(w));
    law_serialized_checksum_valid(w);
    let c = lemma_serialized_c2pa(w, c2pa_model(t));
    let g = parse_font(s).unwrap();
    lemma_sorted_tables(w);
    lemma_sort_count(w.tables, c2pa_tag());
    lemma_parse_written(f.version, sort_tables(w.tables));
    reveal(serialize_font);
    lemma_same_tag_count(sort_tables(w.tables), g.tables, c2pa_tag());
    lemma_count_tag(g.tables, c2pa_tag(), g.tables.len() as int);
    assert(g.tables.subrange(0, g.tables.len() as int) =~= g.tables);
}

/// The store of the reserved record holds zeros, and that of the filled
/// record `signed` padded with zeros, both after the header and URI.
proof fn lemma_store_bytes(uri: Option<Seq<char>>, n: usize, signed: Seq<u8>, j: int)
    requires
        fits_fields(reserved_table(uri, n)),
        n > 0,
        signed.len() <= n,
        0 <= j < n,
    ensures
        ({
            let e0 = encode_table(reserved_table(uri, n));
            let e1 = encode_table(filled_table(uri, n, signed));
            let so = get_be32(e0, 12) as int;
            &&& so == 20 + uri_bytes(reserved_table(uri, n).uri).len()
            &&& e0[so + j] == 0
            &&& e1[so + j] == (signed + zeros((n - signed.len()) as nat))[j]
        }),
{
    let t0 = reserved_table(uri, n);
    let t1 = filled_table(uri, n, signed);
    assert(uri_bytes(normalized(t0).uri) == uri_bytes(t0.uri)) by {
        if uri_bytes(t0.uri).len() == 0 {
            assert(uri_bytes(t0.uri) =~= Seq::<u8>::empty());
        }
    }
    lemma_encode_fields(t0);
    lemma_encode_same_header(t0, t1);
    lemma_encode_fields(t1);
    let ul = uri_bytes(t0.uri).len() as int;
    assert(encode_table(t0)[20 + ul + j] == store_bytes(t0.store)[j]);
    assert(encode_table(t1)[20 + ul + j] == store_bytes(t1.store)[j]);
}

/// Reserving `n` bytes reports where the placeholder store lies: the
/// exclusions hold `n` bytes at the reported manifest offset, those bytes of
/// the reserved font are zero, and filling writes the signed manifest,
/// zero-padded, exactly there.
#[verifier::spinoff_prover]
pub proof fn law_reserved_offset(d: Seq<u8>, n: usize, uri: Option<Seq<char>>, signed: Seq<u8>)
    requires
        refillable(d, n, uri),
        signed.len() <= n,
    ensures
        reserved_of(d, n, uri) is Ok,
        written(fill_target(reserved_of(d, n, uri).unwrap().0, signed)) is Ok,
        ({
            let s0 = reserved_of(d, n, uri).unwrap().0;
            let off = reserved_of(d, n, uri).unwrap().2 as int;
            let s1 = written(fill_target(s0, signed)).unwrap();
            &&& reserved_of(d, n, uri).unwrap().1.contains(
                Exclusion { start: reserved_of(d, n, uri).unwrap().2, length: n as u64 },
            )
            &&& off + n <= s0.len()
            &&& off + n <= s1.len()
            &&& s0.subrange(off, off + n) == zeros(n as nat)
            &&& s1.subrange(off, off + n) == signed + zeros((n - signed.len()) as nat)
        }),
{
    let c = lemma_refill_binding(d, n, uri, signed);
    let c2 = lemma_refill_window(d, n, uri, signed);
    lemma_unique_index(reserved_tables(d, n, uri), c2pa_tag(), c);
    lemma_unique_index(reserved_tables(d, n, uri), c2pa_tag(), c2);
}


/// The store of the reserved `C2PA` table `c` of `a`, once written, holds
/// zeros; that of the filled table of `b` holds the padded manifest, at the
/// same place.
proof fn lemma_store_window(
    v: u32,
    a: Seq<TableModel>,
    b: Seq<TableModel>,
    c: int,
    uri: Option<Seq<char>>,
    n: usize,
    signed: Seq<u8>,
)
    requires
        writes_back(v, a),
        writes_back(v, b),
        sorted_by_tag(a),
        sorted_by_tag(b),
        same_shape(a, b),
        0 <= c < a.len(),
        a[c] == c2pa_model(reserved_table(uri, n)),
        b[c] == c2pa_model(filled_table(uri, n, signed)),
        fits_fields(reserved_table(uri, n)),
        n > 0,
        signed.len() <= n,
    ensures
        ({
            let off = table_offset(a, c) + get_be32(a[c].data, 12);
            &&& off + n <= write_tables(v, a).len()
            &&& off + n <= write_tables(v, b).len()
            &&& write_tables(v, a).subrange(off, off + n) == zeros(n as nat)
            &&& write_tables(v, b).subrange(off, off + n) == signed + zeros((n - signed.len()) as nat)
        }),
{
    let s0 = write_tables(v, a);
    let s1 = write_tables(v, b);
    let so = get_be32(a[c].data, 12) as int;
    let off = table_offset(a, c) + so;
    let z = zeros(n as nat);
    let p = signed + zeros((n - signed.len()) as nat);
    lemma_store_byte(v, a, b, c, uri, n, signed, n - 1);
    assert forall|j: int| 0 <= j < n implies #[trigger] s0.subrange(off, off + n)[j] == z[j] by {
        lemma_store_byte(v, a, b, c, uri, n, signed, j);
    }
    assert forall|j: int| 0 <= j < n implies #[trigger] s1.subrange(off, off + n)[j] == p[j] by {
        lemma_store_byte(v, a, b, c, uri, n, signed, j);
    }
    assert(p.len() == n);
    assert(s0.subrange(off, off + n) =~= z);
    assert(s1.subrange(off, off + n) =~= p);
}

/// Byte `j` of the store of [`lemma_store_window`].
proof fn lemma_store_byte(
    v: u32,
    a: Seq<TableModel>,
    b: Seq<TableModel>,
    c: int,
    uri: Option<Seq<char>>,
    n: usize,
    signed: Seq<u8>,
    j: int,
)
    requires
        writes_back(v, a),
        writes_back(v, b),
        sorted_by_tag(a),
        sorted_by_tag(b),
        same_shape(a, b),
        0 <= c < a.len(),
        a[c] == c2pa_model(reserved_table(uri, n)),
        b[c] == c2pa_model(filled_table(uri, n, signed)),
        fits_fields(reserved_table(uri, n)),
        n > 0,
        signed.len() <= n,
        0 <= j < n,
    ensures
        ({
            let off = table_offset(a, c) + get_be32(a[c].data, 12);
            &&& 0 <= off
            &&& off + n <= write_tables(v, a).len()
            &&& off + n <= write_tables(v, b).len()
            &&& write_tables(v, a)[off + j] == 0
            &&& write_tables(v, b)[off + j] == (signed + zeros((n - signed.len()) as nat))[j]
        }),
{
    let so = get_be32(a[c].data, 12) as int;
    lemma_same_layout(a, b);
    lemma_encode_fields(reserved_table(uri, n));
    lemma_store_bytes(uri, n, signed, j);
    lemma_prefix_len_mono(a, 0, c);
    lemma_c2pa_written(v, a, c, so + j);
    lemma_c2pa_written(v, b, c, so + j);
    assert(table_offset(a, c) == table_offset(b, c));
}

/// Locating the tables of a font that parses succeeds and finds each
/// parsed table: record `i` has the table's tag, and its data region holds
/// the table's data.
pub proof fn law_locate_matches_parse(d: Seq<u8>)
    requires
        parse_font(d) is Ok,
    ensures
        locatable(d),
        num_tables(d) == parse_font(d).unwrap().tables.len(),
        forall|i: int|
            0 <= i < num_tables(d) ==> (#[trigger] parse_font(d).unwrap().tables[i]).tag == rec_tag(d, i)
                && parse_font(d).unwrap().tables[i].data == d.subrange(
                rec_offset(d, i),
                rec_offset(d, i) + rec_length(d, i),
            ),
{
}

/// Whether `y` holds the tag and data of `x`, the data of a `head` table
/// except its `checkSumAdjustment` field.
pub open spec fn keeps_table(y: TableModel, x: TableModel) -> bool {
    &&& y.tag == x.tag
    &&& y.data.len() == x.data.len()
    &&& forall|j: int|
        0 <= j < x.data.len() && !(x.tag == head_tag() && 8 <= j < 12) ==> #[trigger] y.data[j] == x.data[j]
}

/// Each table of a font that serializes and reads back, and whose `head`
/// tables hold `checkSumAdjustment`, reads back from the serialized font.
proof fn lemma_serialized_keeps(w: FontModel, x: TableModel)
    requires
        round_trippable(w),
        w.tables.contains(x),
        all_tables(w.tables, |t: TableModel| t.tag == head_tag() ==> t.data.len() >= 12),
    ensures
        parse_font(serialize_font(w)) is Ok,
        exists|k: int|
            0 <= k < parse_font(serialize_font(w)).unwrap().tables.len() && keeps_table(
                #[trigger] parse_font(serialize_font(w)).unwrap().tables[k],
                x,
            ),
{
    let hp = |t: TableModel| t.tag == head_tag() ==> t.data.len() >= 12;
    let ts = sort_tables(w.tables);
    law_parse_serialized(w);
    lemma_sorted_tables(w);
    lemma_sort_props(w.tables, hp);
    crate::sorting::lemma_sort_contains(w.tables);
    assert(ts.contains(x));
    let k = choose|k: int| 0 <= k < ts.len() && ts[k] == x;
    let g = parse_font(serialize_font(w)).unwrap();
    lemma_last_head(ts, ts.len() as int);
    assert forall|j: int| 0 <= j < x.data.len() && !(x.tag == head_tag() && 8 <= j < 12) implies #[trigger] g.tables[k].data[j]
        == x.data[j] by {
        if let Some(h) = last_head(ts) {
            assert(hp(ts[h]));
            if k != h {
                crate::refill::lemma_outside_other(ts, h, k, j);
            }
        }
    }
    assert(keeps_table(g.tables[k], x));
}

/// Embedding keeps every other table of the font: each table whose tag is
/// not `C2PA` reads back from the embedded font with its tag and data (for a
/// `head` table, all but `checkSumAdjustment`). This holds when every `head`
/// table of the font holds that field and the embedded font can be written
/// and read back.
#[verifier::spinoff_prover]
pub proof fn law_embed_keeps_tables(d: Seq<u8>, uri: Option<Seq<char>>, store: Option<Seq<u8>>, i: int)
    requires
        embed_target(d, uri, store) is Ok,
        writable(parse_font(d).unwrap(), new_table(uri, store)),
        with_c2pa(parse_font(d).unwrap(), new_table(uri, store)).tables.len() <= u16::MAX,
        font_len(sort_tables(with_c2pa(parse_font(d).unwrap(), new_table(uri, store)).tables))
            <= u32::MAX,
        heads_complete(parse_font(d).unwrap().tables),
        0 <= i < parse_font(d).unwrap().tables.len(),
        parse_font(d).unwrap().tables[i].tag != c2pa_tag(),
    ensures
        parse_font(written(embed_target(d, uri, store)).unwrap()) is Ok,
        exists|k: int|
            0 <= k < parse_font(written(embed_target(d, uri, store)).unwrap()).unwrap().tables.len()
                && keeps_table(
                #[trigger] parse_font(written(embed_target(d, uri, store)).unwrap()).unwrap().tables[k],
                parse_font(d).unwrap().tables[i],
            ),
{
    let f = parse_font(d).unwrap();
    let t = new_table(uri, store);
    let w = with_c2pa(f, t);
    let x = f.tables[i];
    lemma_parsed_tags(d);
    let hp = |y: TableModel| y.tag == head_tag() ==> y.data.len() >= 12;
    assert forall|j: int| 0 <= j < f.tables.len() implies hp(#[trigger] f.tables[j]) by {}
    assert(hp(c2pa_model(t))) by {
        assert(c2pa_tag()[0] != head_tag()[0]);
    }
    lemma_with_c2pa(f, t, hp);
    assert(round_trippable(w));
    assert(f.tables.contains(x));
    crate::sorting::lemma_without_tag_contains(f.tables, c2pa_tag(), x);
    let r = crate::sfnt::without_tag(f.tables, c2pa_tag());
    let m = choose|m: int| 0 <= m < r.len() && r[m] == x;
    assert(w.tables[m] == x);
    assert(w.tables.contains(x));
    lemma_serialized_keeps(w, x);
}

/// Serializing recomputes every table's directory checksum: in a serialized
/// font whose `head` tables hold `checkSumAdjustment`, the checksum field of
/// each directory record is the checksum of the table read back (for a
/// `head` table, with `checkSumAdjustment` counted as zero).
#[verifier::spinoff_prover]
pub proof fn law_table_checksums_valid(f: FontModel)
    requires
        round_trippable(f),
        all_tables(f.tables, |t: TableModel| t.tag == head_tag() ==> t.data.len() >= 12),
    ensures
        parse_font(serialize_font(f)) is Ok,
        forall|i: int|
            0 <= i < f.tables.len() ==> get_be32(serialize_font(f), crate::sfnt::record_pos(i) + 4)
                == crate::sfnt::record_checksum(#[trigger] parse_font(serialize_font(f)).unwrap().tables[i]),
{
    let hp = |t: TableModel| t.tag == head_tag() ==> t.data.len() >= 12;
    let v = f.version;
    let ts = sort_tables(f.tables);
    lemma_serialize_is_write(f);
    lemma_sorted_tables(f);
    lemma_sort_props(f.tables, hp);
    law_parse_serialized(f);
    let s = serialize_font(f);
    let g = parse_font(s).unwrap();
    assert forall|i: int| 0 <= i < f.tables.len() implies get_be32(s, crate::sfnt::record_pos(i) + 4)
        == crate::sfnt::record_checksum(#[trigger] g.tables[i]) by {
        let rp = crate::sfnt::record_pos(i);
        let cs = crate::sfnt::record_checksum(ts[i]);
        crate::layout::lemma_written_record_bytes(v, ts, i);
        crate::layout::lemma_record_len(ts, i);
        lemma_be32_roundtrip(cs);
        let r = crate::sfnt::record(ts, i);
        assert(ts[i].tag.len() == 4);
        assert(r.subrange(4, 8) =~= be32_bytes(cs));
        assert(s.subrange(rp, rp + 16) == r);
        assert(s[rp + 4] == r[4] && s[rp + 5] == r[5] && s[rp + 6] == r[6] && s[rp + 7] == r[7]);
        assert(get_be32(r, 4) == get_be32(r.subrange(4, 8), 0));
        assert forall|k: int| 0 <= k < ts.len() && (#[trigger] ts[k]).tag == head_tag() implies ts[k].data.len() >= 12 by {
            assert(hp(ts[k]));
        }
        crate::refill::lemma_same_checksum(v, ts, g, i);
    }
}

/// A serialized font with a `head` table sums to the magic number: the
/// wrapping sum of all its big-endian words is `CHECKSUM_MAGIC`.
#[verifier::spinoff_prover]
pub proof fn law_whole_font_checksum(f: FontModel)
    requires
        round_trippable(f),
        tag_count(f.tables, head_tag()) >= 1,
    ensures
        checksum(serialize_font(f)) == CHECKSUM_MAGIC,
{
    let v = f.version;
    let ts = sort_tables(f.tables);
    lemma_serialize_is_write(f);
    lemma_sorted_tables(f);
    lemma_sort_count(f.tables, head_tag());
    lemma_last_head(ts, ts.len() as int);
    if last_head(ts) is None {
        lemma_count_zero(ts, head_tag());
    }
    let h = last_head(ts).unwrap();
    let p = adjustment_pos(ts, h);
    let raw = raw_font(v, ts);
    crate::layout::lemma_raw_layout(v, ts);
    lemma_prefix_len_mono(ts, 0, h);
    lemma_prefix_len_aligned(ts, h);
    let z = splice(raw, p, zeros(4));
    lemma_splice(raw, p, zeros(4));
    let q = p / 4;
    assert(p == 4 * q);
    assert(z[p] == 0 && z[p + 1] == 0 && z[p + 2] == 0 && z[p + 3] == 0) by {
        assert(z[p + 0] == zeros(4)[0] && z[p + 1] == zeros(4)[1]);
        assert(z[p + 2] == zeros(4)[2] && z[p + 3] == zeros(4)[3]);
    }
    let a = wrap_sub(CHECKSUM_MAGIC, checksum(z));
    reveal(write_tables);
    assert(write_tables(v, ts) == splice(z, p, be32_bytes(a)));
    crate::bytes::lemma_checksum_set_word(z, q, a);
    crate::bytes::lemma_wrap_add_sub(checksum(z), CHECKSUM_MAGIC);
}

/// Removing the `C2PA` table of an embedded font gives the same bytes as
/// removing it from the font embedded into. This holds when every `head`
/// table holds `checkSumAdjustment` and the embedded font can be written and
/// read back.
#[verifier::spinoff_prover]
pub proof fn law_remove_after_embed(d: Seq<u8>, uri: Option<Seq<char>>, store: Option<Seq<u8>>)
    requires
        embed_target(d, uri, store) is Ok,
        writable(parse_font(d).unwrap(), new_table(uri, store)),
        with_c2pa(parse_font(d).unwrap(), new_table(uri, store)).tables.len() <= u16::MAX,
        font_len(sort_tables(with_c2pa(parse_font(d).unwrap(), new_table(uri, store)).tables))
            <= u32::MAX,
        heads_complete(parse_font(d).unwrap().tables),
    ensures
        parse_font(written(embed_target(d, uri, store)).unwrap()) is Ok,
        serialize_font(without_c2pa(parse_font(written(embed_target(d, uri, store)).unwrap()).unwrap()))
            == serialize_font(without_c2pa(parse_font(d).unwrap())),
{
    let f = parse_font(d).unwrap();
    let v = f.version;
    let t = new_table(uri, store);
    let w = with_c2pa(f, t);
    let x = c2pa_model(t);
    let ts = sort_tables(w.tables);
    lemma_parsed_tags(d);
    let hp = |y: TableModel| y.tag == head_tag() ==> y.data.len() >= 12;
    assert forall|j: int| 0 <= j < f.tables.len() implies hp(#[trigger] f.tables[j]) by {}
    assert(hp(x)) by {
        assert(c2pa_tag()[0] != head_tag()[0]);
    }
    lemma_with_c2pa(f, t, hp);
    assert(round_trippable(w));
    let c = lemma_serialized_c2pa(w, x);
    law_parse_serialized(w);
    lemma_sorted_tables(w);
    lemma_sort_props(w.tables, hp);
    lemma_serialize_is_write(w);
    let e = serialize_font(w);
    let g = parse_font(e).unwrap();
    // Sorting the tables with `x` added puts `x` at `c`; without it, the rest.
    let wt = crate::sfnt::without_tag(f.tables, c2pa_tag());
    let b = sort_tables(wt);
    assert(w.tables.drop_last() =~= wt);
    let j = crate::refill::lemma_insert_sorted_index(b, x);
    assert(ts == b.insert(j, x));
    lemma_sort_count(w.tables, c2pa_tag());
    lemma_unique_index(ts, c2pa_tag(), c);
    assert(ts[j] == x);
    lemma_unique_index(ts, c2pa_tag(), j);
    assert(j == c);
    assert(b =~= ts.remove(c));
    // Removing the `C2PA` table read back leaves the other tables, sorted.
    lemma_same_tag_count(ts, g.tables, c2pa_tag());
    lemma_unique_index(g.tables, c2pa_tag(), c);
    crate::refill::lemma_without_single(g.tables, c2pa_tag(), c);
    let a = g.tables.remove(c);
    crate::refill::lemma_remove_sorted(g.tables, c);
    crate::sorting::lemma_sort_sorted_identity(a);
    lemma_serialize_is_write(without_c2pa(g));
    lemma_serialize_is_write(without_c2pa(f));
    assert(serialize_font(without_c2pa(g)) == write_tables(v, a));
    assert(serialize_font(without_c2pa(f)) == write_tables(v, b));
    lemma_removed_write_same(v, ts, g, c);
}

/// Writing the tables `ts` without table `c`, which is not a `head` table,
/// gives the same font as writing what reads back from the font written from
/// `ts` without that table, when every `head` table of `ts` holds
/// `checkSumAdjustment`.
proof fn lemma_removed_write_same(v: u32, ts: Seq<TableModel>, g: FontModel, c: int)
    requires
        writes_back(v, ts),
        reads_back(g, v, ts),
        0 <= c < ts.len(),
        ts[c].tag != head_tag(),
        heads_complete(ts),
    ensures
        write_tables(v, ts.remove(c)) == write_tables(v, g.tables.remove(c)),
{
    let b = ts.remove(c);
    let a = g.tables.remove(c);
    lemma_last_head(ts, ts.len() as int);
    crate::refill::lemma_last_head_remove(ts, c);
    assert(same_shape(b, a)) by {
        assert forall|i: int| 0 <= i < b.len() implies (#[trigger] a[i]).tag == b[i].tag by {
            let k = if i < c { i } else { i + 1 };
            assert(a[i] == g.tables[k] && b[i] == ts[k]);
        }
        assert forall|i: int| 0 <= i < b.len() implies (#[trigger] a[i]).data.len() == b[i].data.len() by {
            let k = if i < c { i } else { i + 1 };
            assert(a[i] == g.tables[k] && b[i] == ts[k]);
        }
    }
    assert(tags4(b)) by {
        assert forall|i: int| 0 <= i < b.len() implies (#[trigger] b[i]).tag.len() == 4 by {
            let k = if i < c { i } else { i + 1 };
            assert(b[i] == ts[k]);
        }
    }
    assert forall|k: int| 0 <= k < b.len() && (#[trigger] b[k]).tag == head_tag() implies b[k].data.len() >= 12 by {
        let kk = if k < c { k } else { k + 1 };
        assert(b[k] == ts[kk]);
    }
    crate::refill::lemma_heads_fit(b);
    assert forall|i: int, j: int|
        0 <= i < b.len() && 0 <= j < b[i].data.len() && !(last_head(b) == Some(i) && 8 <= j < 12) implies #[trigger] a[i].data[j]
            == b[i].data[j] by {
        let k = if i < c { i } else { i + 1 };
        assert(a[i] == g.tables[k] && b[i] == ts[k]);
        if let Some(h) = last_head(ts) {
            if k != h {
                crate::refill::lemma_outside_other(ts, h, k, j);
            }
        }
    }
    crate::refill::lemma_write_ignores_adjustment(v, b, a);
}

/// Whether the exclusions of `d` lie apart from the bytes that locate them:
/// the `C2PA` table lies past the directory with its store after its
/// 20-byte header, and `checkSumAdjustment`, when excluded, lies past the
/// directory and away from the header's store offset and length.
pub open spec fn exclusions_apart(d: Seq<u8>) -> bool {
    let n = num_tables(d);
    let ci = first_record_from(d, n, c2pa_tag(), 0);
    let hi = first_record_from(d, n, head_tag(), 0);
    let co = rec_offset(d, ci);
    let rh = rec_offset(d, hi);
    &&& co >= crate::sfnt::data_start(n)
    &&& get_be32(d, co + 12) >= 20
    &&& (hi < n && rec_length(d, hi) >= 12) ==> (rh + 8 >= crate::sfnt::data_start(n) && (rh + 12 <= co + 12
        || co + 20 <= rh + 8))
}

/// A byte of the directory other than the `C2PA` record's checksum, or of
/// the `C2PA` table's store offset and length, is not excluded.
proof fn lemma_locating_byte_kept(d: Seq<u8>, x: int)
    requires
        exclusions_of(d) is Ok,
        exclusions_apart(d),
        d.len() <= u64::MAX,
        ({
            let n = num_tables(d);
            let ci = first_record_from(d, n, c2pa_tag(), 0);
            let co = rec_offset(d, ci);
            ||| (0 <= x < crate::sfnt::data_start(n) && !(crate::sfnt::record_pos(ci) + 4 <= x
                < crate::sfnt::record_pos(ci) + 8))
            ||| co + 12 <= x < co + 20
        }),
    ensures
        !excluded(exclusions_of(d).unwrap(), x),
{
    reveal(exclusions_of);
    let n = num_tables(d);
    let ci = first_record_from(d, n, c2pa_tag(), 0);
    let hi = first_record_from(d, n, head_tag(), 0);
    lemma_first_record_range(d, n, c2pa_tag(), 0);
    lemma_first_record_range(d, n, head_tag(), 0);
    let co = rec_offset(d, ci);
    let so = get_be32(d, co + 12) as int;
    let sl = get_be32(d, co + 16) as int;
    let bl = exclusion_list(d, n, ci, hi, co + so, sl);
    let ex = exclusions_of(d).unwrap();
    assert(co + rec_length(d, ci) <= d.len());
    if hi < n {
        assert(rec_offset(d, hi) + rec_length(d, hi) <= d.len());
    }
    if excluded(ex, x) {
        let k = choose|k: int| 0 <= k < ex.len() && (#[trigger] ex[k]).start <= x < ex[k].start + ex[k].length;
        crate::binding::lemma_sort_by_start_contains(bl);
        assert(ex.contains(ex[k]));
        assert(bl.contains(ex[k]));
        let m = choose|m: int| 0 <= m < bl.len() && bl[m] == ex[k];
        assert(bl[m].start <= x < bl[m].start + bl[m].length);
    }
}

/// The directory records read the same from two byte strings that agree on
/// their tags, offsets and lengths.
proof fn lemma_first_record_same(d1: Seq<u8>, d2: Seq<u8>, n: int, tag: Seq<u8>, i: int)
    requires
        forall|j: int| 0 <= j < n ==> #[trigger] rec_tag(d2, j) == rec_tag(d1, j),
        0 <= i,
    ensures
        first_record_from(d2, n, tag, i) == first_record_from(d1, n, tag, i),
    decreases n - i,
{
    if i < n {
        assert(rec_tag(d2, i) == rec_tag(d1, i));
        lemma_first_record_same(d1, d2, n, tag, i + 1);
    }
}

/// Two byte strings that agree on the tag, offset and length fields of the
/// first `n` directory records read the same records.
proof fn lemma_same_records(d1: Seq<u8>, d2: Seq<u8>, n: int)
    requires
        d1.len() >= crate::sfnt::data_start(n),
        d2.len() == d1.len(),
        forall|i: int, k: int|
            0 <= i < n && 0 <= k < 16 && !(4 <= k < 8) ==> #[trigger] d2[crate::sfnt::record_pos(i) + k]
                == d1[crate::sfnt::record_pos(i) + k],
    ensures
        forall|i: int| 0 <= i < n ==> #[trigger] rec_tag(d2, i) == rec_tag(d1, i),
        forall|i: int| 0 <= i < n ==> #[trigger] rec_offset(d2, i) == rec_offset(d1, i),
        forall|i: int| 0 <= i < n ==> #[trigger] rec_length(d2, i) == rec_length(d1, i),
{
    assert forall|i: int| 0 <= i < n implies #[trigger] rec_tag(d2, i) == rec_tag(d1, i) by {
        let r = crate::sfnt::record_pos(i);
        assert(d2[r + 0] == d1[r + 0] && d2[r + 1] == d1[r + 1] && d2[r + 2] == d1[r + 2] && d2[r + 3] == d1[r + 3]);
        assert(rec_tag(d2, i) =~= rec_tag(d1, i));
    }
    assert forall|i: int| 0 <= i < n implies #[trigger] rec_offset(d2, i) == rec_offset(d1, i) by {
        let r = crate::sfnt::record_pos(i);
        assert(d2[r + 8] == d1[r + 8] && d2[r + 9] == d1[r + 9] && d2[r + 10] == d1[r + 10] && d2[r + 11]
            == d1[r + 11]);
    }
    assert forall|i: int| 0 <= i < n implies #[trigger] rec_length(d2, i) == rec_length(d1, i) by {
        let r = crate::sfnt::record_pos(i);
        assert(d2[r + 12] == d1[r + 12] && d2[r + 13] == d1[r + 13] && d2[r + 14] == d1[r + 14] && d2[r + 15]
            == d1[r + 15]);
    }
}

/// Changing only excluded bytes of a font keeps its exclusions: they do not
/// move or resize. This holds when the exclusions lie apart from the bytes
/// that locate them ([`exclusions_apart`]) and the font's length fits `u64`.
#[verifier::spinoff_prover]
pub proof fn law_exclusions_stable(d1: Seq<u8>, d2: Seq<u8>)
    requires
        exclusions_of(d1) is Ok,
        exclusions_apart(d1),
        d1.len() <= u64::MAX,
        d2.len() == d1.len(),
        forall|x: int| 0 <= x < d1.len() && !excluded(exclusions_of(d1).unwrap(), x) ==> #[trigger] d2[x] == d1[x],
    ensures
        exclusions_of(d2) == exclusions_of(d1),
{
    reveal(exclusions_of);
    let n = num_tables(d1);
    let ci = first_record_from(d1, n, c2pa_tag(), 0);
    let hi = first_record_from(d1, n, head_tag(), 0);
    lemma_first_record_range(d1, n, c2pa_tag(), 0);
    lemma_first_record_range(d1, n, head_tag(), 0);
    let co = rec_offset(d1, ci);
    assert(co + rec_length(d1, ci) <= d1.len());
    // The table count.
    lemma_locating_byte_kept(d1, 4);
    lemma_locating_byte_kept(d1, 5);
    assert(num_tables(d2) == n);
    // Every record's tag, offset and length.
    assert forall|i: int, k: int|
        0 <= i < n && 0 <= k < 16 && !(4 <= k < 8) implies #[trigger] d2[crate::sfnt::record_pos(i) + k]
            == d1[crate::sfnt::record_pos(i) + k] by {
        lemma_locating_byte_kept(d1, crate::sfnt::record_pos(i) + k);
    }
    lemma_same_records(d1, d2, n);
    lemma_first_record_same(d1, d2, n, c2pa_tag(), 0);
    lemma_first_record_same(d1, d2, n, head_tag(), 0);
    assert(crate::sfnt::directory_fits(d2));
    assert forall|i: int| 0 <= i < n implies rec_offset(d2, i) + rec_length(d2, i) <= d2.len() by {
        assert(rec_offset(d1, i) + rec_length(d1, i) <= d1.len());
    }
    assert(crate::sfnt::tables_fit(d2));
    if hi < n {
        assert(rec_offset(d2, hi) == rec_offset(d1, hi) && rec_length(d2, hi) == rec_length(d1, hi));
    }
    // The store offset and length in the `C2PA` table's header.
    assert forall|k: int| 12 <= k < 20 implies #[trigger] d2[co + k] == d1[co + k] by {
        lemma_locating_byte_kept(d1, co + k);
    }
    assert(d2[co + 12] == d1[co + 12] && d2[co + 13] == d1[co + 13] && d2[co + 14] == d1[co + 14] && d2[co + 15]
        == d1[co + 15]);
    assert(d2[co + 16] == d1[co + 16] && d2[co + 17] == d1[co + 17] && d2[co + 18] == d1[co + 18] && d2[co + 19]
        == d1[co + 19]);
    let so = get_be32(d1, co + 12) as int;
    let sl = get_be32(d1, co + 16) as int;
    assert(exclusion_list(d2, n, ci, hi, co + so, sl) == exclusion_list(d1, n, ci, hi, co + so, sl));
}

/// The exclusions of sorted tables written in order, whose `C2PA` table `c`
/// holds its store after the 20-byte header, lie apart from the bytes that
/// locate them: the `C2PA` table and every `head` table lie past the
/// directory, and the `C2PA` table comes before any `head` table.
proof fn lemma_written_apart(v: u32, ts: Seq<TableModel>, c: int)
    requires
        writes_back(v, ts),
        sorted_by_tag(ts),
        binds_store(ts, c),
        get_be32(ts[c].data, 12) >= 20,
    ensures
        exclusions_apart(write_tables(v, ts)),
        write_tables(v, ts).len() <= u64::MAX,
{
    let s = write_tables(v, ts);
    let n = ts.len() as int;
    lemma_parse_written(v, ts);
    let g = parse_font(s).unwrap();
    crate::refill::lemma_first_record(s, ts, c2pa_tag(), 0);
    crate::refill::lemma_first_record(s, ts, head_tag(), 0);
    lemma_unique_index(ts, c2pa_tag(), c);
    lemma_last_head(ts, n);
    if let Some(h) = last_head(ts) {
        lemma_c2pa_before_head();
        lemma_sorted_before(ts, c, h);
    }
    lemma_reads_back_before_head(g, v, ts, c);
    let off = rec_offset(s, c);
    assert(off == table_offset(ts, c));
    assert(g.tables[c].data == s.subrange(off, off + rec_length(s, c)));
    let d = ts[c].data;
    assert(get_be32(s, off + 12) == get_be32(d, 12)) by {
        assert(s[off + 12] == d[12] && s[off + 13] == d[13] && s[off + 14] == d[14] && s[off + 15] == d[15]);
    }
    let hi = find_index(ts, head_tag());
    lemma_first_from(ts, head_tag(), 0);
    lemma_first_from(ts, c2pa_tag(), 0);
    assert(prefix_len(ts, c) >= 0) by {
        lemma_prefix_len_mono(ts, 0, c);
    }
    if hi < n {
        lemma_c2pa_before_head();
        lemma_sorted_before(ts, c, hi);
        lemma_prefix_len_mono(ts, c + 1, hi);
        crate::bytes::lemma_align4(d.len() as int);
        assert(rec_offset(s, hi) == table_offset(ts, hi));
        assert(table_offset(ts, hi) >= table_offset(ts, c) + d.len());
    }
}

/// A font written by reserving a Manifest Store has its exclusions apart
/// from the bytes that locate them ([`exclusions_apart`]), and its length
/// fits `u64`: the conditions of [`law_exclusions_stable`].
#[verifier::spinoff_prover]
pub proof fn law_reserved_apart(d: Seq<u8>, n: usize, uri: Option<Seq<char>>)
    requires
        refillable(d, n, uri),
    ensures
        reserved_of(d, n, uri) is Ok,
        exclusions_apart(reserved_of(d, n, uri).unwrap().0),
        reserved_of(d, n, uri).unwrap().0.len() <= u64::MAX,
        exclusions_of(reserved_of(d, n, uri).unwrap().0) == Ok::<Seq<Exclusion>, ErrorKind>(
            reserved_of(d, n, uri).unwrap().1,
        ),
{
    let c = lemma_refill_binding(d, n, uri, Seq::empty());
    let c2 = lemma_reserved(d, n, uri);
    let a = reserved_tables(d, n, uri);
    lemma_unique_index(a, c2pa_tag(), c);
    lemma_unique_index(a, c2pa_tag(), c2);
    let v = parse_font(d).unwrap().version;
    lemma_encode_fields(reserved_table(uri, n));
    lemma_written_apart(v, a, c);
    crate::refill::lemma_written_exclusions(v, a, c);
}

/// Changing only excluded bytes of a font written by reserving a Manifest
/// Store keeps its exclusions: whatever is written into the store, the
/// `C2PA` directory checksum or `checkSumAdjustment`, the exclusions read
/// from the edited bytes are those reserving reported.
#[verifier::spinoff_prover]
pub proof fn law_reserved_exclusions_stable(d: Seq<u8>, n: usize, uri: Option<Seq<char>>, edited: Seq<u8>)
    requires
        refillable(d, n, uri),
        edited.len() == reserved_of(d, n, uri).unwrap().0.len(),
        forall|x: int|
            0 <= x < edited.len() && !excluded(reserved_of(d, n, uri).unwrap().1, x) ==> #[trigger] edited[x]
                == reserved_of(d, n, uri).unwrap().0[x],
    ensures
        exclusions_of(edited) == Ok::<Seq<Exclusion>, ErrorKind>(reserved_of(d, n, uri).unwrap().1),
{
    law_reserved_apart(d, n, uri);
    law_exclusions_stable(reserved_of(d, n, uri).unwrap().0, edited);
}

/// `floor(log2(n))` brackets `n` between consecutive powers of two.
proof fn lemma_log2_floor_bounds(n: nat)
    requires
        n >= 1,
    ensures
        crate::sfnt::two_pow(crate::sfnt::log2_floor(n)) <= n,
        n < 2 * crate::sfnt::two_pow(crate::sfnt::log2_floor(n)),
    decreases n,
{
    if n >= 2 {
        lemma_log2_floor_bounds(n / 2);
    }
}

/// The fields of the offset table for `n` tables.
proof fn lemma_offset_table_fields(v: u32, n: u16)
    requires
        n >= 1,
    ensures
        ({
            let ot = crate::sfnt::offset_table(v, n);
            let e = crate::bytes::get_be16(ot, 8) as nat;
            let sr = crate::bytes::get_be16(ot, 6) as int;
            let rs = crate::bytes::get_be16(ot, 10) as int;
            &&& ot.len() == 12
            &&& crate::bytes::get_be16(ot, 4) == n
            &&& crate::sfnt::two_pow(e) <= n < crate::sfnt::two_pow(e + 1)
            &&& sr == (16 * crate::sfnt::two_pow(e)) % 65536
            &&& (sr + rs) % 65536 == (16 * n) % 65536
        }),
{
    let ot = crate::sfnt::offset_table(v, n);
    let e = crate::sfnt::log2_floor(n as nat);
    let p = crate::sfnt::two_pow(e);
    lemma_log2_floor_bounds(n as nat);
    crate::sfnt::lemma_log2_floor_le(n as nat);
    assert(crate::sfnt::two_pow(e + 1) == 2 * p);
    let sr = ((p * 16) % 65536) as u16;
    let rs = ((n * 16 - p * 16) % 65536) as u16;
    crate::bytes::lemma_be16_roundtrip(n);
    crate::bytes::lemma_be16_roundtrip(sr);
    crate::bytes::lemma_be16_roundtrip(e as u16);
    crate::bytes::lemma_be16_roundtrip(rs);
    assert(ot.subrange(4, 6) =~= be16_bytes(n));
    assert(ot.subrange(6, 8) =~= be16_bytes(sr));
    assert(ot.subrange(8, 10) =~= be16_bytes(e as u16));
    assert(ot.subrange(10, 12) =~= be16_bytes(rs));
    assert(crate::bytes::get_be16(ot, 4) == crate::bytes::get_be16(be16_bytes(n), 0));
    assert(crate::bytes::get_be16(ot, 6) == crate::bytes::get_be16(be16_bytes(sr), 0));
    assert(crate::bytes::get_be16(ot, 8) == crate::bytes::get_be16(be16_bytes(e as u16), 0));
    assert(crate::bytes::get_be16(ot, 10) == crate::bytes::get_be16(be16_bytes(rs), 0));
    let a: int = (p * 16) as int;
    let b: int = n * 16 - p * 16;
    assert((a % 65536 + b % 65536) % 65536 == (a + b) % 65536) by {
        vstd::arithmetic::div_mod::lemma_add_mod_noop(a, b, 65536);
    }
}

/// The binary-search fields of a serialized font's offset table: for `n`
/// tables, `entrySelector` is the `e` with `2^e <= n < 2^(e+1)`,
/// `searchRange` is `16 * 2^e` and `rangeShift` is `16 * n - searchRange`,
/// each as a 16-bit field.
#[verifier::spinoff_prover]
pub proof fn law_search_fields(f: FontModel)
    requires
        round_trippable(f),
        f.tables.len() >= 1,
    ensures
        ({
            let s = serialize_font(f);
            let n = crate::bytes::get_be16(s, 4) as nat;
            let e = crate::bytes::get_be16(s, 8) as nat;
            let search_range = crate::bytes::get_be16(s, 6) as int;
            let range_shift = crate::bytes::get_be16(s, 10) as int;
            &&& n == f.tables.len()
            &&& crate::sfnt::two_pow(e) <= n < crate::sfnt::two_pow(e + 1)
            &&& search_range == (16 * crate::sfnt::two_pow(e)) % 65536
            &&& (search_range + range_shift) % 65536 == (16 * n) % 65536
        }),
{
    reveal(serialize_font);
    let ts = sort_tables(f.tables);
    lemma_sorted_tables(f);
    let v = f.version;
    let s = write_tables(v, ts);
    let n = ts.len() as u16;
    crate::layout::lemma_written_offset_table(v, ts);
    let ot = crate::sfnt::offset_table(v, n);
    lemma_offset_table_fields(v, n);
    assert(s[4] == ot[4] && s[5] == ot[5] && s[6] == ot[6] && s[7] == ot[7]);
    assert(s[8] == ot[8] && s[9] == ot[9] && s[10] == ot[10] && s[11] == ot[11]);
}

/// Every outline flavour of SFNT reads alike: an offset table with version
/// `0x00010000` (TrueType), `OTTO` (CFF), `true` (Apple TrueType) or `typ1`
/// (Apple Type 1), whose directory and tables lie inside the data, parses,
/// with that version and one table per directory record.
pub proof fn law_outline_versions_parse(d: Seq<u8>)
    requires
        d.len() >= 12,
        get_be32(d, 0) == 0x0001_0000 || get_be32(d, 0) == 0x4F54_544F || get_be32(d, 0) == 0x7472_7565
            || get_be32(d, 0) == 0x7479_7031,
        d.len() >= 12 + 16 * num_tables(d),
        forall|i: int| 0 <= i < num_tables(d) ==> rec_offset(d, i) + rec_length(d, i) <= d.len(),
    ensures
        parse_font(d) is Ok,
        parse_font(d).unwrap().version == get_be32(d, 0),
        parse_font(d).unwrap().tables.len() == num_tables(d),
{
}

/// The compliance report's `checksum_valid` is the checksum check of the
/// same bytes, whatever the `C2PA` table carries: it holds exactly when
/// `head.checkSumAdjustment` matches.
pub proof fn law_verify_reports_checksum(d: Seq<u8>)
    requires
        compliance_of(d) is Ok,
    ensures
        compliance_of(d).unwrap().checksum_valid <==> adjustment_valid(d) == Ok::<bool, ErrorKind>(true),
{
}

} // verus!
