//! Parsing and serializing single SFNT (TrueType/OpenType) fonts.
use vstd::prelude::*;
use vstd::slice::{slice_subrange, slice_to_vec};
use vstd::utf8::{decode_utf8, valid_utf8};
use crate::bytes::{
    align4, align4_exec, be16_bytes, be32_bytes, checksum, get_be16, get_be32, push_u16,
    push_u32, push_zeros, read_u16, read_u32, set_u32, splice, table_checksum, wrap_sub, zeros,
};
use crate::error::{Error, ErrorKind};

verus! {

/// Length of the SFNT offset table.
pub const OFFSET_TABLE_LEN: usize = 12;

/// Length of one table directory record.
pub const DIRECTORY_RECORD_LEN: usize = 16;

/// Tag of the font header table (`"head"`).
pub const HEAD_TAG: [u8; 4] = [0x68, 0x65, 0x61, 0x64];

/// Offset of `checkSumAdjustment` within the `head` table.
pub const HEAD_CHECKSUM_ADJUSTMENT_OFFSET: usize = 8;

/// The whole-font checksum target that `checkSumAdjustment` completes.
pub const CHECKSUM_MAGIC: u32 = 0xB1B0_AFBA;

/// `sfntVersion` of font collections (`"ttcf"`).
pub const TTCF: u32 = 0x7474_6366;

/// `sfntVersion` of WOFF fonts (`"wOFF"`).
pub const WOFF: u32 = 0x774F_4646;

/// `sfntVersion` of WOFF2 fonts (`"wOF2"`).
pub const WOF2: u32 = 0x774F_4632;

/// The tag `"head"` as a byte sequence.
pub open spec fn head_tag() -> Seq<u8> {
    seq![0x68u8, 0x65u8, 0x61u8, 0x64u8]
}

/// `HEAD_TAG` holds the bytes of `"head"`.
pub proof fn lemma_head_tag()
    ensures
        HEAD_TAG@ == head_tag(),
{
    assert(HEAD_TAG@ =~= head_tag());
}

/// The location of one table within a serialized font.
#[derive(Debug, Clone, Copy)]
pub struct TableLoc {
    pub tag: [u8; 4],
    /// Offset of the 16-byte directory record (whose bytes 4..8 hold the checksum).
    pub record_offset: usize,
    /// Offset of the table data within the file.
    pub data_offset: usize,
    pub length: usize,
}

/// A single SFNT table: its 4-byte tag and raw (unpadded) data.
#[derive(Debug, Clone)]
pub struct Table {
    pub tag: [u8; 4],
    pub data: Vec<u8>,
}

/// A parsed SFNT font (a single TrueType or OpenType font, not a collection).
#[derive(Debug, Clone)]
pub struct SfntFont {
    pub sfnt_version: u32,
    pub tables: Vec<Table>,
}

/// The content of a table: its tag and data bytes.
pub struct TableModel {
    pub tag: Seq<u8>,
    pub data: Seq<u8>,
}

/// The content of a font: its version and tables, in directory order.
pub struct FontModel {
    pub version: u32,
    pub tables: Seq<TableModel>,
}

impl View for Table {
    type V = TableModel;

    open spec fn view(&self) -> TableModel {
        TableModel { tag: self.tag@, data: self.data@ }
    }
}

/// The contents of a sequence of tables.
pub open spec fn models(v: Seq<Table>) -> Seq<TableModel> {
    v.map_values(|t: Table| t@)
}

impl View for SfntFont {
    type V = FontModel;

    open spec fn view(&self) -> FontModel {
        FontModel { version: self.sfnt_version, tables: models(self.tables@) }
    }
}

// ----- reading -----

/// `sfntVersion` values of the single-font formats this crate accepts:
/// TrueType outlines, CFF outlines (`"OTTO"`), Apple TrueType (`"true"`) and
/// Apple Type 1 (`"typ1"`).
pub open spec fn is_known_version(v: u32) -> bool {
    v == 0x0001_0000 || v == 0x4F54_544F || v == 0x7472_7565 || v == 0x7479_7031
}

/// Number of tables declared in the offset table.
pub open spec fn num_tables(d: Seq<u8>) -> int {
    get_be16(d, 4) as int
}

/// Offset of directory record `i`.
pub open spec fn record_pos(i: int) -> int {
    12 + 16 * i
}

/// Data offset declared by directory record `i`.
pub open spec fn rec_offset(d: Seq<u8>, i: int) -> int {
    get_be32(d, record_pos(i) + 8) as int
}

/// Data length declared by directory record `i`.
pub open spec fn rec_length(d: Seq<u8>, i: int) -> int {
    get_be32(d, record_pos(i) + 12) as int
}

/// Tag of directory record `i`.
pub open spec fn rec_tag(d: Seq<u8>, i: int) -> Seq<u8> {
    d.subrange(record_pos(i), record_pos(i) + 4)
}

/// The offset table and the whole directory lie inside `d`.
pub open spec fn directory_fits(d: Seq<u8>) -> bool {
    d.len() >= 12 && d.len() >= record_pos(num_tables(d))
}

/// Every table of the directory lies inside `d`.
pub open spec fn tables_fit(d: Seq<u8>) -> bool {
    forall|i: int| 0 <= i < num_tables(d) ==> rec_offset(d, i) + rec_length(d, i) <= d.len()
}

/// Table `i` as read from `d`.
pub open spec fn table_at(d: Seq<u8>, i: int) -> TableModel {
    TableModel {
        tag: rec_tag(d, i),
        data: d.subrange(rec_offset(d, i), rec_offset(d, i) + rec_length(d, i)),
    }
}

/// The font read from `d`, or the kind of error that reading it gives:
/// `NotSfnt` for data shorter than the offset table or of unknown version,
/// `Collection` and `Woff` for those formats, `InvalidFont` for a truncated
/// directory or a table extending past the end.
pub open spec fn parse_font(d: Seq<u8>) -> Result<FontModel, ErrorKind> {
    if d.len() < 12 {
        Err(ErrorKind::NotSfnt)
    } else {
        let v = get_be32(d, 0);
        if v == TTCF {
            Err(ErrorKind::Collection)
        } else if v == WOFF || v == WOF2 {
            Err(ErrorKind::Woff)
        } else if !is_known_version(v) {
            Err(ErrorKind::NotSfnt)
        } else if !directory_fits(d) || !tables_fit(d) {
            Err(ErrorKind::InvalidFont)
        } else {
            Ok(FontModel { version: v, tables: Seq::new(num_tables(d) as nat, |i: int| table_at(d, i)) })
        }
    }
}

/// Index of the first directory record at or after `i` whose table extends
/// past the end of `d`; `num_tables(d)` when there is none.
pub open spec fn first_overrun(d: Seq<u8>, i: int) -> int
    decreases num_tables(d) - i,
{
    if i >= num_tables(d) {
        num_tables(d)
    } else if rec_offset(d, i) + rec_length(d, i) > d.len() {
        i
    } else {
        first_overrun(d, i + 1)
    }
}

/// Records before the first overrun fit, so the search from any of them
/// finds it.
pub proof fn lemma_first_overrun(d: Seq<u8>, k: int, i: int)
    requires
        0 <= k <= i <= num_tables(d),
        forall|j: int| k <= j < i ==> rec_offset(d, j) + rec_length(d, j) <= d.len(),
    ensures
        first_overrun(d, k) == first_overrun(d, i),
    decreases i - k,
{
    if k < i {
        lemma_first_overrun(d, k + 1, i);
    }
}

/// The message a truncated directory or a table past the end gives, with
/// `past_end` for the second when its range fits the address space.
pub open spec fn directory_detail(d: Seq<u8>, past_end: Seq<char>) -> Seq<char> {
    let i = first_overrun(d, 0);
    if !directory_fits(d) {
        "table directory truncated"@
    } else if rec_offset(d, i) + rec_length(d, i) > usize::MAX {
        "table length overflow"@
    } else {
        past_end
    }
}

/// What `String::from_utf8_lossy` makes of `bytes`.
pub uninterp spec fn lossy_text(bytes: Seq<u8>) -> Seq<char>;

/// The text of the message for a table extending past the end of the file,
/// naming its tag.
pub open spec fn past_end_text(tag: Seq<u8>) -> Seq<char> {
    "table "@ + lossy_text(tag) + " extends past end of file"@
}

/// The message of the error reading the font in `d` gives (empty for the
/// errors that carry none): see [`directory_detail`], with the past-end
/// message naming the first such table's tag.
pub open spec fn parse_detail(d: Seq<u8>) -> Seq<char> {
    if parse_font(d) matches Err(ErrorKind::InvalidFont) {
        directory_detail(d, past_end_text(rec_tag(d, first_overrun(d, 0))))
    } else {
        Seq::empty()
    }
}

// ----- lookup and editing -----

/// Index of the first table with `tag` at or after `i`; `ts.len()` if none.
pub open spec fn first_from(ts: Seq<TableModel>, tag: Seq<u8>, i: int) -> int
    decreases ts.len() - i,
{
    if i >= ts.len() {
        ts.len() as int
    } else if ts[i].tag == tag {
        i
    } else {
        first_from(ts, tag, i + 1)
    }
}

/// Index of the first table with `tag`; `ts.len()` if none.
pub open spec fn find_index(ts: Seq<TableModel>, tag: Seq<u8>) -> int {
    first_from(ts, tag, 0)
}

/// `find_index` lands on the first match, or past the end when there is none.
pub proof fn lemma_first_from(ts: Seq<TableModel>, tag: Seq<u8>, i: int)
    requires
        0 <= i <= ts.len(),
    ensures
        i <= first_from(ts, tag, i) <= ts.len(),
        first_from(ts, tag, i) < ts.len() ==> ts[first_from(ts, tag, i)].tag == tag,
        forall|j: int| i <= j < first_from(ts, tag, i) ==> ts[j].tag != tag,
    decreases ts.len() - i,
{
    if i < ts.len() && ts[i].tag != tag {
        lemma_first_from(ts, tag, i + 1);
    }
}

/// The tables other than those with `tag`, in order.
pub open spec fn without_tag(ts: Seq<TableModel>, tag: Seq<u8>) -> Seq<TableModel>
    decreases ts.len(),
{
    if ts.len() == 0 {
        ts
    } else {
        let rest = without_tag(ts.drop_last(), tag);
        if ts.last().tag == tag {
            rest
        } else {
            rest.push(ts.last())
        }
    }
}

/// Number of tables with `tag`.
pub open spec fn tag_count(ts: Seq<TableModel>, tag: Seq<u8>) -> nat
    decreases ts.len(),
{
    if ts.len() == 0 {
        0
    } else {
        tag_count(ts.drop_last(), tag) + if ts.last().tag == tag { 1nat } else { 0 }
    }
}

// ----- serializing -----

/// The sort key of a tag: its bytes read as a big-endian `u32`, which orders
/// tags as their bytes do.
pub open spec fn tag_key(tag: Seq<u8>) -> u32 {
    get_be32(tag, 0)
}

/// `t` inserted into `s` after every element whose key is at most its own.
pub open spec fn insert_sorted(s: Seq<TableModel>, t: TableModel) -> Seq<TableModel>
    decreases s.len(),
{
    if s.len() == 0 {
        seq![t]
    } else if tag_key(s.last().tag) <= tag_key(t.tag) {
        s.push(t)
    } else {
        insert_sorted(s.drop_last(), t).push(s.last())
    }
}

/// The tables stably sorted by tag.
pub open spec fn sort_tables(s: Seq<TableModel>) -> Seq<TableModel>
    decreases s.len(),
{
    if s.len() == 0 {
        s
    } else {
        insert_sorted(sort_tables(s.drop_last()), s.last())
    }
}

/// Length of a table's data padded to a 4-byte boundary.
pub open spec fn padded_len(t: TableModel) -> int {
    align4(t.data.len() as int)
}

/// Total padded length of the first `k` tables.
pub open spec fn prefix_len(ts: Seq<TableModel>, k: int) -> int
    decreases k,
{
    if k <= 0 {
        0
    } else {
        prefix_len(ts, k - 1) + padded_len(ts[k - 1])
    }
}

/// Offset of the first table's data: after the offset table and directory.
pub open spec fn data_start(n: int) -> int {
    12 + 16 * n
}

/// Offset at which table `i` is written.
pub open spec fn table_offset(ts: Seq<TableModel>, i: int) -> int {
    data_start(ts.len() as int) + prefix_len(ts, i)
}

/// Length of the serialized font.
pub open spec fn font_len(ts: Seq<TableModel>) -> int {
    data_start(ts.len() as int) + prefix_len(ts, ts.len() as int)
}

/// `head` data with `checkSumAdjustment` zeroed (when the field is present).
pub open spec fn head_zeroed(d: Seq<u8>) -> Seq<u8> {
    if d.len() >= 12 {
        splice(d, 8, zeros(4))
    } else {
        d
    }
}

/// The directory checksum of a table; for `head`, `checkSumAdjustment`
/// counts as zero.
pub open spec fn record_checksum(t: TableModel) -> u32 {
    if t.tag == head_tag() {
        checksum(head_zeroed(t.data))
    } else {
        checksum(t.data)
    }
}

/// Directory record of table `i`: tag, checksum, offset, length.
pub open spec fn record(ts: Seq<TableModel>, i: int) -> Seq<u8> {
    ts[i].tag + be32_bytes(record_checksum(ts[i])) + be32_bytes(table_offset(ts, i) as u32)
        + be32_bytes(ts[i].data.len() as u32)
}

/// Directory records of the first `k` tables.
pub open spec fn records(ts: Seq<TableModel>, k: int) -> Seq<u8>
    decreases k,
{
    if k <= 0 {
        Seq::empty()
    } else {
        records(ts, k - 1) + record(ts, k - 1)
    }
}

/// A table's data followed by its zero padding.
pub open spec fn blob(t: TableModel) -> Seq<u8> {
    t.data + zeros((padded_len(t) - t.data.len()) as nat)
}

/// Padded data of the first `k` tables.
pub open spec fn blobs(ts: Seq<TableModel>, k: int) -> Seq<u8>
    decreases k,
{
    if k <= 0 {
        Seq::empty()
    } else {
        blobs(ts, k - 1) + blob(ts[k - 1])
    }
}

/// `floor(log2(n))`, and zero for zero.
pub open spec fn log2_floor(n: nat) -> nat
    decreases n,
{
    if n < 2 {
        0
    } else {
        1 + log2_floor(n / 2)
    }
}

/// `2^e`.
pub open spec fn two_pow(e: nat) -> nat
    decreases e,
{
    if e == 0 {
        1
    } else {
        2 * two_pow((e - 1) as nat)
    }
}

/// The offset table: version, table count, and the binary-search fields
/// `searchRange`, `entrySelector` and `rangeShift` (16-bit wrapping).
pub open spec fn offset_table(version: u32, n: u16) -> Seq<u8> {
    let e = log2_floor(n as nat);
    let p = two_pow(e);
    be32_bytes(version) + be16_bytes(n) + be16_bytes(((p * 16) % 65536) as u16) + be16_bytes(
        e as u16,
    ) + be16_bytes(((n * 16 - p * 16) % 65536) as u16)
}

/// The font before `checkSumAdjustment` is set: offset table, directory and
/// padded table data, tables in the given order.
#[verifier::opaque]
pub open spec fn raw_font(version: u32, ts: Seq<TableModel>) -> Seq<u8> {
    offset_table(version, ts.len() as u16) + records(ts, ts.len() as int) + blobs(ts, ts.len() as int)
}

/// Index of the last `head` table among the first `k`.
pub open spec fn last_head_upto(ts: Seq<TableModel>, k: int) -> Option<int>
    decreases k,
{
    if k <= 0 {
        None
    } else if ts[k - 1].tag == head_tag() {
        Some(k - 1)
    } else {
        last_head_upto(ts, k - 1)
    }
}

/// Index of the last `head` table.
pub open spec fn last_head(ts: Seq<TableModel>) -> Option<int> {
    last_head_upto(ts, ts.len() as int)
}

/// The last `head` table among the first `k`: its index is in range, it is
/// a `head` table and no later one among the first `k` is.
pub proof fn lemma_last_head(ts: Seq<TableModel>, k: int)
    requires
        0 <= k <= ts.len(),
    ensures
        match last_head_upto(ts, k) {
            Some(h) => 0 <= h < k && ts[h].tag == head_tag() && forall|j: int|
                h < j < k ==> ts[j].tag != head_tag(),
            None => forall|j: int| 0 <= j < k ==> ts[j].tag != head_tag(),
        },
    decreases k,
{
    if k > 0 {
        lemma_last_head(ts, k - 1);
    }
}

/// Position of `checkSumAdjustment` when the tables are written in order.
pub open spec fn adjustment_pos(ts: Seq<TableModel>, h: int) -> int {
    table_offset(ts, h) + 8
}

/// The font with tables written in the given order, and, when there is a
/// `head` table, `checkSumAdjustment` set to `CHECKSUM_MAGIC` minus the
/// checksum of the font with that field zeroed.
#[verifier::opaque]
pub open spec fn write_tables(version: u32, ts: Seq<TableModel>) -> Seq<u8> {
    let raw = raw_font(version, ts);
    match last_head(ts) {
        None => raw,
        Some(h) => {
            let p = adjustment_pos(ts, h);
            let z = splice(raw, p, zeros(4));
            splice(z, p, be32_bytes(wrap_sub(CHECKSUM_MAGIC, checksum(z))))
        },
    }
}

/// The serialized font: tables sorted by tag, written with 4-byte aligned
/// offsets and recomputed checksums.
#[verifier::opaque]
pub open spec fn serialize_font(f: FontModel) -> Seq<u8> {
    write_tables(f.version, sort_tables(f.tables))
}

/// Whether `f` can be serialized: the output fits in memory and, when there
/// is a `head` table, its `checkSumAdjustment` field lies inside the output.
pub open spec fn can_serialize(f: FontModel) -> bool {
    let ts = sort_tables(f.tables);
    &&& font_len(ts) <= usize::MAX
    &&& (last_head(ts) matches Some(h) ==> adjustment_pos(ts, h) + 4 <= font_len(ts))
}

// ----- executable code -----

/// Whether two tags are equal.
pub fn tag_eq(a: &[u8; 4], b: &[u8; 4]) -> (r: bool)
    ensures
        r == (a@ == b@),
{
    let r = a[0] == b[0] && a[1] == b[1] && a[2] == b[2] && a[3] == b[3];
    proof {
        if r {
            assert(a@ =~= b@);
        } else if a@ == b@ {
            assert(a@[0] == b@[0] && a@[1] == b@[1] && a@[2] == b@[2] && a@[3] == b@[3]);
        }
    }
    r
}

/// The sort key of a tag.
fn tag_key_exec(tag: &[u8; 4]) -> (r: u32)
    ensures
        r == tag_key(tag@),
{
    crate::bytes::be32_from(tag[0], tag[1], tag[2], tag[3])
}

impl Table {
    /// A copy of this table.
    pub fn copy(&self) -> (r: Table)
        ensures
            r@ == self@,
    {
        Table { tag: self.tag, data: slice_to_vec(self.data.as_slice()) }
    }
}

/// `insert_sorted` puts `t` at position `j` when the elements from `j` on
/// have larger keys and the one before `j` does not.
pub proof fn lemma_insert_sorted_at(s: Seq<TableModel>, t: TableModel, j: int)
    requires
        0 <= j <= s.len(),
        forall|m: int| j <= m < s.len() ==> tag_key(#[trigger] s[m].tag) > tag_key(t.tag),
        j > 0 ==> tag_key(s[j - 1].tag) <= tag_key(t.tag),
    ensures
        insert_sorted(s, t) == s.insert(j, t),
    decreases s.len(),
{
    if s.len() == 0 {
        assert(s.insert(j, t) =~= seq![t]);
    } else if tag_key(s.last().tag) <= tag_key(t.tag) {
        assert(j == s.len());
        assert(s.insert(j, t) =~= s.push(t));
    } else {
        lemma_insert_sorted_at(s.drop_last(), t, j);
        assert(s.drop_last().insert(j, t).push(s.last()) =~= s.insert(j, t));
    }
}

/// Copies of the tables, stably sorted by tag.
fn sorted_copy(tables: &Vec<Table>) -> (r: Vec<Table>)
    ensures
        models(r@) == sort_tables(models(tables@)),
{
    let mut sorted: Vec<Table> = Vec::new();
    let mut i: usize = 0;
    assert(models(tables@).take(0) =~= Seq::<TableModel>::empty());
    while i < tables.len()
        invariant
            i <= tables.len(),
            models(sorted@) == sort_tables(models(tables@).take(i as int)),
        decreases tables.len() - i,
    {
        let t = tables[i].copy();
        let k = tag_key_exec(&t.tag);
        let mut j = sorted.len();
        while j > 0
            invariant
                j <= sorted.len(),
                forall|m: int| j <= m < sorted@.len() ==> tag_key(#[trigger] sorted@[m].tag@) > k,
            ensures
                j <= sorted.len(),
                forall|m: int| j <= m < sorted@.len() ==> tag_key(#[trigger] sorted@[m].tag@) > k,
                j > 0 ==> tag_key(sorted@[j - 1].tag@) <= k,
            decreases j,
        {
            let kj = tag_key_exec(&sorted[j - 1].tag);
            if kj <= k {
                break;
            }
            j = j - 1;
        }
        let ghost before = models(sorted@);
        proof {
            lemma_insert_sorted_at(before, t@, j as int);
            assert(models(tables@).take(i + 1).drop_last() =~= models(tables@).take(i as int));
            assert(models(tables@).take(i + 1).last() == t@);
        }
        sorted.insert(j, t);
        assert(models(sorted@) =~= before.insert(j as int, t@));
        i = i + 1;
    }
    assert(models(tables@).take(tables.len() as int) =~= models(tables@));
    sorted
}

/// The checksum of a `head` table, with `checkSumAdjustment` treated as zero.
fn head_checksum(data: &[u8]) -> (r: u32)
    ensures
        r == checksum(head_zeroed(data@)),
{
    let mut copy = slice_to_vec(data);
    if copy.len() >= HEAD_CHECKSUM_ADJUSTMENT_OFFSET + 4 {
        set_u32(&mut copy, HEAD_CHECKSUM_ADJUSTMENT_OFFSET, 0);
        assert(be32_bytes(0) =~= zeros(4));
    }
    table_checksum(copy.as_slice())
}

/// `floor(log2(n))` is at most `n`.
pub proof fn lemma_log2_floor_le(n: nat)
    ensures
        log2_floor(n) <= n,
    decreases n,
{
    if n >= 2 {
        lemma_log2_floor_le(n / 2);
    }
}

/// Append the offset table for `n` tables.
fn write_offset_table(out: &mut Vec<u8>, sfnt_version: u32, n: u16)
    ensures
        final(out)@ == old(out)@ + offset_table(sfnt_version, n),
{
    let mut e: u16 = 0;
    let mut m: u32 = n as u32;
    let mut p: u32 = 1;
    while m >= 2
        invariant
            m <= n,
            log2_floor(n as nat) == e + log2_floor(m as nat),
            p == two_pow(e as nat),
            p * m <= n || n < 2,
            m >= 1 || n == 0,
            p <= 65536,
        decreases m,
    {
        proof {
            lemma_log2_floor_le(n as nat);
        }
        assert(p * 2 * (m / 2) <= p * m) by (nonlinear_arith)
            requires m >= 2;
        assert(p * 2 <= p * m) by (nonlinear_arith)
            requires m >= 2;
        p = p * 2;
        m = m / 2;
        e = e + 1;
    }
    let n32: u32 = n as u32;
    let sr: u16 = ((p * 16) % 65536) as u16;
    let rs: u16 = if n32 * 16 >= p * 16 {
        ((n32 * 16 - p * 16) % 65536) as u16
    } else {
        ((n32 * 16 + 65536 - p * 16) % 65536) as u16
    };
    push_u32(out, sfnt_version);
    push_u16(out, n);
    push_u16(out, sr);
    push_u16(out, e);
    push_u16(out, rs);
    assert(final(out)@ =~= old(out)@ + offset_table(sfnt_version, n));
}

/// Table `i`'s padded length added to the prefix before it.
proof fn lemma_prefix_len_step(ts: Seq<TableModel>, i: int)
    requires
        0 <= i,
    ensures
        prefix_len(ts, i + 1) == prefix_len(ts, i) + padded_len(ts[i]),
{
}

/// Padded lengths are at least the data lengths, so prefixes only grow.
pub proof fn lemma_prefix_len_mono(ts: Seq<TableModel>, i: int, j: int)
    requires
        0 <= i <= j,
    ensures
        prefix_len(ts, i) <= prefix_len(ts, j),
    decreases j - i,
{
    if i < j {
        lemma_prefix_len_mono(ts, i, j - 1);
        assert(padded_len(ts[j - 1]) >= 0);
    }
}

impl SfntFont {
    /// Parse a single SFNT font (see [`parse_font`] and [`parse_detail`]).
    pub fn parse(data: &[u8]) -> (r: Result<Self, Error>)
        ensures
            match (r, parse_font(data@)) {
                (Ok(f), Ok(m)) => f@ == m,
                (Err(e), Err(k)) => e.kind() == k && e.detail() == parse_detail(data@),
                _ => false,
            },
    {
        let len = data.len();
        if len < OFFSET_TABLE_LEN {
            return Err(Error::NotSfnt);
        }
        let sfnt_version = read_u32(data, 0);
        if sfnt_version == TTCF {
            return Err(Error::Collection);
        }
        if sfnt_version == WOFF || sfnt_version == WOF2 {
            return Err(Error::Woff);
        }
        if !is_known_sfnt_version(sfnt_version) {
            return Err(Error::NotSfnt);
        }
        let num_tables = read_u16(data, 4) as usize;
        let directory_end = OFFSET_TABLE_LEN + num_tables * DIRECTORY_RECORD_LEN;
        if len < directory_end {
            return Err(Error::InvalidFont("table directory truncated".to_string()));
        }
        let mut tables: Vec<Table> = Vec::new();
        let mut i: usize = 0;
        while i < num_tables
            invariant
                len == data@.len(),
                len >= 12,
                get_be32(data@, 0) == sfnt_version,
                sfnt_version != TTCF && sfnt_version != WOFF && sfnt_version != WOF2,
                is_known_version(sfnt_version),
                num_tables == self::num_tables(data@),
                directory_fits(data@),
                i <= num_tables,
                tables@.len() == i,
                forall|j: int| 0 <= j < i ==> rec_offset(data@, j) + rec_length(data@, j) <= len,
                forall|j: int| 0 <= j < i ==> (#[trigger] tables@[j])@ == table_at(data@, j),
            decreases num_tables - i,
        {
            let rec = OFFSET_TABLE_LEN + i * DIRECTORY_RECORD_LEN;
            let tag: [u8; 4] = [data[rec], data[rec + 1], data[rec + 2], data[rec + 3]];
            assert(tag@ =~= rec_tag(data@, i as int));
            let offset = read_u32(data, rec + 8) as usize;
            let length = read_u32(data, rec + 12) as usize;
            let end = match offset.checked_add(length) {
                Some(end) => end,
                None => {
                    assert(!tables_fit(data@)) by {
                        assert(rec_offset(data@, i as int) + rec_length(data@, i as int) > len);
                    }
                    proof {
                        lemma_first_overrun(data@, 0, i as int);
                    }
                    return Err(Error::InvalidFont("table length overflow".to_string()));
                },
            };
            if end > len {
                assert(!tables_fit(data@)) by {
                    assert(rec_offset(data@, i as int) + rec_length(data@, i as int) > len);
                }
                proof {
                    lemma_first_overrun(data@, 0, i as int);
                }
                return Err(Error::InvalidFont(past_end_message(&tag)));
            }
            let t = Table { tag, data: slice_to_vec(slice_subrange(data, offset, end)) };
            tables.push(t);
            i = i + 1;
        }
        let f = SfntFont { sfnt_version, tables };
        assert(f@.tables =~= Seq::new(num_tables as nat, |j: int| table_at(data@, j)));
        Ok(f)
    }

    /// The first table with `tag`, if any.
    pub fn table(&self, tag: &[u8; 4]) -> (r: Option<&Table>)
        ensures
            match r {
                Some(t) => find_index(self@.tables, tag@) < self@.tables.len() && t@ == self@.tables[find_index(
                    self@.tables,
                    tag@,
                )],
                None => find_index(self@.tables, tag@) == self@.tables.len(),
            },
    {
        let mut i: usize = 0;
        while i < self.tables.len()
            invariant
                i <= self.tables@.len(),
                find_index(self@.tables, tag@) == first_from(self@.tables, tag@, i as int),
            decreases self.tables.len() - i,
        {
            if tag_eq(&self.tables[i].tag, tag) {
                return Some(&self.tables[i]);
            }
            i = i + 1;
        }
        None
    }

    /// Remove every table with `tag`.
    pub fn remove_table(&mut self, tag: &[u8; 4])
        ensures
            final(self)@ == (FontModel {
                version: old(self)@.version,
                tables: without_tag(old(self)@.tables, tag@),
            }),
    {
        let mut kept: Vec<Table> = Vec::new();
        let mut i: usize = 0;
        let ghost ts = old(self)@.tables;
        assert(ts.take(0) =~= Seq::<TableModel>::empty());
        while i < self.tables.len()
            invariant
                self@ == old(self)@,
                ts == old(self)@.tables,
                i <= ts.len(),
                models(kept@) == without_tag(ts.take(i as int), tag@),
            decreases self.tables.len() - i,
        {
            assert(ts.take(i + 1).drop_last() =~= ts.take(i as int));
            if !tag_eq(&self.tables[i].tag, tag) {
                let t = self.tables[i].copy();
                kept.push(t);
                assert(models(kept@) =~= without_tag(ts.take(i as int), tag@).push(t@));
            }
            i = i + 1;
        }
        assert(ts.take(ts.len() as int) =~= ts);
        self.tables = kept;
    }

    /// Insert or replace a table, keeping at most one entry per tag: every
    /// table with `tag` is removed and the new one is appended.
    pub fn set_table(&mut self, tag: [u8; 4], data: Vec<u8>)
        ensures
            final(self)@ == (FontModel {
                version: old(self)@.version,
                tables: without_tag(old(self)@.tables, tag@).push(TableModel { tag: tag@, data: data@ }),
            }),
    {
        self.remove_table(&tag);
        let ghost before = self@.tables;
        self.tables.push(Table { tag, data });
        assert(self@.tables =~= before.push(TableModel { tag: tag@, data: data@ }));
    }

    /// Serialize to an SFNT font (see [`serialize_font`]): the directory is
    /// sorted by tag, table offsets are 4-byte aligned, per-table checksums
    /// are recomputed and `head.checkSumAdjustment` is set over the whole font.
    pub fn serialize(&self) -> (out: Vec<u8>)
        requires
            can_serialize(self@),
        ensures
            out@ == serialize_font(self@),
    {
        reveal(serialize_font);
        reveal(write_tables);
        reveal(raw_font);
        let tables = sorted_copy(&self.tables);
        let ghost ts = models(tables@);
        let n = tables.len();
        proof {
            lemma_prefix_len_mono(ts, 0, n as int);
        }
        let offsets = compute_offsets(&tables);
        let mut out: Vec<u8> = Vec::new();
        write_offset_table(&mut out, self.sfnt_version, n as u16);
        assert(out@ =~= offset_table(self.sfnt_version, n as u16));
        write_records(&mut out, &tables, &offsets);
        proof {
            lemma_models_tags(tables@);
            lemma_records_len(ts, n as int);
        }
        write_blobs(&mut out, &tables);
        proof {
            lemma_blobs_len(ts, n as int);
        }
        assert(out@ == raw_font(self.sfnt_version, ts));
        assert(out@.len() == font_len(ts));
        let head = find_last_head(&tables);

        // checkSumAdjustment = magic - checksum(whole font with the field zeroed)
        match head {
            Some(h) => {
                let adj_pos = offsets[h] + HEAD_CHECKSUM_ADJUSTMENT_OFFSET;
                assert(adj_pos == adjustment_pos(ts, h as int));
                set_adjustment(&mut out, adj_pos);
            },
            None => {},
        }
        out
    }
}

/// Length of the font written from `tables` in order, or `None` when it
/// exceeds `usize::MAX`.
fn written_len(tables: &Vec<Table>) -> (r: Option<usize>)
    ensures
        match r {
            Some(l) => l == font_len(models(tables@)),
            None => font_len(models(tables@)) > usize::MAX,
        },
{
    let ghost ts = models(tables@);
    let n = tables.len();
    if n > (usize::MAX - OFFSET_TABLE_LEN) / DIRECTORY_RECORD_LEN {
        proof {
            lemma_prefix_len_mono(ts, 0, n as int);
        }
        return None;
    }
    let mut total: usize = OFFSET_TABLE_LEN + n * DIRECTORY_RECORD_LEN;
    let mut i: usize = 0;
    while i < n
        invariant
            n == tables@.len(),
            ts == models(tables@),
            i <= n,
            total == data_start(n as int) + prefix_len(ts, i as int),
        decreases n - i,
    {
        proof {
            lemma_prefix_len_step(ts, i as int);
            lemma_prefix_len_mono(ts, i + 1, n as int);
            assert(ts[i as int] == tables@[i as int]@);
            crate::bytes::lemma_align4(tables@[i as int].data@.len() as int);
        }
        let len = tables[i].data.len();
        if len > usize::MAX - 3 {
            return None;
        }
        let padded = align4_exec(len);
        if padded > usize::MAX - total {
            return None;
        }
        total = total + padded;
        i = i + 1;
    }
    Some(total)
}

impl SfntFont {
    /// Whether this font can be serialized (see [`can_serialize`]): its
    /// serialized length fits in `usize` and a `head` table's
    /// `checkSumAdjustment` field lies inside the output.
    pub fn serializable(&self) -> (r: bool)
        ensures
            r == can_serialize(self@),
    {
        let tables = sorted_copy(&self.tables);
        let ghost ts = models(tables@);
        let total = match written_len(&tables) {
            Some(l) => l,
            None => {
                return false;
            },
        };
        let offsets = compute_offsets(&tables);
        match find_last_head(&tables) {
            Some(h) => {
                let off = offsets[h];
                proof {
                    lemma_prefix_len_mono(ts, h as int, tables.len() as int);
                }
                off <= total && total - off >= HEAD_CHECKSUM_ADJUSTMENT_OFFSET + 4
            },
            None => true,
        }
    }
}

/// The offsets at which `tables` are written, in order.
fn compute_offsets(tables: &Vec<Table>) -> (offsets: Vec<usize>)
    requires
        font_len(models(tables@)) <= usize::MAX,
    ensures
        offsets@.len() == tables@.len(),
        forall|j: int| 0 <= j < tables@.len() ==> offsets@[j] == table_offset(models(tables@), j),
{
    let ghost ts = models(tables@);
    let n = tables.len();
    proof {
        lemma_prefix_len_mono(ts, 0, n as int);
    }
    let start = OFFSET_TABLE_LEN + n * DIRECTORY_RECORD_LEN;
    let mut offsets: Vec<usize> = Vec::new();
    let mut offset = start;
    let mut i: usize = 0;
    while i < n
        invariant
            n == tables@.len(),
            ts == models(tables@),
            font_len(ts) <= usize::MAX,
            start == data_start(n as int),
            i <= n,
            offset == start + prefix_len(ts, i as int),
            offsets@.len() == i,
            forall|j: int| 0 <= j < i ==> offsets@[j] == table_offset(ts, j),
        decreases n - i,
    {
        proof {
            lemma_prefix_len_step(ts, i as int);
            lemma_prefix_len_mono(ts, i + 1, n as int);
            assert(ts[i as int] == tables@[i as int]@);
        }
        offsets.push(offset);
        let padded = align4_exec(tables[i].data.len());
        offset = offset + padded;
        i = i + 1;
    }
    offsets
}

/// Set the four bytes at `pos` to `CHECKSUM_MAGIC` minus the checksum of
/// `out` with those bytes zeroed.
fn set_adjustment(out: &mut Vec<u8>, pos: usize)
    requires
        pos + 4 <= old(out)@.len(),
    ensures
        ({
            let z = splice(old(out)@, pos as int, zeros(4));
            final(out)@ == splice(z, pos as int, be32_bytes(wrap_sub(CHECKSUM_MAGIC, checksum(z))))
        }),
{
    set_u32(out, pos, 0);
    assert(be32_bytes(0) =~= zeros(4));
    let whole = table_checksum(out.as_slice());
    set_u32(out, pos, CHECKSUM_MAGIC.wrapping_sub(whole));
}

/// The directory records of the first `k` tables take 16 bytes each.
pub proof fn lemma_records_len(ts: Seq<TableModel>, k: int)
    requires
        0 <= k <= ts.len(),
        forall|i: int| 0 <= i < ts.len() ==> (#[trigger] ts[i]).tag.len() == 4,
    ensures
        records(ts, k).len() == 16 * k,
    decreases k,
{
    if k > 0 {
        lemma_records_len(ts, k - 1);
    }
}

/// The padded data of the first `k` tables takes their padded lengths.
pub proof fn lemma_blobs_len(ts: Seq<TableModel>, k: int)
    requires
        0 <= k <= ts.len(),
    ensures
        blobs(ts, k).len() == prefix_len(ts, k),
    decreases k,
{
    if k > 0 {
        lemma_blobs_len(ts, k - 1);
    }
}

/// The tags of real tables have four bytes.
pub proof fn lemma_models_tags(v: Seq<Table>)
    ensures
        forall|i: int| 0 <= i < models(v).len() ==> (#[trigger] models(v)[i]).tag.len() == 4,
{
    assert forall|i: int| 0 <= i < models(v).len() implies (#[trigger] models(v)[i]).tag.len() == 4 by {
        let t = v[i];
        assert(t.tag@.len() == 4);
    }
}

/// Append the directory records of `tables`, written at `offsets`.
fn write_records(out: &mut Vec<u8>, tables: &Vec<Table>, offsets: &Vec<usize>)
    requires
        offsets@.len() == tables@.len(),
        forall|j: int| 0 <= j < tables@.len() ==> offsets@[j] == table_offset(models(tables@), j),
    ensures
        final(out)@ == old(out)@ + records(models(tables@), tables@.len() as int),
{
    let ghost ts = models(tables@);
    let n = tables.len();
    let mut i: usize = 0;
    while i < n
        invariant
            n == tables@.len(),
            ts == models(tables@),
            offsets@.len() == n,
            forall|j: int| 0 <= j < n ==> offsets@[j] == table_offset(ts, j),
            i <= n,
            out@ == old(out)@ + records(ts, i as int),
        decreases n - i,
    {
        let t = &tables[i];
        proof {
            lemma_head_tag();
        }
        let checksum = if tag_eq(&t.tag, &HEAD_TAG) {
            head_checksum(t.data.as_slice())
        } else {
            table_checksum(t.data.as_slice())
        };
        let ghost before = out@;
        out.push(t.tag[0]);
        out.push(t.tag[1]);
        out.push(t.tag[2]);
        out.push(t.tag[3]);
        push_u32(out, checksum);
        push_u32(out, offsets[i] as u32);
        push_u32(out, t.data.len() as u32);
        assert(ts[i as int] == t@);
        assert(out@ =~= before + record(ts, i as int));
        i = i + 1;
    }
}

/// Append the data of `tables`, each padded to a 4-byte boundary.
fn write_blobs(out: &mut Vec<u8>, tables: &Vec<Table>)
    requires
        old(out)@.len() + prefix_len(models(tables@), tables@.len() as int) <= usize::MAX,
    ensures
        final(out)@ == old(out)@ + blobs(models(tables@), tables@.len() as int),
{
    let ghost ts = models(tables@);
    let n = tables.len();
    proof {
        lemma_prefix_len_mono(ts, 0, n as int);
    }
    let mut i: usize = 0;
    while i < n
        invariant
            n == tables@.len(),
            ts == models(tables@),
            prefix_len(ts, n as int) <= usize::MAX,
            i <= n,
            out@ == old(out)@ + blobs(ts, i as int),
        decreases n - i,
    {
        let t = &tables[i];
        proof {
            lemma_prefix_len_step(ts, i as int);
            lemma_prefix_len_mono(ts, 0, i as int);
            lemma_prefix_len_mono(ts, i + 1, n as int);
            assert(ts[i as int] == t@);
        }
        let len = t.data.len();
        let padded = align4_exec(len);
        let ghost before = out@;
        out.extend_from_slice(t.data.as_slice());
        push_zeros(out, padded - len);
        assert(out@ =~= before + blob(ts[i as int]));
        i = i + 1;
    }
}

/// Index of the last `head` table.
fn find_last_head(tables: &Vec<Table>) -> (r: Option<usize>)
    ensures
        match r {
            Some(h) => last_head(models(tables@)) == Some(h as int) && h < tables@.len(),
            None => last_head(models(tables@)) is None,
        },
{
    let ghost ts = models(tables@);
    let n = tables.len();
    let mut head: Option<usize> = None;
    let mut i: usize = 0;
    while i < n
        invariant
            n == tables@.len(),
            ts == models(tables@),
            i <= n,
            match head {
                Some(h) => last_head_upto(ts, i as int) == Some(h as int) && h < n,
                None => last_head_upto(ts, i as int) is None,
            },
        decreases n - i,
    {
        proof {
            lemma_head_tag();
            assert(ts[i as int] == tables@[i as int]@);
        }
        if tag_eq(&tables[i].tag, &HEAD_TAG) {
            head = Some(i);
        }
        i = i + 1;
    }
    head
}

/// Whether `l` describes directory record `i` of `d`.
pub open spec fn loc_matches(d: Seq<u8>, l: TableLoc, i: int) -> bool {
    &&& l.tag@ == rec_tag(d, i)
    &&& l.record_offset == record_pos(i)
    &&& l.data_offset == rec_offset(d, i)
    &&& l.length == rec_length(d, i)
}

/// Whether the directory of `d` can be located: the offset table, the
/// directory and every table lie inside `d`.
pub open spec fn locatable(d: Seq<u8>) -> bool {
    d.len() >= 12 && directory_fits(d) && tables_fit(d)
}

/// Locate every table's directory record and data region within a serialized
/// font, without copying table data. Data shorter than the offset table is
/// `NotSfnt`; a truncated directory or a table past the end is `InvalidFont`.
pub fn locate_tables(data: &[u8]) -> (r: Result<Vec<TableLoc>, Error>)
    ensures
        match r {
            Ok(locs) => locatable(data@) && locs@.len() == num_tables(data@) && forall|i: int|
                0 <= i < locs@.len() ==> loc_matches(data@, #[trigger] locs@[i], i),
            Err(e) => !locatable(data@) && e.kind() == (if data@.len() < 12 {
                ErrorKind::NotSfnt
            } else {
                ErrorKind::InvalidFont
            }) && e.detail() == (if data@.len() < 12 {
                Seq::empty()
            } else {
                directory_detail(data@, "table extends past end of file"@)
            }),
        },
{
    let len = data.len();
    if len < OFFSET_TABLE_LEN {
        return Err(Error::NotSfnt);
    }
    let num_tables = read_u16(data, 4) as usize;
    let directory_end = OFFSET_TABLE_LEN + num_tables * DIRECTORY_RECORD_LEN;
    if len < directory_end {
        return Err(Error::InvalidFont("table directory truncated".to_string()));
    }
    let mut locs: Vec<TableLoc> = Vec::new();
    let mut i: usize = 0;
    while i < num_tables
        invariant
            len == data@.len(),
            len >= 12,
            num_tables == self::num_tables(data@),
            directory_fits(data@),
            i <= num_tables,
            locs@.len() == i,
            forall|j: int| 0 <= j < i ==> rec_offset(data@, j) + rec_length(data@, j) <= len,
            forall|j: int| 0 <= j < i ==> loc_matches(data@, #[trigger] locs@[j], j),
        decreases num_tables - i,
    {
        let rec = OFFSET_TABLE_LEN + i * DIRECTORY_RECORD_LEN;
        let tag: [u8; 4] = [data[rec], data[rec + 1], data[rec + 2], data[rec + 3]];
        assert(tag@ =~= rec_tag(data@, i as int));
        let data_offset = read_u32(data, rec + 8) as usize;
        let length = read_u32(data, rec + 12) as usize;
        let end = match data_offset.checked_add(length) {
            Some(end) => end,
            None => {
                assert(!tables_fit(data@)) by {
                    assert(rec_offset(data@, i as int) + rec_length(data@, i as int) > len);
                }
                proof {
                    lemma_first_overrun(data@, 0, i as int);
                }
                return Err(Error::InvalidFont("table length overflow".to_string()));
            },
        };
        if end > len {
            assert(!tables_fit(data@)) by {
                assert(rec_offset(data@, i as int) + rec_length(data@, i as int) > len);
            }
            proof {
                lemma_first_overrun(data@, 0, i as int);
            }
            return Err(Error::InvalidFont("table extends past end of file".to_string()));
        }
        locs.push(TableLoc { tag, record_offset: rec, data_offset, length });
        i = i + 1;
    }
    Ok(locs)
}

/// Whether a font's stored `head.checkSumAdjustment` matches its bytes, or the
/// kind of error parsing it gives. A font without a `head` table, or whose
/// first `head` table is too short to hold the field, does not match. The
/// expected value is `CHECKSUM_MAGIC` minus the checksum of the font with the
/// field (in the first `head` table) zeroed.
pub open spec fn adjustment_valid(d: Seq<u8>) -> Result<bool, ErrorKind> {
    match parse_font(d) {
        Err(k) => Err(k),
        Ok(f) => {
            let i = find_index(f.tables, head_tag());
            if i >= f.tables.len() || f.tables[i].data.len() < 12 {
                Ok(false)
            } else {
                let stored = get_be32(f.tables[i].data, 8);
                let zeroed = splice(d, rec_offset(d, i) + 8, zeros(4));
                Ok(stored == wrap_sub(CHECKSUM_MAGIC, checksum(zeroed)))
            }
        },
    }
}

/// Verify that a font's `head.checkSumAdjustment` matches the value computed
/// over its current bytes (see [`adjustment_valid`]).
pub fn checksum_adjustment_valid(data: &[u8]) -> (r: Result<bool, Error>)
    ensures
        match (r, adjustment_valid(data@)) {
            (Ok(b), Ok(c)) => b == c,
            (Err(e), Err(k)) => e.kind() == k && e.detail() == parse_detail(data@),
            _ => false,
        },
{
    let font = SfntFont::parse(data)?;
    let ghost ts = font@.tables;
    proof {
        lemma_head_tag();
        lemma_first_from(ts, head_tag(), 0);
    }
    let head = match font.table(&HEAD_TAG) {
        Some(head) => head,
        None => {
            return Ok(false);
        },
    };
    if head.data.len() < HEAD_CHECKSUM_ADJUSTMENT_OFFSET + 4 {
        return Ok(false);
    }
    let stored = read_u32(head.data.as_slice(), HEAD_CHECKSUM_ADJUSTMENT_OFFSET);
    let ghost fi = find_index(ts, head_tag());

    let mut zeroed = slice_to_vec(data);
    let _ = data.len();
    // Locate the head table's directory record.
    let num_tables = read_u16(data, 4) as usize;
    let mut i: usize = 0;
    while i < num_tables
        invariant
            num_tables == ts.len(),
            num_tables == self::num_tables(data@),
            data@.len() <= usize::MAX,
            forall|j: int| 0 <= j < num_tables ==> #[trigger] ts[j] == table_at(data@, j),
            directory_fits(data@),
            0 <= fi < num_tables,
            ts[fi].tag == head_tag(),
            forall|j: int| 0 <= j < fi ==> ts[j].tag != head_tag(),
            i <= fi,
        ensures
            i == fi,
        decreases num_tables - i,
    {
        let rec = OFFSET_TABLE_LEN + i * DIRECTORY_RECORD_LEN;
        let tag: [u8; 4] = [data[rec], data[rec + 1], data[rec + 2], data[rec + 3]];
        assert(tag@ =~= rec_tag(data@, i as int));
        assert(ts[i as int].tag == rec_tag(data@, i as int));
        if tag_eq(&tag, &HEAD_TAG) {
            break;
        }
        i = i + 1;
    }
    // Zero its checkSumAdjustment.
    let rec = OFFSET_TABLE_LEN + i * DIRECTORY_RECORD_LEN;
    let off = read_u32(data, rec + 8) as usize;
    assert(ts[fi] == table_at(data@, fi));
    let adj_pos = off + HEAD_CHECKSUM_ADJUSTMENT_OFFSET;
    if adj_pos + 4 > zeroed.len() {
        return Ok(false);
    }
    set_u32(&mut zeroed, adj_pos, 0);
    assert(be32_bytes(0) =~= zeros(4));
    let expected = CHECKSUM_MAGIC.wrapping_sub(table_checksum(zeroed.as_slice()));
    Ok(stored == expected)
}

/// Whether `v` is an accepted single-font `sfntVersion`.
fn is_known_sfnt_version(v: u32) -> (r: bool)
    ensures
        r == is_known_version(v),
{
    v == 0x0001_0000 || v == 0x4F54_544F || v == 0x7472_7565 || v == 0x7479_7031
}

/// The message for a table extending past the end of the file, naming the
/// tag (`format!` over `String::from_utf8_lossy`, which gives the decoded
/// text of valid UTF-8 and replaces invalid sequences otherwise; which
/// characters replace them is left unsaid).
#[verifier::external_body]
fn past_end_message(tag: &[u8; 4]) -> (r: String)
    ensures
        r@ == "table "@ + lossy_text(tag@) + " extends past end of file"@,
        valid_utf8(tag@) ==> r@ == "table "@ + decode_utf8(tag@) + " extends past end of file"@,
{
    format!("table {} extends past end of file", String::from_utf8_lossy(tag))
}

} // verus!
