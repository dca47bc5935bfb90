//! The `c2pa.hash.data` hard-binding exclusion geometry of a font.
use vstd::prelude::*;
use crate::bytes::{get_be32, read_u32};
use crate::error::{Error, ErrorKind};
use crate::sfnt::{
    directory_detail, head_tag, lemma_head_tag, locatable, locate_tables, rec_length, rec_offset, rec_tag,
    record_pos, tag_eq, TableLoc, HEAD_CHECKSUM_ADJUSTMENT_OFFSET, HEAD_TAG,
};
use crate::table::{c2pa_tag, lemma_c2pa_tag, C2PA_TAG};

verus! {

/// Offset of `manifestStoreOffset` within the C2PA table.
pub const STORE_OFFSET_FIELD: usize = 12;

/// Offset of `manifestStoreLength` within the C2PA table.
pub const STORE_LENGTH_FIELD: usize = 16;

/// A byte range excluded from the `c2pa.hash.data` hard binding.
#[derive(Debug, Clone, Copy, PartialEq, Eq, Structural)]
pub struct Exclusion {
    pub start: u64,
    pub length: u64,
}

/// Index of the first directory record of `d` with `tag` at or after `i`;
/// `n` if none.
pub open spec fn first_record_from(d: Seq<u8>, n: int, tag: Seq<u8>, i: int) -> int
    decreases n - i,
{
    if i >= n {
        n
    } else if rec_tag(d, i) == tag {
        i
    } else {
        first_record_from(d, n, tag, i + 1)
    }
}

/// The record found lies between `i` and `n`.
pub proof fn lemma_first_record_range(d: Seq<u8>, n: int, tag: Seq<u8>, i: int)
    requires
        i <= n,
    ensures
        i <= first_record_from(d, n, tag, i) <= n,
    decreases n - i,
{
    if i < n && rec_tag(d, i) != tag {
        lemma_first_record_range(d, n, tag, i + 1);
    }
}

/// `e` inserted into `s` after every element starting no later than it.
pub open spec fn insert_by_start(s: Seq<Exclusion>, e: Exclusion) -> Seq<Exclusion>
    decreases s.len(),
{
    if s.len() == 0 {
        seq![e]
    } else if s.last().start <= e.start {
        s.push(e)
    } else {
        insert_by_start(s.drop_last(), e).push(s.last())
    }
}

/// The exclusions stably sorted by start offset.
pub open spec fn sort_by_start(s: Seq<Exclusion>) -> Seq<Exclusion>
    decreases s.len(),
{
    if s.len() == 0 {
        s
    } else {
        insert_by_start(sort_by_start(s.drop_last()), s.last())
    }
}

/// Whether byte `x` lies inside one of the exclusions.
pub open spec fn excluded(ex: Seq<Exclusion>, x: int) -> bool {
    exists|k: int| 0 <= k < ex.len() && (#[trigger] ex[k]).start <= x < ex[k].start + ex[k].length
}

/// Inserting by start keeps every element and adds `e`.
proof fn lemma_insert_by_start_contains(s: Seq<Exclusion>, e: Exclusion)
    ensures
        insert_by_start(s, e).len() == s.len() + 1,
        insert_by_start(s, e).contains(e),
        forall|y: Exclusion| s.contains(y) ==> #[trigger] insert_by_start(s, e).contains(y),
        forall|y: Exclusion| #[trigger] insert_by_start(s, e).contains(y) ==> y == e || s.contains(y),
    decreases s.len(),
{
    let r = insert_by_start(s, e);
    if s.len() == 0 {
        assert(r[0] == e);
        assert(r =~= seq![e]);
    } else if s.last().start <= e.start {
        assert(r[s.len() as int] == e);
        assert forall|y: Exclusion| s.contains(y) implies #[trigger] r.contains(y) by {
            let k = choose|k: int| 0 <= k < s.len() && s[k] == y;
            assert(r[k] == y);
        }
        assert forall|y: Exclusion| #[trigger] r.contains(y) implies y == e || s.contains(y) by {
            let k = choose|k: int| 0 <= k < r.len() && r[k] == y;
            if k < s.len() {
                assert(s[k] == y);
            }
        }
    } else {
        let d = s.drop_last();
        lemma_insert_by_start_contains(d, e);
        let q = insert_by_start(d, e);
        assert(r == q.push(s.last()));
        let k = choose|k: int| 0 <= k < q.len() && q[k] == e;
        assert(r[k] == e);
        assert forall|y: Exclusion| s.contains(y) implies #[trigger] r.contains(y) by {
            let k = choose|k: int| 0 <= k < s.len() && s[k] == y;
            if k == s.len() - 1 {
                assert(r[q.len() as int] == y);
            } else {
                assert(d[k] == y);
                assert(d.contains(y));
                assert(q.contains(y));
                let m = choose|m: int| 0 <= m < q.len() && q[m] == y;
                assert(r[m] == y);
            }
        }
        assert forall|y: Exclusion| #[trigger] r.contains(y) implies y == e || s.contains(y) by {
            let k = choose|k: int| 0 <= k < r.len() && r[k] == y;
            if k < q.len() {
                assert(q[k] == y);
                assert(q.contains(y));
                if y != e {
                    let m = choose|m: int| 0 <= m < d.len() && d[m] == y;
                    assert(s[m] == y);
                }
            } else {
                assert(s[s.len() - 1] == y);
            }
        }
    }
}

/// Sorting by start keeps every element.
pub proof fn lemma_sort_by_start_contains(s: Seq<Exclusion>)
    ensures
        sort_by_start(s).len() == s.len(),
        forall|y: Exclusion| s.contains(y) ==> #[trigger] sort_by_start(s).contains(y),
        forall|y: Exclusion| #[trigger] sort_by_start(s).contains(y) ==> s.contains(y),
    decreases s.len(),
{
    if s.len() > 0 {
        let d = s.drop_last();
        lemma_sort_by_start_contains(d);
        lemma_insert_by_start_contains(sort_by_start(d), s.last());
        assert forall|y: Exclusion| s.contains(y) implies #[trigger] sort_by_start(s).contains(y) by {
            let k = choose|k: int| 0 <= k < s.len() && s[k] == y;
            if k < s.len() - 1 {
                assert(d[k] == y);
                assert(d.contains(y));
            }
        }
        assert forall|y: Exclusion| #[trigger] sort_by_start(s).contains(y) implies s.contains(y) by {
            if y == s.last() {
                assert(s[s.len() - 1] == y);
            } else {
                assert(sort_by_start(d).contains(y));
                assert(d.contains(y));
                let m = choose|m: int| 0 <= m < d.len() && d[m] == y;
                assert(s[m] == y);
            }
        }
    } else {
        assert forall|y: Exclusion| #[trigger] sort_by_start(s).contains(y) implies s.contains(y) by {}
    }
}

/// A byte inside one of the listed ranges is excluded once the list is
/// sorted by start.
pub proof fn lemma_excluded_sorted(s: Seq<Exclusion>, m: int, x: int)
    requires
        0 <= m < s.len(),
        s[m].start <= x < s[m].start + s[m].length,
    ensures
        excluded(sort_by_start(s), x),
{
    lemma_sort_by_start_contains(s);
    assert(s.contains(s[m]));
    let r = sort_by_start(s);
    assert(r.contains(s[m]));
    let k = choose|k: int| 0 <= k < r.len() && r[k] == s[m];
    assert(r[k].start <= x < r[k].start + r[k].length);
}

/// The exclusions are in non-decreasing order of start.
pub open spec fn starts_sorted(ex: Seq<Exclusion>) -> bool {
    forall|i: int, j: int| 0 <= i < j < ex.len() ==> (#[trigger] ex[i]).start <= (#[trigger] ex[j]).start
}

/// Every exclusion has a property.
pub open spec fn all_exclusions(ex: Seq<Exclusion>, p: spec_fn(Exclusion) -> bool) -> bool {
    forall|i: int| 0 <= i < ex.len() ==> p(#[trigger] ex[i])
}

/// Inserting by start keeps the order and every property the elements and
/// `e` share.
proof fn lemma_insert_by_start_sorted(s: Seq<Exclusion>, e: Exclusion, p: spec_fn(Exclusion) -> bool)
    requires
        starts_sorted(s),
        all_exclusions(s, p),
        p(e),
    ensures
        starts_sorted(insert_by_start(s, e)),
        all_exclusions(insert_by_start(s, e), p),
    decreases s.len(),
{
    let r = insert_by_start(s, e);
    if s.len() == 0 {
        assert(r =~= seq![e]);
    } else if s.last().start <= e.start {
        assert forall|i: int, j: int| 0 <= i < j < r.len() implies (#[trigger] r[i]).start <= (
        #[trigger] r[j]).start by {
            assert(r[i] == s[i]);
            if j < s.len() {
                assert(r[j] == s[j]);
            } else if i < s.len() - 1 {
                assert(s[i].start <= s[s.len() - 1].start);
            }
        }
        assert forall|i: int| 0 <= i < r.len() implies p(#[trigger] r[i]) by {
            if i < s.len() {
                assert(r[i] == s[i]);
            }
        }
    } else {
        let d = s.drop_last();
        let m = s.last().start;
        assert(starts_sorted(d)) by {
            assert forall|i: int, j: int| 0 <= i < j < d.len() implies (#[trigger] d[i]).start <= (
            #[trigger] d[j]).start by {
                assert(d[i] == s[i] && d[j] == s[j]);
            }
        }
        assert(all_exclusions(d, p)) by {
            assert forall|i: int| 0 <= i < d.len() implies p(#[trigger] d[i]) by {
                assert(d[i] == s[i]);
            }
        }
        let pm = |x: Exclusion| p(x) && x.start <= m;
        assert(all_exclusions(d, pm)) by {
            assert forall|i: int| 0 <= i < d.len() implies pm(#[trigger] d[i]) by {
                assert(d[i] == s[i]);
                assert(s[i].start <= s[s.len() - 1].start);
            }
        }
        lemma_insert_by_start_sorted(d, e, pm);
        let q = insert_by_start(d, e);
        assert(r == q.push(s.last()));
        assert forall|i: int, j: int| 0 <= i < j < r.len() implies (#[trigger] r[i]).start <= (
        #[trigger] r[j]).start by {
            assert(r[i] == q[i]);
            assert(pm(q[i]));
            if j < q.len() {
                assert(r[j] == q[j]);
            }
        }
        assert forall|i: int| 0 <= i < r.len() implies p(#[trigger] r[i]) by {
            if i < q.len() {
                assert(r[i] == q[i]);
                assert(pm(q[i]));
            }
        }
    }
}

/// Sorting by start sorts, and keeps every property the elements share.
pub proof fn lemma_sort_by_start_sorted(s: Seq<Exclusion>, p: spec_fn(Exclusion) -> bool)
    requires
        all_exclusions(s, p),
    ensures
        starts_sorted(sort_by_start(s)),
        all_exclusions(sort_by_start(s), p),
    decreases s.len(),
{
    if s.len() > 0 {
        let d = s.drop_last();
        assert(all_exclusions(d, p)) by {
            assert forall|i: int| 0 <= i < d.len() implies p(#[trigger] d[i]) by {
                assert(d[i] == s[i]);
            }
        }
        lemma_sort_by_start_sorted(d, p);
        lemma_insert_by_start_sorted(sort_by_start(d), s.last(), p);
    }
}

/// The exclusions of a font whose `C2PA` table is record `ci`, whose store
/// lies at `start` with `length` bytes, and whose first `head` table is
/// record `hi` (`n` when there is none): the store, the `C2PA` directory
/// checksum, and `head.checkSumAdjustment` when the `head` table holds it.
pub open spec fn exclusion_list(d: Seq<u8>, n: int, ci: int, hi: int, start: int, length: int) -> Seq<Exclusion> {
    let base = seq![
        Exclusion { start: start as u64, length: length as u64 },
        Exclusion { start: (record_pos(ci) + 4) as u64, length: 4 },
    ];
    if hi < n && rec_length(d, hi) >= 12 {
        base.push(Exclusion { start: (rec_offset(d, hi) + 8) as u64, length: 4 })
    } else {
        base
    }
}

/// The byte ranges excluded from the font's hard binding, sorted by start, or
/// the kind of error computing them gives. Three regions change when a
/// reserved manifest is filled: the embedded Manifest Store, the `C2PA`
/// table's directory checksum, and `head.checkSumAdjustment`. The directory
/// must be locatable; the font must have a `C2PA` table (`NotFound`) holding
/// at least the 20-byte header, with a non-empty store inside the table
/// (`InvalidTable`).
#[verifier::opaque]
pub open spec fn exclusions_of(d: Seq<u8>) -> Result<Seq<Exclusion>, ErrorKind> {
    if !locatable(d) {
        Err(if d.len() < 12 { ErrorKind::NotSfnt } else { ErrorKind::InvalidFont })
    } else {
        let n = crate::sfnt::num_tables(d);
        let ci = first_record_from(d, n, c2pa_tag(), 0);
        if ci >= n {
            Err(ErrorKind::NotFound)
        } else if rec_length(d, ci) < 20 {
            Err(ErrorKind::InvalidTable)
        } else {
            let so = get_be32(d, rec_offset(d, ci) + 12) as int;
            let sl = get_be32(d, rec_offset(d, ci) + 16) as int;
            if so == 0 || sl == 0 {
                Err(ErrorKind::InvalidTable)
            } else if rec_offset(d, ci) + so + sl > rec_offset(d, ci) + rec_length(d, ci) {
                Err(ErrorKind::InvalidTable)
            } else {
                let hi = first_record_from(d, n, head_tag(), 0);
                Ok(sort_by_start(exclusion_list(d, n, ci, hi, rec_offset(d, ci) + so, sl)))
            }
        }
    }
}

/// The message of the error computing the exclusions of `d` gives: the
/// directory's (see [`directory_detail`]), none for a missing `C2PA` table,
/// then a short table, an absent store, and a store whose range overflows
/// the address space or passes the table's end.
pub open spec fn exclusions_detail(d: Seq<u8>) -> Seq<char> {
    let n = crate::sfnt::num_tables(d);
    let ci = first_record_from(d, n, c2pa_tag(), 0);
    let so = get_be32(d, rec_offset(d, ci) + 12) as int;
    let sl = get_be32(d, rec_offset(d, ci) + 16) as int;
    if !locatable(d) {
        if d.len() < 12 {
            Seq::empty()
        } else {
            directory_detail(d, "table extends past end of file"@)
        }
    } else if ci >= n {
        Seq::empty()
    } else if rec_length(d, ci) < 20 {
        "C2PA table shorter than header"@
    } else if so == 0 || sl == 0 {
        "no embedded manifest store to bind"@
    } else if rec_offset(d, ci) + so > usize::MAX {
        "store offset overflow"@
    } else if rec_offset(d, ci) + so + sl > usize::MAX {
        "store length overflow"@
    } else {
        "manifest store extends past C2PA table"@
    }
}

/// Index of the first location with `tag` at or after `i`.
fn find_loc(locs: &Vec<TableLoc>, tag: &[u8; 4], Ghost(d): Ghost<Seq<u8>>) -> (r: usize)
    requires
        locs@.len() == crate::sfnt::num_tables(d),
        forall|i: int| 0 <= i < locs@.len() ==> crate::sfnt::loc_matches(d, #[trigger] locs@[i], i),
    ensures
        r as int == first_record_from(d, locs@.len() as int, tag@, 0),
{
    let n = locs.len();
    let mut i: usize = 0;
    while i < n
        invariant
            n == locs@.len(),
            forall|i: int| 0 <= i < n ==> crate::sfnt::loc_matches(d, #[trigger] locs@[i], i),
            i <= n,
            first_record_from(d, n as int, tag@, 0) == first_record_from(d, n as int, tag@, i as int),
        decreases n - i,
    {
        assert(crate::sfnt::loc_matches(d, locs@[i as int], i as int));
        if tag_eq(&locs[i].tag, tag) {
            return i;
        }
        i = i + 1;
    }
    n
}

/// `insert_by_start` puts `e` at position `j` when the elements from `j` on
/// start later and the one before `j` does not.
proof fn lemma_insert_by_start_at(s: Seq<Exclusion>, e: Exclusion, j: int)
    requires
        0 <= j <= s.len(),
        forall|m: int| j <= m < s.len() ==> (#[trigger] s[m]).start > e.start,
        j > 0 ==> s[j - 1].start <= e.start,
    ensures
        insert_by_start(s, e) == s.insert(j, e),
    decreases s.len(),
{
    if s.len() == 0 {
        assert(s.insert(j, e) =~= seq![e]);
    } else if s.last().start <= e.start {
        assert(j == s.len());
        assert(s.insert(j, e) =~= s.push(e));
    } else {
        lemma_insert_by_start_at(s.drop_last(), e, j);
        assert(s.drop_last().insert(j, e).push(s.last()) =~= s.insert(j, e));
    }
}

/// The exclusions stably sorted by start.
pub(crate) fn sorted_by_start(v: Vec<Exclusion>) -> (r: Vec<Exclusion>)
    ensures
        r@ == sort_by_start(v@),
{
    let mut sorted: Vec<Exclusion> = Vec::new();
    let mut i: usize = 0;
    assert(v@.take(0) =~= Seq::<Exclusion>::empty());
    while i < v.len()
        invariant
            i <= v@.len(),
            sorted@ == sort_by_start(v@.take(i as int)),
        decreases v.len() - i,
    {
        let e = v[i];
        let mut j = sorted.len();
        while j > 0
            invariant
                j <= sorted.len(),
                forall|m: int| j <= m < sorted@.len() ==> (#[trigger] sorted@[m]).start > e.start,
            ensures
                j <= sorted.len(),
                forall|m: int| j <= m < sorted@.len() ==> (#[trigger] sorted@[m]).start > e.start,
                j > 0 ==> sorted@[j - 1].start <= e.start,
            decreases j,
        {
            if sorted[j - 1].start <= e.start {
                break;
            }
            j = j - 1;
        }
        proof {
            lemma_insert_by_start_at(sorted@, e, j as int);
            assert(v@.take(i + 1).drop_last() =~= v@.take(i as int));
        }
        sorted.insert(j, e);
        i = i + 1;
    }
    assert(v@.take(v.len() as int) =~= v@);
    sorted
}

/// The exclusion of the embedded Manifest Store of the font in `d`: the
/// range its `C2PA` table's header gives, offset by the table's start.
pub open spec fn store_exclusion(d: Seq<u8>) -> Exclusion {
    let n = crate::sfnt::num_tables(d);
    let ci = first_record_from(d, n, c2pa_tag(), 0);
    Exclusion {
        start: (rec_offset(d, ci) + get_be32(d, rec_offset(d, ci) + 12)) as u64,
        length: get_be32(d, rec_offset(d, ci) + 16) as u64,
    }
}

/// The exclusions of `font` before sorting, the store's first (see
/// [`exclusions_of`]).
pub(crate) fn listed_exclusions(font: &[u8]) -> (r: Result<Vec<Exclusion>, Error>)
    ensures
        match (r, exclusions_of(font@)) {
            (Ok(v), Ok(s)) => s == sort_by_start(v@) && v@.len() >= 1 && v@[0] == store_exclusion(font@),
            (Err(e), Err(k)) => e.kind() == k && e.detail() == exclusions_detail(font@),
            _ => false,
        },
{
    reveal(exclusions_of);
    let locs = locate_tables(font)?;
    let ghost d = font@;
    let ghost n = locs@.len() as int;
    proof {
        lemma_c2pa_tag();
        lemma_head_tag();
    }
    let ci = find_loc(&locs, &C2PA_TAG, Ghost(d));
    if ci >= locs.len() {
        return Err(Error::NotFound);
    }
    let c2pa = locs[ci];
    assert(crate::sfnt::loc_matches(d, c2pa, ci as int));
    assert(rec_offset(d, ci as int) + rec_length(d, ci as int) <= d.len());
    let _ = font.len();
    if c2pa.length < STORE_LENGTH_FIELD + 4 {
        return Err(Error::InvalidTable("C2PA table shorter than header".to_string()));
    }
    let store_offset = read_u32(font, c2pa.data_offset + STORE_OFFSET_FIELD) as usize;
    let store_length = read_u32(font, c2pa.data_offset + STORE_LENGTH_FIELD) as usize;
    if store_offset == 0 || store_length == 0 {
        return Err(Error::InvalidTable("no embedded manifest store to bind".to_string()));
    }
    let store_start = match c2pa.data_offset.checked_add(store_offset) {
        Some(v) => v,
        None => {
            return Err(Error::InvalidTable("store offset overflow".to_string()));
        },
    };
    let store_end = match store_start.checked_add(store_length) {
        Some(v) => v,
        None => {
            return Err(Error::InvalidTable("store length overflow".to_string()));
        },
    };
    if store_end > c2pa.data_offset + c2pa.length {
        return Err(Error::InvalidTable("manifest store extends past C2PA table".to_string()));
    }

    let mut exclusions: Vec<Exclusion> = Vec::new();
    exclusions.push(Exclusion { start: store_start as u64, length: store_length as u64 });
    exclusions.push(Exclusion { start: (c2pa.record_offset + 4) as u64, length: 4 });

    let hi = find_loc(&locs, &HEAD_TAG, Ghost(d));
    if hi < locs.len() {
        let head = locs[hi];
        assert(crate::sfnt::loc_matches(d, head, hi as int));
        assert(rec_offset(d, hi as int) + rec_length(d, hi as int) <= d.len());
        if head.length >= HEAD_CHECKSUM_ADJUSTMENT_OFFSET + 4 {
            exclusions.push(
                Exclusion {
                    start: (head.data_offset + HEAD_CHECKSUM_ADJUSTMENT_OFFSET) as u64,
                    length: 4,
                },
            );
        }
    }
    assert(exclusions@ =~= exclusion_list(d, n, ci as int, hi as int, store_start as int, store_length as int));
    Ok(exclusions)
}

/// Byte ranges excluded from the font's `c2pa.hash.data` hard binding, sorted
/// by start offset (see [`exclusions_of`]).
pub fn data_hash_exclusions(font: &[u8]) -> (r: Result<Vec<Exclusion>, Error>)
    ensures
        match (r, exclusions_of(font@)) {
            (Ok(v), Ok(s)) => v@ == s,
            (Err(e), Err(k)) => e.kind() == k && e.detail() == exclusions_detail(font@),
            _ => false,
        },
{
    let listed = listed_exclusions(font)?;
    Ok(sorted_by_start(listed))
}

} // verus!
