//! Properties of sorting tables by tag.
use vstd::prelude::*;
use crate::bytes::{get_be32, lemma_be32_bytes_of_get};
use crate::sfnt::{insert_sorted, sort_tables, tag_count, tag_key, without_tag, TableModel};

verus! {

/// The tables are in non-decreasing tag order.
pub open spec fn sorted_by_tag(s: Seq<TableModel>) -> bool {
    forall|i: int, j: int| 0 <= i < j < s.len() ==> tag_key(#[trigger] s[i].tag) <= tag_key(#[trigger] s[j].tag)
}

/// Every table satisfies `p`.
pub open spec fn all_tables(s: Seq<TableModel>, p: spec_fn(TableModel) -> bool) -> bool {
    forall|i: int| 0 <= i < s.len() ==> p(#[trigger] s[i])
}

/// Inserting keeps the elements' property and adds one element.
proof fn lemma_insert_sorted_props(s: Seq<TableModel>, t: TableModel, p: spec_fn(TableModel) -> bool)
    requires
        all_tables(s, p),
        p(t),
    ensures
        all_tables(insert_sorted(s, t), p),
        insert_sorted(s, t).len() == s.len() + 1,
    decreases s.len(),
{
    if s.len() > 0 && tag_key(s.last().tag) > tag_key(t.tag) {
        lemma_insert_sorted_props(s.drop_last(), t, p);
        let r = insert_sorted(s.drop_last(), t);
        assert forall|i: int| 0 <= i < r.push(s.last()).len() implies p(#[trigger] r.push(s.last())[i]) by {
            if i < r.len() {
                assert(r.push(s.last())[i] == r[i]);
            }
        }
    }
}

/// Sorting keeps every property the tables share, and the length.
pub proof fn lemma_sort_props(s: Seq<TableModel>, p: spec_fn(TableModel) -> bool)
    requires
        all_tables(s, p),
    ensures
        all_tables(sort_tables(s), p),
        sort_tables(s).len() == s.len(),
    decreases s.len(),
{
    if s.len() > 0 {
        lemma_sort_props(s.drop_last(), p);
        lemma_insert_sorted_props(sort_tables(s.drop_last()), s.last(), p);
    }
}

/// Inserting into sorted tables keeps them sorted.
proof fn lemma_insert_sorted_sorted(s: Seq<TableModel>, t: TableModel)
    requires
        sorted_by_tag(s),
    ensures
        sorted_by_tag(insert_sorted(s, t)),
    decreases s.len(),
{
    if s.len() > 0 && tag_key(s.last().tag) > tag_key(t.tag) {
        let d = s.drop_last();
        lemma_insert_sorted_sorted(d, t);
        let r = insert_sorted(d, t);
        let m = tag_key(s.last().tag);
        lemma_insert_sorted_props(d, t, |x: TableModel| tag_key(x.tag) <= m);
        assert(all_tables(r, |x: TableModel| tag_key(x.tag) <= m));
        let q = r.push(s.last());
        assert forall|i: int, j: int| 0 <= i < j < q.len() implies tag_key(#[trigger] q[i].tag) <= tag_key(
            #[trigger] q[j].tag,
        ) by {
            if j < r.len() {
                assert(q[i] == r[i] && q[j] == r[j]);
            } else {
                assert(q[i] == r[i]);
                assert((|x: TableModel| tag_key(x.tag) <= m)(r[i]));
            }
        }
    }
}

/// Inserting keeps every table and adds `t`.
proof fn lemma_insert_sorted_contains(s: Seq<TableModel>, t: TableModel)
    ensures
        insert_sorted(s, t).contains(t),
        forall|y: TableModel| s.contains(y) ==> #[trigger] insert_sorted(s, t).contains(y),
    decreases s.len(),
{
    let r = insert_sorted(s, t);
    if s.len() == 0 {
        assert(r[0] == t);
    } else if tag_key(s.last().tag) <= tag_key(t.tag) {
        assert(r[s.len() as int] == t);
        assert forall|y: TableModel| s.contains(y) implies #[trigger] r.contains(y) by {
            let k = choose|k: int| 0 <= k < s.len() && s[k] == y;
            assert(r[k] == y);
        }
    } else {
        let d = s.drop_last();
        lemma_insert_sorted_contains(d, t);
        let q = insert_sorted(d, t);
        assert(r == q.push(s.last()));
        let k = choose|k: int| 0 <= k < q.len() && q[k] == t;
        assert(r[k] == t);
        assert forall|y: TableModel| s.contains(y) implies #[trigger] r.contains(y) by {
            let k = choose|k: int| 0 <= k < s.len() && s[k] == y;
            if k == s.len() - 1 {
                assert(r[q.len() as int] == y);
            } else {
                assert(d[k] == y);
                assert(d.contains(y));
                assert(q.contains(y));
                let m = choose|m: int| 0 <= m < q.len() && q[m] == y;
                assert(r[m] == y);
            }
        }
    }
}

/// Sorting keeps every table.
pub proof fn lemma_sort_contains(s: Seq<TableModel>)
    ensures
        forall|y: TableModel| s.contains(y) ==> #[trigger] sort_tables(s).contains(y),
    decreases s.len(),
{
    if s.len() > 0 {
        let d = s.drop_last();
        lemma_sort_contains(d);
        lemma_insert_sorted_contains(sort_tables(d), s.last());
        assert forall|y: TableModel| s.contains(y) implies #[trigger] sort_tables(s).contains(y) by {
            let k = choose|k: int| 0 <= k < s.len() && s[k] == y;
            if k < s.len() - 1 {
                assert(d[k] == y);
                assert(d.contains(y));
                assert(sort_tables(d).contains(y));
            }
        }
    }
}

/// Removing a tag keeps every table of another tag.
pub proof fn lemma_without_tag_contains(s: Seq<TableModel>, tag: Seq<u8>, x: TableModel)
    requires
        s.contains(x),
        x.tag != tag,
    ensures
        without_tag(s, tag).contains(x),
    decreases s.len(),
{
    let d = s.drop_last();
    let r = without_tag(d, tag);
    let k = choose|k: int| 0 <= k < s.len() && s[k] == x;
    if k == s.len() - 1 {
        assert(r.push(s.last())[r.len() as int] == x);
    } else {
        assert(d[k] == x);
        lemma_without_tag_contains(d, tag, x);
        let m = choose|m: int| 0 <= m < r.len() && r[m] == x;
        if s.last().tag != tag {
            assert(r.push(s.last())[m] == x);
        }
    }
}

/// Sorted tables are sorted by tag.
pub proof fn lemma_sort_sorted(s: Seq<TableModel>)
    ensures
        sorted_by_tag(sort_tables(s)),
    decreases s.len(),
{
    if s.len() > 0 {
        lemma_sort_sorted(s.drop_last());
        lemma_insert_sorted_sorted(sort_tables(s.drop_last()), s.last());
    }
}

/// Inserting adds the new table to the count of its tag.
proof fn lemma_insert_sorted_count(s: Seq<TableModel>, t: TableModel, tag: Seq<u8>)
    ensures
        tag_count(insert_sorted(s, t), tag) == tag_count(s, tag) + if t.tag == tag { 1nat } else { 0 },
    decreases s.len(),
{
    if s.len() == 0 {
        assert(seq![t].drop_last() =~= Seq::<TableModel>::empty());
        assert(seq![t].last() == t);
        assert(tag_count(Seq::<TableModel>::empty(), tag) == 0);
        assert(tag_count(s, tag) == 0);
        assert(tag_count(seq![t], tag) == if t.tag == tag { 1nat } else { 0 });
    } else if tag_key(s.last().tag) <= tag_key(t.tag) {
        lemma_count_push(s, t, tag);
    } else {
        lemma_insert_sorted_count(s.drop_last(), t, tag);
        let r = insert_sorted(s.drop_last(), t);
        lemma_count_push(r, s.last(), tag);
        assert(insert_sorted(s, t) == r.push(s.last()));
        assert(tag_count(s, tag) == tag_count(s.drop_last(), tag) + if s.last().tag == tag { 1nat } else { 0 });
    }
}

/// Sorting keeps the number of tables with each tag.
pub proof fn lemma_sort_count(s: Seq<TableModel>, tag: Seq<u8>)
    ensures
        tag_count(sort_tables(s), tag) == tag_count(s, tag),
    decreases s.len(),
{
    if s.len() > 0 {
        lemma_sort_count(s.drop_last(), tag);
        lemma_insert_sorted_count(sort_tables(s.drop_last()), s.last(), tag);
    }
}

/// Sorting sorted tables changes nothing.
pub proof fn lemma_sort_sorted_identity(s: Seq<TableModel>)
    requires
        sorted_by_tag(s),
    ensures
        sort_tables(s) == s,
    decreases s.len(),
{
    if s.len() > 0 {
        let d = s.drop_last();
        assert(sorted_by_tag(d)) by {
            assert forall|i: int, j: int| 0 <= i < j < d.len() implies tag_key(#[trigger] d[i].tag) <= tag_key(
                #[trigger] d[j].tag,
            ) by {
                assert(d[i] == s[i] && d[j] == s[j]);
            }
        }
        lemma_sort_sorted_identity(d);
        if d.len() > 0 {
            assert(d.last() == s[s.len() - 2]);
        }
        assert(d.push(s.last()) =~= s);
    }
}

/// Tables with a tag are counted: two different indices with the tag make
/// a count of at least two, one makes at least one.
pub proof fn lemma_count_pos(s: Seq<TableModel>, tag: Seq<u8>, i: int, j: int)
    requires
        0 <= i < s.len(),
        0 <= j < s.len(),
        s[i].tag == tag,
        s[j].tag == tag,
    ensures
        tag_count(s, tag) >= 1,
        i != j ==> tag_count(s, tag) >= 2,
    decreases s.len(),
{
    let d = s.drop_last();
    let l = s.len() - 1;
    if i < l && j < l {
        lemma_count_pos(d, tag, i, j);
    } else if i < l {
        lemma_count_pos(d, tag, i, i);
    } else if j < l {
        lemma_count_pos(d, tag, j, j);
    }
}

/// Without any table of `tag`, none is left; tables of other tags keep
/// their count.
pub proof fn lemma_without_tag_count(s: Seq<TableModel>, tag: Seq<u8>, other: Seq<u8>)
    ensures
        tag_count(without_tag(s, tag), other) == if other == tag { 0 } else { tag_count(s, other) },
    decreases s.len(),
{
    if s.len() > 0 {
        lemma_without_tag_count(s.drop_last(), tag, other);
        let r = without_tag(s.drop_last(), tag);
        if s.last().tag != tag {
            assert(r.push(s.last()).drop_last() =~= r);
        }
    }
}

/// The count of a tag after appending a table.
pub proof fn lemma_count_push(s: Seq<TableModel>, t: TableModel, tag: Seq<u8>)
    ensures
        tag_count(s.push(t), tag) == tag_count(s, tag) + if t.tag == tag { 1nat } else { 0 },
{
    assert(s.push(t).drop_last() =~= s);
}

/// Four-byte tags with equal keys are equal.
pub proof fn lemma_tag_key_injective(a: Seq<u8>, b: Seq<u8>)
    requires
        a.len() == 4,
        b.len() == 4,
        tag_key(a) == tag_key(b),
    ensures
        a == b,
{
    lemma_be32_bytes_of_get(a, 0);
    lemma_be32_bytes_of_get(b, 0);
    assert(a =~= a.subrange(0, 4));
    assert(b =~= b.subrange(0, 4));
}

/// In sorted tables, a table with a smaller key comes first.
pub proof fn lemma_sorted_before(s: Seq<TableModel>, i: int, j: int)
    requires
        sorted_by_tag(s),
        0 <= i < s.len(),
        0 <= j < s.len(),
        tag_key(s[i].tag) < tag_key(s[j].tag),
    ensures
        i < j,
{
    if j <= i {
        if j < i {
            assert(tag_key(s[j].tag) <= tag_key(s[i].tag));
        }
    }
}

} // verus!
