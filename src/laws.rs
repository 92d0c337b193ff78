//! Properties of the service that hold across its operations.
use vstd::prelude::*;
use crate::sanitize::{escaped, is_inert, lemma_escaped_is_inert};
use crate::tweet::{
    after_delete, after_insert, covers, other_than, has_id, is_feed_of, is_permutation, shows_row, unique_ids,
    RowView, Tweet,
};
use crate::timestamp::Timestamp;

verus! {

proof fn lemma_filter_keeps_all(s: Seq<RowView>, id: Seq<char>)
    requires
        forall|i: int| 0 <= i < s.len() ==> (#[trigger] s[i]).0 != id,
    ensures
        after_delete(s, id) == s,
    decreases s.len(),
{
    reveal(Seq::filter);
    if s.len() > 0 {
        let p = s.drop_last();
        assert forall|i: int| 0 <= i < p.len() implies (#[trigger] p[i]).0 != id by {
            assert(p[i] == s[i]);
        }
        lemma_filter_keeps_all(p, id);
        assert(s.last() == s[s.len() - 1]);
        assert(s =~= p.push(s.last()));
    }
}

/// A message comes back from the store inert: the row that a create stores
/// holds the escaped message, and the post listed from that row shows it, so
/// it holds no character that could open markup.
pub proof fn lemma_listed_message_is_inert(message: Seq<char>, row: RowView, t: Tweet)
    requires
        row.2 == escaped(message),
        shows_row(t, row),
    ensures
        is_inert(t.message@),
{
    lemma_escaped_is_inert(message);
}

/// Posts whose stored dates read as distinct times are listed in strictly
/// decreasing order of time.
pub proof fn lemma_distinct_times_strictly_newest_first(feed: Seq<Tweet>, rows: Seq<RowView>)
    requires
        is_feed_of(feed, rows),
        forall|i: int, j: int, a: Timestamp, b: Timestamp|
            0 <= i < rows.len() && 0 <= j < rows.len() && i != j && #[trigger] a.is_read_from(
                rows[i].1,
            ) && #[trigger] b.is_read_from(rows[j].1) ==> a.key() != b.key(),
    ensures
        forall|i: int, j: int|
            0 <= i < j < feed.len() ==> (#[trigger] feed[i]).date.key() > (
            #[trigger] feed[j]).date.key(),
{
    let p = choose|p: Seq<int>|
        {
            &&& is_permutation(p, rows.len() as int)
            &&& forall|i: int| 0 <= i < rows.len() ==> shows_row(#[trigger] feed[i], rows[p[i]])
        };
    assert forall|i: int, j: int| 0 <= i < j < feed.len() implies (#[trigger] feed[i]).date.key()
        > (#[trigger] feed[j]).date.key() by {
        assert(shows_row(feed[i], rows[p[i]]));
        assert(shows_row(feed[j], rows[p[j]]));
        assert(p[i] != p[j]);
        assert(feed[i].date.key() >= feed[j].date.key());
        assert(feed[i].date.key() != feed[j].date.key());
    }
}

/// Deleting is idempotent: deleting an identifier that no row holds leaves
/// the table as it is, and a second delete of one identifier changes nothing.
pub proof fn lemma_delete_idempotent(table: Seq<RowView>, id: Seq<char>)
    ensures
        !has_id(table, id) ==> after_delete(table, id) == table,
        after_delete(after_delete(table, id), id) == after_delete(table, id),
{
    if !has_id(table, id) {
        assert forall|i: int| 0 <= i < table.len() implies (#[trigger] table[i]).0 != id by {
            if table[i].0 == id {
                assert(has_id(table, id));
            }
        }
        lemma_filter_keeps_all(table, id);
    }
    let once = after_delete(table, id);
    assert forall|i: int| 0 <= i < once.len() implies (#[trigger] once[i]).0 != id by {
        table.lemma_filter_pred(other_than(id), i);
    }
    lemma_filter_keeps_all(once, id);
}

/// An insert with a fresh identifier adds its row, message as given, and
/// keeps every row that was there, in place.
pub proof fn lemma_insert_keeps_rows(table: Seq<RowView>, row: RowView)
    requires
        !has_id(table, row.0),
    ensures
        after_insert(table, row).len() == table.len() + 1,
        after_insert(table, row).last() == row,
        forall|i: int| 0 <= i < table.len() ==> #[trigger] after_insert(table, row)[i] == table[i],
{
}

/// An insert whose identifier is already taken is refused by the primary
/// key: the table stays as it was, no row lost.
pub proof fn lemma_insert_of_taken_id_changes_nothing(table: Seq<RowView>, row: RowView)
    requires
        has_id(table, row.0),
    ensures
        after_insert(table, row) == table,
{
}

/// No insert makes two rows share an identifier.
pub proof fn lemma_insert_keeps_ids_unique(table: Seq<RowView>, row: RowView)
    requires
        unique_ids(table),
    ensures
        unique_ids(after_insert(table, row)),
{
    if !has_id(table, row.0) {
        let n = table.push(row);
        assert forall|i: int, j: int| 0 <= i < j < n.len() implies (#[trigger] n[i]).0 != (
        #[trigger] n[j]).0 by {
            if j == table.len() {
                assert(n[i] == table[i]);
                if table[i].0 == row.0 {
                    assert(has_id(table, row.0));
                }
            } else {
                assert(n[i] == table[i] && n[j] == table[j]);
            }
        }
    }
}

/// Every stored row appears in the feed, shown as it is stored.
pub proof fn lemma_every_row_listed(feed: Seq<Tweet>, rows: Seq<RowView>, k: int)
    requires
        is_feed_of(feed, rows),
        0 <= k < rows.len(),
    ensures
        exists|i: int| 0 <= i < feed.len() && shows_row(#[trigger] feed[i], rows[k]),
{
    let p = choose|p: Seq<int>|
        {
            &&& is_permutation(p, rows.len() as int)
            &&& forall|i: int| 0 <= i < rows.len() ==> shows_row(#[trigger] feed[i], rows[p[i]])
        };
    assert(covers(p, k));
    let i = choose|i: int| 0 <= i < p.len() && p[i] == k;
    assert(shows_row(feed[i], rows[p[i]]));
}

/// The table after the inserts of `rows`, in order.
pub open spec fn after_inserts(table: Seq<RowView>, rows: Seq<RowView>) -> Seq<RowView>
    decreases rows.len(),
{
    if rows.len() == 0 {
        table
    } else {
        after_insert(after_inserts(table, rows.drop_last()), rows.last())
    }
}

/// Inserts whose identifiers differ from each other and from those stored
/// all succeed: the table gains exactly those rows, keeps the old ones, and
/// its identifiers stay distinct.
pub proof fn lemma_fresh_inserts_all_land(table: Seq<RowView>, rows: Seq<RowView>)
    requires
        unique_ids(table),
        unique_ids(rows),
        forall|i: int| 0 <= i < rows.len() ==> !has_id(table, (#[trigger] rows[i]).0),
    ensures
        after_inserts(table, rows) == table + rows,
        unique_ids(after_inserts(table, rows)),
    decreases rows.len(),
{
    if rows.len() == 0 {
        assert(table + rows =~= table);
    } else {
        let init = rows.drop_last();
        let last = rows.last();
        assert forall|i: int, j: int| 0 <= i < j < init.len() implies (#[trigger] init[i]).0 != (
        #[trigger] init[j]).0 by {
            assert(init[i] == rows[i] && init[j] == rows[j]);
        }
        assert forall|i: int| 0 <= i < init.len() implies !has_id(table, (#[trigger] init[i]).0) by {
            assert(init[i] == rows[i]);
        }
        lemma_fresh_inserts_all_land(table, init);
        let mid = table + init;
        assert(!has_id(table, rows[rows.len() - 1].0));
        if has_id(mid, last.0) {
            let k = choose|k: int| 0 <= k < mid.len() && (#[trigger] mid[k]).0 == last.0;
            if k < table.len() {
                assert(mid[k] == table[k]);
                assert(has_id(table, last.0));
            } else {
                assert(mid[k] == rows[k - table.len()]);
            }
        }
        assert(mid.push(last) =~= table + rows);
        lemma_insert_keeps_ids_unique(mid, last);
    }
}

} // verus!
