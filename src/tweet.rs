//! The post service: what is stored for a new post, what a deletion runs,
//! and how the rows of the `tweets` table become the feed, newest first.
use vstd::prelude::*;
use crate::ident::{is_uuid_v4_text, random_uuid_text};
use crate::sanitize::{escape_html, escaped};
use crate::timestamp::{decode, is_timestamp_text, Timestamp};

verus! {

/// A post as the feed shows it.
pub struct Tweet {
    pub id: String,
    pub date: Timestamp,
    pub message: String,
}

/// The body of a request that creates a post.
pub struct TweetPost {
    pub message: String,
}

/// A row of the table `tweets(id TEXT PRIMARY KEY, date TEXT, message TEXT)`.
pub struct StoredRow {
    pub id: String,
    pub date: String,
    pub message: String,
}

/// The envelope of a list: `{ "results": [...] }`.
pub struct Response<T> {
    pub results: Vec<T>,
}

/// The store could not be reached, or refused a statement.
#[derive(Clone, Copy, Debug, PartialEq, Eq, Structural)]
pub struct StorageError;

#[derive(Clone, Copy, Debug, PartialEq, Eq, Structural)]
pub enum ServiceError {
    /// A storage failure; nothing about the request was wrong.
    Storage,
    /// The row at this position of the result holds a date that is no
    /// timestamp text: the store is corrupt.
    CorruptTimestamp(usize),
    /// The system clock reads a year this service cannot store.
    ClockOutOfRange,
}

/// One parameterized statement on the `tweets` table. The parameters are
/// bound to the `?` places of `sql()`, never written into its text.
pub enum Statement {
    SelectAll,
    Insert(StoredRow),
    Delete(String),
}

/// The row contents: id, date text, message.
pub type RowView = (Seq<char>, Seq<char>, Seq<char>);

impl View for StoredRow {
    type V = RowView;

    open spec fn view(&self) -> RowView {
        (self.id@, self.date@, self.message@)
    }
}

pub const SELECT_SQL: &'static str = "SELECT id, date, message FROM tweets";

pub const INSERT_SQL: &'static str = "INSERT INTO tweets (id, date, message) VALUES (?, ?, ?)";

pub const DELETE_SQL: &'static str = "DELETE FROM tweets WHERE id = ?";

pub open spec fn has_id(table: Seq<RowView>, id: Seq<char>) -> bool {
    exists|i: int| 0 <= i < table.len() && (#[trigger] table[i]).0 == id
}

/// The table after an insert: the primary key refuses a second row with an
/// identifier already present, which leaves the table as it was.
pub open spec fn after_insert(table: Seq<RowView>, row: RowView) -> Seq<RowView> {
    if has_id(table, row.0) {
        table
    } else {
        table.push(row)
    }
}

/// The table after a delete: every row with that identifier is gone.
pub open spec fn after_delete(table: Seq<RowView>, id: Seq<char>) -> Seq<RowView> {
    table.filter(other_than(id))
}

/// Holds of the rows whose identifier is not `id`.
pub open spec fn other_than(id: Seq<char>) -> spec_fn(RowView) -> bool {
    |r: RowView| r.0 != id
}

pub open spec fn unique_ids(table: Seq<RowView>) -> bool {
    forall|i: int, j: int| 0 <= i < j < table.len() ==> (#[trigger] table[i]).0 != (#[trigger] table[j]).0
}

impl Statement {
    /// What the table holds after the statement has run on `table`.
    pub open spec fn effect(&self, table: Seq<RowView>) -> Seq<RowView> {
        match self {
            Statement::SelectAll => table,
            Statement::Insert(row) => after_insert(table, row@),
            Statement::Delete(id) => after_delete(table, id@),
        }
    }

    /// The statement text; its `?` places take `params()` in order.
    pub fn sql(&self) -> (r: &'static str)
        ensures
            r@ == match self {
                Statement::SelectAll => SELECT_SQL@,
                Statement::Insert(_) => INSERT_SQL@,
                Statement::Delete(_) => DELETE_SQL@,
            },
    {
        match self {
            Statement::SelectAll => SELECT_SQL,
            Statement::Insert(_) => INSERT_SQL,
            Statement::Delete(_) => DELETE_SQL,
        }
    }

    /// The values bound to the statement, in the order of its `?` places.
    pub fn params(&self) -> (r: Vec<String>)
        ensures
            r@.len() == match self {
                Statement::SelectAll => 0nat,
                Statement::Insert(_) => 3nat,
                Statement::Delete(_) => 1nat,
            },
            match self {
                Statement::SelectAll => true,
                Statement::Insert(row) => r@[0]@ == row.id@ && r@[1]@ == row.date@ && r@[2]@
                    == row.message@,
                Statement::Delete(id) => r@[0]@ == id@,
            },
    {
        match self {
            Statement::SelectAll => Vec::new(),
            Statement::Insert(row) => {
                let mut v = Vec::new();
                v.push(row.id.clone());
                v.push(row.date.clone());
                v.push(row.message.clone());
                v
            },
            Statement::Delete(id) => {
                let mut v = Vec::new();
                v.push(id.clone());
                v
            },
        }
    }
}

/// `t` shows the stored row `row`.
pub open spec fn shows_row(t: Tweet, row: RowView) -> bool {
    &&& t.id@ == row.0
    &&& t.date.is_read_from(row.1)
    &&& t.message@ == row.2
}

/// Index `k` stands at some position of `p`.
pub open spec fn covers(p: Seq<int>, k: int) -> bool {
    exists|j: int| 0 <= j < p.len() && p[j] == k
}

/// `p` orders `0..n` anew: each position gets a distinct index below `n`,
/// and each index below `n` gets a position.
pub open spec fn is_permutation(p: Seq<int>, n: int) -> bool {
    &&& p.len() == n
    &&& forall|i: int| 0 <= i < n ==> 0 <= #[trigger] p[i] < n
    &&& forall|i: int, j: int| 0 <= i < j < n ==> #[trigger] p[i] != #[trigger] p[j]
    &&& forall|k: int| 0 <= k < n ==> #[trigger] covers(p, k)
}

pub open spec fn newest_first(ts: Seq<Tweet>) -> bool {
    forall|i: int, j: int| 0 <= i < j < ts.len() ==> (#[trigger] ts[i]).date.key() >= (
    #[trigger] ts[j]).date.key()
}

/// `feed` shows each row of `rows` once, newest first.
pub open spec fn is_feed_of(feed: Seq<Tweet>, rows: Seq<RowView>) -> bool {
    &&& exists|p: Seq<int>|
        {
            &&& is_permutation(p, rows.len() as int)
            &&& forall|i: int| 0 <= i < rows.len() ==> shows_row(#[trigger] feed[i], rows[p[i]])
        }
    &&& feed.len() == rows.len()
    &&& newest_first(feed)
}

pub open spec fn rows_view(rows: Seq<StoredRow>) -> Seq<RowView> {
    rows.map_values(|r: StoredRow| r@)
}

/// The post that a stored row holds, if its date is timestamp text.
pub fn tweet_from_row(row: &StoredRow) -> (r: Option<Tweet>)
    ensures
        match r {
            Some(t) => shows_row(t, row@),
            None => !is_timestamp_text(row.date@),
        },
{
    match decode(row.date.as_str()) {
        Some(date) => Some(Tweet { id: row.id.clone(), date, message: row.message.clone() }),
        None => None,
    }
}

proof fn lemma_insert_newest_first(s: Seq<Tweet>, pos: int, t: Tweet)
    requires
        newest_first(s),
        0 <= pos <= s.len(),
        forall|j: int| 0 <= j < pos ==> (#[trigger] s[j]).date.key() >= t.date.key(),
        forall|j: int| pos <= j < s.len() ==> (#[trigger] s[j]).date.key() < t.date.key(),
    ensures
        newest_first(s.insert(pos, t)),
{
    let n = s.insert(pos, t);
    assert forall|a: int, b: int| 0 <= a < b < n.len() implies (#[trigger] n[a]).date.key() >= (
    #[trigger] n[b]).date.key() by {
        if b < pos {
            assert(n[a] == s[a] && n[b] == s[b]);
        } else if b == pos {
            assert(n[a] == s[a]);
        } else if a < pos {
            assert(n[a] == s[a] && n[b] == s[b - 1]);
        } else if a == pos {
            assert(n[b] == s[b - 1]);
        } else {
            assert(n[a] == s[a - 1] && n[b] == s[b - 1]);
        }
    }
}

proof fn lemma_insert_index(p: Seq<int>, pos: int, i: int)
    requires
        is_permutation(p, i),
        0 <= pos <= i,
    ensures
        is_permutation(p.insert(pos, i), i + 1),
{
    let q = p.insert(pos, i);
    assert forall|j: int| 0 <= j < i + 1 implies 0 <= #[trigger] q[j] < i + 1 by {
        if j < pos {
            assert(q[j] == p[j]);
        } else if j > pos {
            assert(q[j] == p[j - 1]);
        }
    }
    assert forall|k: int| 0 <= k < i + 1 implies #[trigger] covers(q, k) by {
        if k == i {
            assert(q[pos] == i);
        } else {
            assert(covers(p, k));
            let j = choose|j: int| 0 <= j < p.len() && p[j] == k;
            if j < pos {
                assert(q[j] == k);
            } else {
                assert(q[j + 1] == k);
            }
        }
    }
    assert forall|a: int, b: int| 0 <= a < b < i + 1 implies #[trigger] q[a] != #[trigger] q[b] by {
        if b < pos {
            assert(q[a] == p[a] && q[b] == p[b]);
        } else if b == pos {
            assert(q[a] == p[a]);
        } else if a < pos {
            assert(q[a] == p[a] && q[b] == p[b - 1]);
        } else if a == pos {
            assert(q[b] == p[b - 1]);
        } else {
            assert(q[a] == p[a - 1] && q[b] == p[b - 1]);
        }
    }
}

/// The feed of the rows that a `SelectAll` returned: each row as a post,
/// newest first. A row whose date is no timestamp text fails the whole list,
/// naming the first such row.
#[verifier::loop_isolation(false)]
pub fn get_tweet(rows: &Vec<StoredRow>) -> (r: Result<Response<Tweet>, ServiceError>)
    ensures
        match r {
            Ok(feed) => {
                &&& forall|k: int| 0 <= k < rows.len() ==> is_timestamp_text(#[trigger] rows@[k].date@)
                &&& is_feed_of(feed.results@, rows_view(rows@))
            },
            Err(ServiceError::CorruptTimestamp(k)) => {
                &&& k < rows.len()
                &&& !is_timestamp_text(rows@[k as int].date@)
                &&& forall|j: int| 0 <= j < k ==> is_timestamp_text(#[trigger] rows@[j].date@)
            },
            Err(_) => false,
        },
{
    let ghost rv = rows_view(rows@);
    let mut out: Vec<Tweet> = Vec::new();
    let ghost mut p: Seq<int> = Seq::empty();
    let mut i: usize = 0;
    while i < rows.len()
        invariant
            i <= rows.len(),
            rv == rows_view(rows@),
            out@.len() == i,
            is_permutation(p, i as int),
            forall|j: int| 0 <= j < i ==> shows_row(#[trigger] out@[j], rv[p[j]]),
            newest_first(out@),
            forall|k: int| 0 <= k < i ==> is_timestamp_text(#[trigger] rows@[k].date@),
        decreases rows.len() - i,
    {
        let t = match tweet_from_row(&rows[i]) {
            Some(t) => t,
            None => {
                return Err(ServiceError::CorruptTimestamp(i));
            },
        };
        proof {
            assert(rv[i as int] == rows@[i as int]@);
            assert(is_timestamp_text(rows@[i as int].date@));
        }
        let key = t.date.sort_key();
        let mut pos: usize = 0;
        while pos < out.len() && out[pos].date.sort_key() >= key
            invariant
                pos <= out@.len(),
                forall|j: int| 0 <= j < pos ==> (#[trigger] out@[j]).date.key() >= key,
            decreases out@.len() - pos,
        {
            proof {
                assert(shows_row(out@[pos as int], rv[p[pos as int]]));
            }
            pos = pos + 1;
        }
        proof {
            assert forall|j: int| pos <= j < out@.len() implies (#[trigger] out@[j]).date.key()
                < key by {
                assert(out@[pos as int].date.key() >= out@[j].date.key());
            }
        }
        let ghost old_out = out@;
        let ghost old_p = p;
        out.insert(pos, t);
        proof {
            p = p.insert(pos as int, i as int);
            lemma_insert_newest_first(old_out, pos as int, t);
            lemma_insert_index(old_p, pos as int, i as int);
            assert forall|j: int| 0 <= j < i + 1 implies shows_row(#[trigger] out@[j], rv[p[j]]) by {
                if j < pos {
                    assert(out@[j] == old_out[j] && p[j] == old_p[j]);
                } else if j > pos {
                    assert(out@[j] == old_out[j - 1] && p[j] == old_p[j - 1]);
                }
            }
        }
        i = i + 1;
    }
    proof {
        assert(rv.len() == rows@.len());
        assert(forall|j: int| 0 <= j < rows@.len() ==> shows_row(#[trigger] out@[j], rv[p[j]]));
    }
    Ok(Response { results: out })
}

/// The row stored for a new post: the given identifier, the text of `now`,
/// and the message escaped.
pub fn row_for(post: &TweetPost, id: String, now: Timestamp) -> (r: StoredRow)
    requires
        now.wf(),
    ensures
        r.id@ == id@,
        r.date@ == now.text(9),
        r.message@ == escaped(post.message@),
{
    StoredRow { id, date: now.encode(), message: escape_html(post.message.as_str()) }
}

/// The insert that creates a post with identifier `id` at the clock reading
/// `clock`: the row of `row_for`, or `ClockOutOfRange` when there is no
/// reading.
pub fn add_tweet_at(post: &TweetPost, id: String, clock: Option<Timestamp>) -> (r: Result<
    Statement,
    ServiceError,
>)
    requires
        clock matches Some(t) ==> t.wf(),
    ensures
        match clock {
            None => r == Err::<Statement, ServiceError>(ServiceError::ClockOutOfRange),
            Some(t) => r matches Ok(Statement::Insert(row)) && row.id@ == id@ && row.date@ == t.text(
                9,
            ) && row.message@ == escaped(post.message@),
        },
{
    match clock {
        Some(now) => Ok(Statement::Insert(row_for(post, id, now))),
        None => Err(ServiceError::ClockOutOfRange),
    }
}

/// The insert that creates a post: a fresh random identifier, the current
/// time, the message escaped. Fails only when the clock gives no time this
/// service can store (see `Timestamp::now`).
pub fn add_tweet(post: &TweetPost) -> (r: Result<Statement, ServiceError>)
    ensures
        match r {
            Ok(Statement::Insert(row)) => {
                &&& is_uuid_v4_text(row.id@)
                &&& exists|t: Timestamp| t.wf() && row.date@ == t.text(9)
                &&& row.message@ == escaped(post.message@)
            },
            Ok(_) => false,
            Err(e) => e == ServiceError::ClockOutOfRange,
        },
{
    let id = random_uuid_text();
    add_tweet_at(post, id, Timestamp::now())
}

/// The delete of the post with identifier `id`, taken as it is.
pub fn delete_tweet(id: &str) -> (r: Statement)
    ensures
        r matches Statement::Delete(d) && d@ == id@,
{
    Statement::Delete(id.to_string())
}

/// The read of every stored post.
pub fn list_tweets() -> (r: Statement)
    ensures
        r matches Statement::SelectAll,
{
    Statement::SelectAll
}


/// What a request comes to, once the store has answered.
pub enum Reply {
    /// The feed (200).
    Listed(Response<Tweet>),
    /// A post was stored (201).
    Created,
    /// The delete ran; whether a row was there makes no difference (200).
    Deleted,
    /// The request failed on the server's side (500); the cause is kept for
    /// the server's log and never shown to the client.
    Failed(ServiceError),
}

impl Reply {
    /// The HTTP status of the reply.
    pub fn status(&self) -> (r: u16)
        ensures
            r == match self {
                Reply::Listed(_) => 200u16,
                Reply::Created => 201u16,
                Reply::Deleted => 200u16,
                Reply::Failed(_) => 500u16,
            },
    {
        match self {
            Reply::Listed(_) => 200,
            Reply::Created => 201,
            Reply::Deleted => 200,
            Reply::Failed(_) => 500,
        }
    }
}

/// The reply to a list, from what the `SelectAll` returned.
pub fn list_reply(fetched: Result<Vec<StoredRow>, StorageError>) -> (r: Reply)
    ensures
        match fetched {
            Err(_) => r == Reply::Failed(ServiceError::Storage),
            Ok(rows) => match r {
                Reply::Listed(feed) => {
                    &&& forall|k: int| 0 <= k < rows.len() ==> is_timestamp_text(#[trigger] rows@[k].date@)
                    &&& is_feed_of(feed.results@, rows_view(rows@))
                },
                Reply::Failed(ServiceError::CorruptTimestamp(k)) => {
                    &&& k < rows.len()
                    &&& !is_timestamp_text(rows@[k as int].date@)
                    &&& forall|j: int| 0 <= j < k ==> is_timestamp_text(#[trigger] rows@[j].date@)
                },
                _ => false,
            },
        },
{
    match fetched {
        Err(_) => Reply::Failed(ServiceError::Storage),
        Ok(rows) => match get_tweet(&rows) {
            Ok(feed) => Reply::Listed(feed),
            Err(e) => Reply::Failed(e),
        },
    }
}

/// The reply to a create, from what the insert returned.
pub fn create_reply(written: Result<u64, StorageError>) -> (r: Reply)
    ensures
        match written {
            Ok(_) => r == Reply::Created,
            Err(_) => r == Reply::Failed(ServiceError::Storage),
        },
{
    match written {
        Ok(_) => Reply::Created,
        Err(_) => Reply::Failed(ServiceError::Storage),
    }
}

/// The reply to a delete, from what the delete returned: any number of rows
/// removed, none included, is a success.
pub fn delete_reply(written: Result<u64, StorageError>) -> (r: Reply)
    ensures
        match written {
            Ok(_) => r == Reply::Deleted,
            Err(_) => r == Reply::Failed(ServiceError::Storage),
        },
{
    match written {
        Ok(_) => Reply::Deleted,
        Err(_) => Reply::Failed(ServiceError::Storage),
    }
}

} // verus!
