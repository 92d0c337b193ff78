use tweet_service::timestamp::{decode, Timestamp};
use tweet_service::tweet::{
    add_tweet, add_tweet_at, create_reply, delete_reply, delete_tweet, get_tweet, list_reply, list_tweets,
    row_for, tweet_from_row, Reply, ServiceError, Statement, StorageError, StoredRow, TweetPost,
    DELETE_SQL, INSERT_SQL, SELECT_SQL,
};

fn ts(year: u16, month: u8, day: u8, hour: u8, minute: u8, second: u8, nanosecond: u32) -> Timestamp {
    Timestamp { year, month, day, hour, minute, second, nanosecond }
}

fn row(id: &str, date: &str, message: &str) -> StoredRow {
    StoredRow { id: id.to_string(), date: date.to_string(), message: message.to_string() }
}

fn is_uuid_v4(s: &str) -> bool {
    let b = s.as_bytes();
    b.len() == 36
        && b.iter().enumerate().all(|(i, c)| {
            if i == 8 || i == 13 || i == 18 || i == 23 {
                *c == b'-'
            } else {
                c.is_ascii_digit() || (b'a'..=b'f').contains(c)
            }
        })
        && b[14] == b'4'
        && matches!(b[19], b'8' | b'9' | b'a' | b'b')
}

/// Runs a statement on an in-memory table the way the store does.
fn run(table: &mut Vec<StoredRow>, stmt: &Statement) -> u64 {
    match stmt {
        Statement::SelectAll => 0,
        Statement::Insert(r) => {
            table.push(row(&r.id, &r.date, &r.message));
            1
        }
        Statement::Delete(id) => {
            let before = table.len();
            table.retain(|r| &r.id != id);
            (before - table.len()) as u64
        }
    }
}

fn copy_rows(table: &[StoredRow]) -> Vec<StoredRow> {
    table.iter().map(|r| row(&r.id, &r.date, &r.message)).collect()
}

#[test]
fn encode_writes_nine_fraction_digits() {
    let t = ts(2023, 11, 22, 15, 30, 0, 123_456_789);
    assert_eq!(t.encode(), "2023-11-22T15:30:00.123456789Z");
    let t = ts(7, 1, 2, 3, 4, 5, 6);
    assert_eq!(t.encode(), "0007-01-02T03:04:05.000000006Z");
}

#[test]
fn decode_reads_current_form() {
    assert_eq!(decode("2023-11-22T15:30:00.123456789Z"), Some(ts(2023, 11, 22, 15, 30, 0, 123_456_789)));
}

#[test]
fn decode_reads_millisecond_form() {
    assert_eq!(decode("2023-11-22T15:30:00.123Z"), Some(ts(2023, 11, 22, 15, 30, 0, 123_000_000)));
    assert_eq!(decode("1999-12-31T23:59:59.000Z"), Some(ts(1999, 12, 31, 23, 59, 59, 0)));
}

#[test]
fn decode_round_trips_encode() {
    let t = ts(2024, 2, 29, 23, 59, 59, 999_999_999);
    assert_eq!(decode(&t.encode()), Some(t));
}

#[test]
fn decode_rejects_malformed_text() {
    assert_eq!(decode(""), None);
    assert_eq!(decode("garbage"), None);
    assert_eq!(decode("2023-11-22T15:30:00Z"), None);
    assert_eq!(decode("2023-11-22T15:30:00.123456Z"), None);
    assert_eq!(decode("2023-11-22 15:30:00.123Z"), None);
    assert_eq!(decode("2023-11-22T15:30:00.12aZ"), None);
    assert_eq!(decode("2023-13-22T15:30:00.123Z"), None);
    assert_eq!(decode("2023-11-22T24:30:00.123Z"), None);
    assert_eq!(decode("2023-11-22T15:60:00.123Z"), None);
    assert_eq!(decode("2023-11-22T15:30:60.123Z"), None);
}

#[test]
fn decode_checks_the_calendar() {
    assert_eq!(decode("2024-02-29T00:00:00.000Z"), Some(ts(2024, 2, 29, 0, 0, 0, 0)));
    assert_eq!(decode("2023-02-29T00:00:00.000Z"), None);
    assert_eq!(decode("1900-02-29T00:00:00.000Z"), None);
    assert_eq!(decode("2000-02-29T00:00:00.000Z"), Some(ts(2000, 2, 29, 0, 0, 0, 0)));
    assert_eq!(decode("2023-04-31T00:00:00.000Z"), None);
    assert_eq!(decode("2023-00-10T00:00:00.000Z"), None);
    assert_eq!(decode("2023-01-00T00:00:00.000Z"), None);
}

#[test]
fn sort_key_follows_time() {
    let a = ts(2023, 11, 22, 15, 30, 0, 999_999_999);
    let b = ts(2023, 11, 22, 15, 30, 1, 0);
    let c = ts(2024, 1, 1, 0, 0, 0, 0);
    assert!(a.sort_key() < b.sort_key());
    assert!(b.sort_key() < c.sort_key());
    assert_eq!(ts(0, 1, 1, 0, 0, 0, 0).sort_key(), (((0 * 12 + 1) * 31 + 1) * 24 * 60 * 60) as u128 * 1_000_000_000);
}

#[test]
fn now_is_well_formed() {
    let t = Timestamp::now().expect("clock within years 0 to 9999");
    assert!(t.year >= 2020);
    assert_eq!(decode(&t.encode()), Some(t));
}

#[test]
fn create_escapes_markup_in_message() {
    let post = TweetPost { message: "<script>alert(\"x\")</script> & 'q'".to_string() };
    match add_tweet(&post) {
        Ok(Statement::Insert(r)) => {
            assert_eq!(
                r.message,
                "&lt;script&gt;alert(&quot;x&quot;)&lt;&#x2f;script&gt; &amp; &#x27;q&#x27;"
            );
            assert!(!r.message.contains('<') && !r.message.contains('>'));
            assert!(!r.message.contains('"') && !r.message.contains('\''));
            let t = tweet_from_row(&r).expect("date reads back");
            assert_eq!(t.message, r.message);
        }
        _ => panic!("expected an insert"),
    }
}

#[test]
fn create_gives_uuid_and_current_time() {
    let post = TweetPost { message: "hello".to_string() };
    match add_tweet(&post) {
        Ok(Statement::Insert(r)) => {
            assert!(is_uuid_v4(&r.id), "{}", r.id);
            assert_eq!(r.date.len(), 30);
            assert!(decode(&r.date).is_some());
            assert_eq!(r.message, "hello");
        }
        _ => panic!("expected an insert"),
    }
}

#[test]
fn creates_get_distinct_ids() {
    let post = TweetPost { message: "m".to_string() };
    let mut ids: Vec<String> = Vec::new();
    for _ in 0..100 {
        match add_tweet(&post) {
            Ok(Statement::Insert(r)) => ids.push(r.id),
            _ => panic!("expected an insert"),
        }
    }
    let n = ids.len();
    ids.sort();
    ids.dedup();
    assert_eq!(ids.len(), n);
}

#[test]
fn injection_text_is_only_a_parameter() {
    let post = TweetPost { message: "'); DROP TABLE tweets; --".to_string() };
    let stmt = add_tweet(&post).expect("insert");
    assert_eq!(stmt.sql(), "INSERT INTO tweets (id, date, message) VALUES (?, ?, ?)");
    assert_eq!(stmt.sql(), INSERT_SQL);
    let params = stmt.params();
    assert_eq!(params.len(), 3);
    assert_eq!(params[2], "&#x27;); DROP TABLE tweets; --");
    let mut table = vec![row("a", "2023-11-22T15:30:00.123Z", "kept")];
    assert_eq!(run(&mut table, &stmt), 1);
    assert_eq!(table.len(), 2);
    assert_eq!(table[0].message, "kept");
    assert_eq!(table[1].message, "&#x27;); DROP TABLE tweets; --");
}

#[test]
fn row_for_is_exact() {
    let post = TweetPost { message: "a/b".to_string() };
    let r = row_for(&post, "id-1".to_string(), ts(2023, 11, 22, 15, 30, 0, 5));
    assert_eq!(r.id, "id-1");
    assert_eq!(r.date, "2023-11-22T15:30:00.000000005Z");
    assert_eq!(r.message, "a&#x2f;b");
}

#[test]
fn list_orders_newest_first_across_both_forms() {
    let rows = vec![
        row("old", "2023-11-22T15:30:00.100Z", "first"),
        row("new", "2023-11-22T15:30:00.100000001Z", "third"),
        row("mid", "2023-11-22T15:30:00.100000000Z", "second"),
        row("oldest", "2022-01-01T00:00:00.000Z", "zeroth"),
    ];
    let feed = get_tweet(&rows).ok().expect("every row reads");
    let ids: Vec<&str> = feed.results.iter().map(|t| t.id.as_str()).collect();
    assert_eq!(ids[0], "new");
    assert_eq!(ids[3], "oldest");
    assert_eq!(feed.results.len(), 4);
    assert_eq!(feed.results[0].date, ts(2023, 11, 22, 15, 30, 0, 100_000_001));
    assert_eq!(feed.results[3].date, ts(2022, 1, 1, 0, 0, 0, 0));
    for w in feed.results.windows(2) {
        assert!(w[0].date.sort_key() >= w[1].date.sort_key());
    }
}

#[test]
fn list_of_increasing_times_is_strictly_descending() {
    let rows = vec![
        row("1", "2023-01-01T00:00:00.001Z", "a"),
        row("2", "2023-01-01T00:00:00.002000000Z", "b"),
        row("3", "2023-01-01T00:00:00.003Z", "c"),
    ];
    let feed = get_tweet(&rows).ok().expect("every row reads");
    let ids: Vec<&str> = feed.results.iter().map(|t| t.id.as_str()).collect();
    assert_eq!(ids, vec!["3", "2", "1"]);
    for w in feed.results.windows(2) {
        assert!(w[0].date.sort_key() > w[1].date.sort_key());
    }
}

#[test]
fn list_of_empty_store_is_empty() {
    let feed = get_tweet(&Vec::new()).ok().expect("empty list");
    assert!(feed.results.is_empty());
}

#[test]
fn list_fails_on_corrupt_date() {
    let rows = vec![
        row("1", "2023-01-01T00:00:00.001Z", "a"),
        row("2", "yesterday", "b"),
        row("3", "not a date either", "c"),
    ];
    match get_tweet(&rows) {
        Err(ServiceError::CorruptTimestamp(k)) => assert_eq!(k, 1),
        _ => panic!("expected a corrupt timestamp"),
    }
    let r = list_reply(Ok(rows));
    assert_eq!(r.status(), 500);
    assert!(matches!(r, Reply::Failed(ServiceError::CorruptTimestamp(1))));
}

#[test]
fn storage_failures_are_server_errors() {
    let r = list_reply(Err(StorageError));
    assert!(matches!(r, Reply::Failed(ServiceError::Storage)));
    assert_eq!(r.status(), 500);
    assert_eq!(create_reply(Err(StorageError)).status(), 500);
    assert_eq!(delete_reply(Err(StorageError)).status(), 500);
}

#[test]
fn replies_have_their_statuses() {
    assert_eq!(create_reply(Ok(1)).status(), 201);
    assert_eq!(delete_reply(Ok(1)).status(), 200);
    assert_eq!(list_reply(Ok(Vec::new())).status(), 200);
}

#[test]
fn delete_of_missing_id_succeeds_twice() {
    let mut table = vec![row("a", "2023-01-01T00:00:00.001Z", "x")];
    let stmt = delete_tweet("missing");
    assert_eq!(stmt.sql(), DELETE_SQL);
    assert_eq!(stmt.params(), vec!["missing".to_string()]);
    let n = run(&mut table, &stmt);
    assert!(matches!(delete_reply(Ok(n)), Reply::Deleted));
    let n = run(&mut table, &stmt);
    assert!(matches!(delete_reply(Ok(n)), Reply::Deleted));
    assert_eq!(table.len(), 1);
    let stmt = delete_tweet("a");
    assert_eq!(run(&mut table, &stmt), 1);
    assert_eq!(run(&mut table, &stmt), 0);
    assert!(matches!(delete_reply(Ok(0)), Reply::Deleted));
    assert!(table.is_empty());
}

#[test]
fn end_to_end_create_list_delete() {
    let mut table: Vec<StoredRow> = Vec::new();
    let stmt = add_tweet(&TweetPost { message: "hello".to_string() }).expect("insert");
    let n = run(&mut table, &stmt);
    assert_eq!(create_reply(Ok(n)).status(), 201);

    let list = list_tweets();
    assert_eq!(list.sql(), SELECT_SQL);
    assert!(list.params().is_empty());
    run(&mut table, &list);
    let id = match list_reply(Ok(copy_rows(&table))) {
        Reply::Listed(feed) => {
            assert_eq!(feed.results.len(), 1);
            assert_eq!(feed.results[0].message, "hello");
            feed.results[0].id.clone()
        }
        _ => panic!("expected a feed"),
    };

    let del = delete_tweet(&id);
    let n = run(&mut table, &del);
    assert_eq!(n, 1);
    assert_eq!(delete_reply(Ok(n)).status(), 200);

    match list_reply(Ok(copy_rows(&table))) {
        Reply::Listed(feed) => assert!(feed.results.is_empty()),
        _ => panic!("expected a feed"),
    }
}

#[test]
fn clock_fields_become_a_timestamp() {
    assert_eq!(
        Timestamp::from_clock_fields(2024, 2, 29, 23, 59, 58, 123_456_789),
        Some(ts(2024, 2, 29, 23, 59, 58, 123_456_789))
    );
    assert_eq!(Timestamp::from_clock_fields(0, 1, 1, 0, 0, 0, 0), Some(ts(0, 1, 1, 0, 0, 0, 0)));
    assert_eq!(Timestamp::from_clock_fields(9999, 12, 31, 0, 0, 0, 0), Some(ts(9999, 12, 31, 0, 0, 0, 0)));
    assert_eq!(Timestamp::from_clock_fields(10000, 1, 1, 0, 0, 0, 0), None);
    assert_eq!(Timestamp::from_clock_fields(-1, 1, 1, 0, 0, 0, 0), None);
}

#[test]
fn create_at_a_clock_reading_is_exact() {
    let post = TweetPost { message: "<b>".to_string() };
    match add_tweet_at(&post, "id-9".to_string(), Some(ts(2023, 5, 6, 7, 8, 9, 10))) {
        Ok(Statement::Insert(r)) => {
            assert_eq!(r.id, "id-9");
            assert_eq!(r.date, "2023-05-06T07:08:09.000000010Z");
            assert_eq!(r.message, "&lt;b&gt;");
        }
        _ => panic!("expected an insert"),
    }
    assert!(matches!(
        add_tweet_at(&post, "id-9".to_string(), None),
        Err(ServiceError::ClockOutOfRange)
    ));
}
