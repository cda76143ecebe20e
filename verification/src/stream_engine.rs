//! Reading streams: their shards, their records, and their list.

use vstd::prelude::*;
use vstd::string::*;

use crate::engine::opt_str;
use crate::error::{internal, invalid, ErrView, StorageError};
use crate::lists::{lemma_next, reversed};
use crate::sorting::{after_text, in_text_order, keep_after, keyed, sort_by_text};
use crate::streams::{StreamMeta, StreamRecord, SINGLE_SHARD_ID};
use crate::table::StreamViewType;
use crate::text::{
    cat2, cat3, chars_of, opt_view, rsplit_once, split_at_last, str_eq, str_less, str_lt,
    string_of, text, views,
};
use crate::value::KeySchemaElement;

verus! {

/// What stands between a stream and a shard.
pub const SHARD_ID_SEP: &'static str = "~~";

// ---------------------------------------------------------------------------
// Shards
// ---------------------------------------------------------------------------

/// The identifier of a shard of a stream.
pub open spec fn shard_id(arn: Seq<char>, shard: Seq<char>) -> Seq<char> {
    arn + SHARD_ID_SEP@ + shard
}

/// Builds the identifier of a shard of a stream.
pub fn encode_shard_id(arn: &str, shard_id: &str) -> (r: String)
    ensures
        r@ == self::shard_id(arn@, shard_id@),
{
    cat3(arn, SHARD_ID_SEP, shard_id)
}

/// Where two tildes stand next to each other for the first time, or the length.
pub open spec fn first_pair(s: Seq<char>) -> int
    decreases s.len(),
{
    if s.len() < 2 {
        s.len() as int
    } else if s[0] == '~' && s[1] == '~' {
        0
    } else {
        1 + first_pair(s.skip(1))
    }
}

/// The stream and the shard of an identifier.
pub open spec fn parsed_shard(s: Seq<char>) -> Result<(Seq<char>, Seq<char>), ErrView> {
    let i = first_pair(s);
    if i + 1 < s.len() {
        Ok((s.take(i), s.skip(i + 2)))
    } else {
        Err(ErrView::Validation("invalid shard id (expected <arn>~~<shard>): "@ + s))
    }
}

proof fn lemma_first_pair(s: Seq<char>, i: int)
    requires
        0 <= i,
        i + 1 < s.len() ==> s[i] == '~' && s[i + 1] == '~',
        i + 1 >= s.len() ==> i == if s.len() == 0 {
            0
        } else {
            s.len() - 1
        },
        forall|j: int| 0 <= j < i && j + 1 < s.len() ==> !(#[trigger] s[j] == '~' && s[j + 1] == '~'),
    ensures
        i + 1 < s.len() ==> first_pair(s) == i,
        i + 1 >= s.len() ==> first_pair(s) + 1 >= s.len(),
    decreases s.len(),
{
    if s.len() >= 2 {
        if i > 0 {
            assert(!(s[0] == '~' && s[1] == '~'));
            let t = s.skip(1);
            assert forall|j: int| 0 <= j < i - 1 && j + 1 < t.len() implies !(#[trigger] t[j] == '~'
                && t[j + 1] == '~') by {
                assert(t[j] == s[j + 1] && t[j + 1] == s[j + 2]);
            }
            if i + 1 < s.len() {
                assert(t[i - 1] == s[i] && t[i] == s[i + 1]);
            }
            lemma_first_pair(t, i - 1);
        }
    }
}

/// Takes the identifier of a shard apart.
pub fn parse_shard_id(s: &str) -> (r: Result<(String, String), StorageError>)
    ensures
        match r {
            Ok((a, b)) => parsed_shard(s@) == Ok::<(Seq<char>, Seq<char>), ErrView>((a@, b@)),
            Err(e) => parsed_shard(s@) == Err::<(Seq<char>, Seq<char>), ErrView>(e@),
        },
{
    let c = chars_of(s);
    let mut i: usize = 0;
    while i + 1 < c.len()
        invariant
            c@ == s@,
            i <= c.len(),
            c.len() == 0 ==> i == 0,
            c.len() > 0 ==> i + 1 <= c.len(),
            forall|j: int|
                0 <= j < i && j + 1 < s@.len() ==> !(#[trigger] s@[j] == '~' && s@[j + 1] == '~'),
        decreases c.len() - i,
    {
        if c[i] == '~' && c[i + 1] == '~' {
            proof {
                lemma_first_pair(s@, i as int);
            }
            let a = string_of(c.as_slice(), 0, i);
            let b = string_of(c.as_slice(), i + 2, c.len());
            assert(a@ =~= s@.take(i as int));
            assert(b@ =~= s@.skip(i + 2));
            return Ok((a, b));
        }
        i = i + 1;
    }
    proof {
        lemma_first_pair(s@, i as int);
    }
    Err(invalid(cat2("invalid shard id (expected <arn>~~<shard>): ", s).as_str()))
}

/// The identifier of a shard comes apart as it was built, unless two tildes
/// stand next to each other before the place where it was joined.
pub proof fn shard_ids_round_trip(arn: Seq<char>, shard: Seq<char>)
    requires
        forall|j: int|
            0 <= j < arn.len() ==> !(#[trigger] arn[j] == '~' && (j + 1 == arn.len() || arn[j + 1]
                == '~')),
    ensures
        parsed_shard(shard_id(arn, shard)) == Ok::<(Seq<char>, Seq<char>), ErrView>((arn, shard)),
{
    reveal_strlit("~~");
    let s = shard_id(arn, shard);
    let i = arn.len() as int;
    assert(s[i] == '~' && s[i + 1] == '~');
    assert forall|j: int| 0 <= j < i && j + 1 < s.len() implies !(#[trigger] s[j] == '~' && s[j + 1]
        == '~') by {
        assert(s[j] == arn[j]);
        if j + 1 < arn.len() {
            assert(s[j + 1] == arn[j + 1]);
        }
    }
    lemma_first_pair(s, i);
    assert(s.take(i) =~= arn);
    assert(s.skip(i + 2) =~= shard);
}

// ---------------------------------------------------------------------------
// Records
// ---------------------------------------------------------------------------

/// The sequence number of a record, by the key of its row: what is behind the
/// last colon.
pub open spec fn key_sequence(key: Seq<char>) -> Seq<char> {
    match rsplit_once(key, ':') {
        Some((_, s)) => s,
        None => Seq::empty(),
    }
}

/// A row of a stream: its key, and its record where that could be read.
pub struct RecordRow {
    pub key: String,
    pub record: Option<StreamRecord>,
}

/// The records behind a sequence number, each by its own.
pub open spec fn records_after(rows: Seq<RecordRow>, after: Option<Seq<char>>) -> Seq<
    (Seq<char>, StreamRecord),
>
    decreases rows.len(),
{
    if rows.len() == 0 {
        Seq::empty()
    } else {
        let rest = records_after(rows.drop_last(), after);
        let passed_by = match after {
            Some(a) => !str_less(a, key_sequence(rows.last().key@)),
            None => false,
        };
        match rows.last().record {
            Some(x) => if passed_by {
                rest
            } else {
                rest.push((x.dynamodb.sequence_number@, x))
            },
            None => rest,
        }
    }
}

/// The first elements up to a limit; no limit, where it is not positive.
pub open spec fn limited_to<T>(l: Seq<T>, limit: i64) -> Seq<T> {
    if limit > 0 && l.len() > limit {
        l.take(limit as int)
    } else {
        l
    }
}

/// The records that are read: those behind a sequence number, in order, up to a
/// limit.
pub open spec fn read_records(rows: Seq<RecordRow>, after: Option<Seq<char>>, limit: i64) -> Seq<
    (Seq<char>, StreamRecord),
> {
    limited_to(in_text_order(records_after(rows, after)), limit)
}

/// Reads the records of a shard behind a sequence number, and the sequence
/// number to go on from.
pub fn get_stream_records(rows: Vec<RecordRow>, after_sequence: Option<&str>, limit: i64) -> (r: (
    Vec<(String, StreamRecord)>,
    Option<String>,
))
    ensures
        keyed(r.0@) == read_records(rows@, opt_str(after_sequence), limit),
        opt_view(r.1) == if r.0@.len() == 0 {
            None
        } else {
            Some(r.0@.last().0@)
        },
{
    let ghost given = rows@;
    let mut left = reversed(rows);
    let mut found: Vec<(String, StreamRecord)> = Vec::new();
    let ghost after = opt_str(after_sequence);
    let ghost mut k: int = 0;
    proof {
        assert(given.skip(0) =~= given);
        assert(keyed(found@) =~= records_after(given.take(0), after));
    }
    while left.len() > 0
        invariant
            0 <= k <= given.len(),
            after == opt_str(after_sequence),
            left@ == given.skip(k).reverse(),
            keyed(found@) == records_after(given.take(k), after),
        decreases left.len(),
    {
        proof {
            lemma_next(given, k);
            assert(given.take(k + 1).drop_last() =~= given.take(k));
            assert(given.take(k + 1).last() == given[k]);
        }
        let row = left.pop().unwrap();
        let seq = match split_at_last(row.key.as_str(), ':') {
            Some((_, s)) => s,
            None => {
                let none = String::new();
                assert(none@ =~= Seq::<char>::empty());
                none
            },
        };
        let passed_by = match after_sequence {
            Some(a) => !str_lt(a, seq.as_str()),
            None => false,
        };
        if !passed_by {
            if let Some(x) = row.record {
                let ghost before = keyed(found@);
                let key = text(x.dynamodb.sequence_number.as_str());
                let ghost added = (key@, x);
                found.push((key, x));
                assert(keyed(found@) =~= before.push(added));
            }
        }
        proof {
            k = k + 1;
        }
    }
    assert(given.take(k) =~= given);
    let mut out = sort_by_text(found);
    let ghost sorted = keyed(out@);
    if limit > 0 && out.len() as i128 > limit as i128 {
        out.truncate(limit as usize);
        assert(keyed(out@) =~= sorted.take(limit as int));
    }
    let next = if out.len() == 0 {
        None
    } else {
        Some(text(out[out.len() - 1].0.as_str()))
    };
    (out, next)
}

/// The greatest sequence number among the keys of rows.
pub open spec fn greatest_sequence(keys: Seq<Seq<char>>) -> Option<Seq<char>>
    decreases keys.len(),
{
    if keys.len() == 0 {
        None
    } else {
        let rest = greatest_sequence(keys.drop_last());
        match rsplit_once(keys.last(), ':') {
            Some((_, s)) => match rest {
                Some(m) => if str_less(m, s) {
                    Some(s)
                } else {
                    rest
                },
                None => Some(s),
            },
            None => rest,
        }
    }
}

/// Finds the greatest sequence number of a shard, by the keys of its rows.
pub fn latest_sequence_number(keys: &[String]) -> (r: Option<String>)
    ensures
        opt_view(r) == greatest_sequence(views(keys@)),
{
    let ghost all = views(keys@);
    let mut last: Option<String> = None;
    let mut i: usize = 0;
    while i < keys.len()
        invariant
            i <= keys.len(),
            all == views(keys@),
            opt_view(last) == greatest_sequence(all.take(i as int)),
        decreases keys.len() - i,
    {
        proof {
            assert(all.take(i + 1).drop_last() =~= all.take(i as int));
            assert(all.take(i + 1).last() == keys@[i as int]@);
        }
        if let Some((_, s)) = split_at_last(keys[i].as_str(), ':') {
            let later = match &last {
                Some(l) => str_lt(l.as_str(), s.as_str()),
                None => true,
            };
            if later {
                last = Some(s);
            }
        }
        i = i + 1;
    }
    assert(all.take(i as int) =~= all);
    last
}

// ---------------------------------------------------------------------------
// Streams
// ---------------------------------------------------------------------------

/// A stream that is not there.
pub fn stream_not_found(arn: &str) -> (r: StorageError)
    ensures
        r@ == ErrView::Validation("Stream not found: "@ + arn@),
{
    invalid(cat2("Stream not found: ", arn).as_str())
}

/// A stream with its one shard, which begins at zero and does not end.
#[derive(Debug, PartialEq, Eq)]
pub struct StreamDescription {
    pub stream_arn: String,
    pub stream_label: String,
    pub stream_view_type: StreamViewType,
    pub table_name: String,
    pub key_schema: Vec<KeySchemaElement>,
    pub shard_id: String,
    pub starting_sequence_number: String,
}

/// Describes a stream. `meta` is what was read under `arn`, and what reading it
/// from its JSON came to.
pub fn describe_stream(meta: Option<Result<StreamMeta, String>>, arn: &str) -> (r: Result<
    StreamDescription,
    StorageError,
>)
    ensures
        match meta {
            Some(Ok(m)) => r matches Ok(d) && d.stream_arn@ == m.stream_arn@ && d.stream_label@
                == m.stream_label@ && d.stream_view_type == m.stream_view_type && d.table_name@
                == m.table_name@ && d.key_schema@ == m.key_schema@ && d.shard_id@ == shard_id(
                arn@,
                SINGLE_SHARD_ID@,
            ) && d.starting_sequence_number@ == "0"@,
            Some(Err(m)) => r matches Err(e) && e@ == ErrView::Internal(
                "decode stream meta: "@ + m@,
            ),
            None => r matches Err(e) && e@ == ErrView::Validation("Stream not found: "@ + arn@),
        },
{
    match meta {
        None => Err(stream_not_found(arn)),
        Some(Err(m)) => Err(internal(cat2("decode stream meta: ", m.as_str()).as_str())),
        Some(Ok(m)) => Ok(
            StreamDescription {
                stream_arn: m.stream_arn,
                stream_label: m.stream_label,
                stream_view_type: m.stream_view_type,
                table_name: m.table_name,
                key_schema: m.key_schema,
                shard_id: encode_shard_id(arn, SINGLE_SHARD_ID),
                starting_sequence_number: text("0"),
            },
        ),
    }
}

/// Whether a shard is one of a stream: an identifier that cannot be taken apart
/// is taken for that of the stream in question.
pub open spec fn shard_result(arn: Seq<char>, shard: Seq<char>, exists_: bool) -> Result<
    (),
    ErrView,
> {
    let of = match parsed_shard(shard) {
        Ok((a, _)) => a,
        Err(_) => arn,
    };
    if of != arn {
        Err(ErrView::Validation("shard does not belong to stream"@))
    } else if !exists_ {
        Err(ErrView::Validation("Stream not found: "@ + arn))
    } else {
        Ok(())
    }
}

/// Looks whether a shard is one of a stream that is there.
pub fn validate_shard(stream_arn: &str, shard_id: &str, stream_exists: bool) -> (r: Result<
    (),
    StorageError,
>)
    ensures
        match r {
            Ok(_) => shard_result(stream_arn@, shard_id@, stream_exists) == Ok::<(), ErrView>(()),
            Err(e) => shard_result(stream_arn@, shard_id@, stream_exists) == Err::<(), ErrView>(
                e@,
            ),
        },
{
    if let Ok((arn, _)) = parse_shard_id(shard_id) {
        if !str_eq(arn.as_str(), stream_arn) {
            return Err(invalid("shard does not belong to stream"));
        }
    }
    if !stream_exists {
        return Err(stream_not_found(stream_arn));
    }
    Ok(())
}

/// A stream in a list.
#[derive(Debug, PartialEq, Eq)]
pub struct StreamSummary {
    pub stream_label: String,
    pub table_name: String,
}

/// The streams of a table, or all, each by its name; what could not be read is
/// passed over.
pub open spec fn summaries(l: Seq<Option<StreamMeta>>, table: Option<Seq<char>>) -> Seq<
    (Seq<char>, (Seq<char>, Seq<char>)),
>
    decreases l.len(),
{
    if l.len() == 0 {
        Seq::empty()
    } else {
        let rest = summaries(l.drop_last(), table);
        match l.last() {
            Some(m) => if table is Some && table->0 != m.table_name@ {
                rest
            } else {
                rest.push((m.stream_arn@, (m.stream_label@, m.table_name@)))
            },
            None => rest,
        }
    }
}

/// A page of streams: those behind one, in order, up to a limit, and the last of
/// them where there are more.
pub open spec fn stream_page<T>(
    l: Seq<(Seq<char>, T)>,
    start: Option<Seq<char>>,
    limit: i64,
) -> (Seq<(Seq<char>, T)>, Option<Seq<char>>) {
    let all = after_text(in_text_order(l), start);
    (
        limited_to(all, limit),
        if limit > 0 && all.len() > limit {
            Some(all[limit - 1].0)
        } else {
            None
        },
    )
}

/// Collects the streams of a table, or all.
pub fn stream_summaries(metas: Vec<Option<StreamMeta>>, table_name: Option<&str>) -> (r: Vec<
    (String, StreamSummary),
>)
    ensures
        summary_views(r@) == summaries(metas@, opt_str(table_name)),
{
    let ghost given = metas@;
    let mut left = reversed(metas);
    let mut out: Vec<(String, StreamSummary)> = Vec::new();
    let ghost table = opt_str(table_name);
    let ghost mut k: int = 0;
    proof {
        assert(given.skip(0) =~= given);
        assert(summary_views(out@) =~= summaries(given.take(0), table));
    }
    while left.len() > 0
        invariant
            0 <= k <= given.len(),
            table == opt_str(table_name),
            left@ == given.skip(k).reverse(),
            summary_views(out@) == summaries(given.take(k), table),
        decreases left.len(),
    {
        proof {
            lemma_next(given, k);
            assert(given.take(k + 1).drop_last() =~= given.take(k));
            assert(given.take(k + 1).last() == given[k]);
        }
        if let Some(m) = left.pop().unwrap() {
            let wanted = match table_name {
                Some(t) => str_eq(m.table_name.as_str(), t),
                None => true,
            };
            if wanted {
                let ghost before = summary_views(out@);
                let ghost added = (m.stream_arn@, (m.stream_label@, m.table_name@));
                out.push(
                    (
                        m.stream_arn,
                        StreamSummary { stream_label: m.stream_label, table_name: m.table_name },
                    ),
                );
                assert(summary_views(out@) =~= before.push(added));
            }
        }
        proof {
            k = k + 1;
        }
    }
    assert(given.take(k) =~= given);
    out
}

pub open spec fn summary_views(l: Seq<(String, StreamSummary)>) -> Seq<
    (Seq<char>, (Seq<char>, Seq<char>)),
> {
    l.map_values(|e: (String, StreamSummary)| (e.0@, (e.1.stream_label@, e.1.table_name@)))
}

/// Lists streams: those behind one, in order, up to a limit.
pub fn list_streams(
    streams: Vec<(String, StreamSummary)>,
    limit: i64,
    exclusive_start_stream_arn: Option<&str>,
) -> (r: (Vec<(String, StreamSummary)>, Option<String>))
    ensures
        (keyed(r.0@), opt_view(r.1)) == stream_page(
            keyed(streams@),
            opt_str(exclusive_start_stream_arn),
            limit,
        ),
{
    let mut out = keep_after(sort_by_text(streams), exclusive_start_stream_arn);
    let ghost all = keyed(out@);
    if limit > 0 && out.len() as i128 > limit as i128 {
        let n: usize = limit as usize;
        let last = text(out[n - 1].0.as_str());
        assert(all[n - 1].0 == out@[n - 1].0@);
        out.truncate(n);
        assert(keyed(out@) =~= all.take(limit as int));
        (out, Some(last))
    } else {
        (out, None)
    }
}

} // verus!
