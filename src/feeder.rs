//! The feeder: checks the request, fetches today's disclosures once and
//! writes the valid ones through the store, skipping and counting the rest.

use crate::record::{
    normalize, normalized, RawDisclosure, RawView, RecordError, Row, ShortPositionRecord,
};
use crate::store::{
    has_key, key_index, keys_unique, lemma_upsert_wf, same_key, upsert_of, MemoryStore, StorageError,
    UpsertOutcome,
};
use vstd::prelude::*;
use vstd::string::*;

verus! {

/// Why a fetch failed.
#[derive(Clone, Copy, Debug, PartialEq, Eq, Structural)]
pub enum FetchError {
    /// The remote source could not be reached.
    Unavailable,
    /// A payload arrived but could not be understood.
    ParseFailure,
}

/// What a provider fetched for today.
#[derive(Clone, Debug)]
pub struct ProviderResult {
    /// The disclosures, in the order in which they were published.
    pub entries: Vec<RawDisclosure>,
    /// Where they were fetched from.
    pub source: String,
    /// When they were fetched.
    pub fetched_at: u64,
}

/// A source of today's disclosures.
pub trait Provider {
    fn fetch_today(&self) -> Result<ProviderResult, FetchError>;
}

/// A provider that hands out a payload fixed in advance.
pub struct CannedProvider {
    pub payload: Result<ProviderResult, FetchError>,
}

impl Provider for CannedProvider {
    fn fetch_today(&self) -> Result<ProviderResult, FetchError> {
        match &self.payload {
            Ok(p) => Ok(p.clone()),
            Err(e) => Err(*e),
        }
    }
}

/// Why an ingestion run failed.
#[derive(Clone, Copy, Debug, PartialEq, Eq, Structural)]
pub enum IngestionError {
    /// The request asked for another scope than all instruments, today.
    UnsupportedSelector,
    /// The provider failed; nothing was written.
    Fetch(FetchError),
    /// The store refused a write; the writes before it stay.
    Storage(StorageError),
}

/// Counts of one ingestion run.
#[derive(Clone, Copy, Debug, PartialEq, Eq, Structural)]
pub struct IngestionSummary {
    /// Entries looked at.
    pub records_seen: usize,
    /// Rows inserted or changed.
    pub records_written: usize,
    /// Entries that failed normalization.
    pub records_skipped: usize,
}

/// The selector that asks for every instrument, today.
pub open spec fn selects_all(selector: Seq<Seq<char>>) -> bool {
    selector.len() == 1 && selector[0] == seq!['a', 'l', 'l']
}

/// Whether the request selects all instruments: exactly one item, `all`.
pub fn is_all_selector(selector: &Vec<String>) -> (r: bool)
    ensures
        r == selects_all(selector@.map_values(|s: String| s@)),
{
    let ghost sel = selector@.map_values(|s: String| s@);
    if selector.len() != 1 {
        return false;
    }
    let all = String::from_str("all");
    proof {
        reveal_strlit("all");
        assert("all"@ =~= seq!['a', 'l', 'l']);
    }
    assert(sel[0] == selector@[0]@);
    selector[0] == all
}

/// The state of a run after some entries.
pub struct Progress {
    pub rows: Seq<Row>,
    pub seen: nat,
    pub written: nat,
    pub skipped: nat,
    pub failure: Option<StorageError>,
}

/// Entry `i` is valid and a later valid entry of the payload has its key: the
/// later one is the one that counts.
pub open spec fn superseded(entries: Seq<RawView>, i: int, ts: u64) -> bool {
    exists|j: int|
        i < j < entries.len() && (#[trigger] normalized(entries[j], ts)) is Ok && same_key(
            normalized(entries[j], ts)->Ok_0,
            normalized(entries[i], ts)->Ok_0,
        )
}

/// Entry `j` is written by a run: it is valid and no later entry has its key.
pub open spec fn effective(entries: Seq<RawView>, j: int, ts: u64) -> bool {
    normalized(entries[j], ts) is Ok && !superseded(entries, j, ts)
}

/// The state after the first `n` entries of `entries`, fetched at `ts`, were
/// written in order into `rows` with room for `cap` rows. An entry that fails
/// normalization is counted as skipped; a valid entry whose key comes again
/// later in the payload is passed over, so that the last one of a key wins;
/// the first refused write ends the run.
pub open spec fn run_of(rows: Seq<Row>, cap: nat, entries: Seq<RawView>, n: int, ts: u64) -> Progress
    decreases n,
{
    if n <= 0 {
        Progress { rows, seen: 0, written: 0, skipped: 0, failure: None }
    } else {
        let p = run_of(rows, cap, entries, n - 1, ts);
        if p.failure is Some {
            p
        } else {
            match normalized(entries[n - 1], ts) {
                Err(_) => Progress {
                    rows: p.rows,
                    seen: p.seen + 1,
                    written: p.written,
                    skipped: p.skipped + 1,
                    failure: None,
                },
                Ok(row) => if superseded(entries, n - 1, ts) {
                    Progress {
                        rows: p.rows,
                        seen: p.seen + 1,
                        written: p.written,
                        skipped: p.skipped,
                        failure: None,
                    }
                } else {
                    let (rows2, out) = upsert_of(p.rows, cap, row);
                    match out {
                        Err(e) => Progress {
                            rows: rows2,
                            seen: p.seen + 1,
                            written: p.written,
                            skipped: p.skipped,
                            failure: Some(e),
                        },
                        Ok(o) => Progress {
                            rows: rows2,
                            seen: p.seen + 1,
                            written: if o == UpsertOutcome::Unchanged {
                                p.written
                            } else {
                                p.written + 1
                            },
                            skipped: p.skipped,
                            failure: None,
                        },
                    }
                },
            }
        }
    }
}

/// The result of a run over the whole payload.
pub open spec fn ingest_of(rows: Seq<Row>, cap: nat, entries: Seq<RawView>, ts: u64) -> Progress {
    run_of(rows, cap, entries, entries.len() as int, ts)
}

pub open spec fn entries_view(result: ProviderResult) -> Seq<RawView> {
    result.entries@.map_values(|e: RawDisclosure| e@)
}

/// What an ingestion of `p` returns.
pub open spec fn outcome_of(p: Progress) -> Result<IngestionSummary, IngestionError> {
    match p.failure {
        Some(e) => Err(IngestionError::Storage(e)),
        None => Ok(
            IngestionSummary {
                records_seen: p.seen as usize,
                records_written: p.written as usize,
                records_skipped: p.skipped as usize,
            },
        ),
    }
}

proof fn lemma_counts(rows: Seq<Row>, cap: nat, entries: Seq<RawView>, n: int, ts: u64)
    requires
        n >= 0,
    ensures
        run_of(rows, cap, entries, n, ts).seen <= n,
        run_of(rows, cap, entries, n, ts).written <= run_of(rows, cap, entries, n, ts).seen,
        run_of(rows, cap, entries, n, ts).skipped <= run_of(rows, cap, entries, n, ts).seen,
    decreases n,
{
    if n > 0 {
        lemma_counts(rows, cap, entries, n - 1, ts);
    }
}

proof fn lemma_failure_ends_run(rows: Seq<Row>, cap: nat, entries: Seq<RawView>, ts: u64, k: int, n: int)
    requires
        0 <= k <= n,
        run_of(rows, cap, entries, k, ts).failure is Some,
    ensures
        run_of(rows, cap, entries, n, ts) == run_of(rows, cap, entries, k, ts),
    decreases n,
{
    if n > k {
        lemma_failure_ends_run(rows, cap, entries, ts, k, n - 1);
    }
}

/// Whether a valid entry that comes after entry `i` has the key of `rec`.
fn key_comes_again(entries: &Vec<RawDisclosure>, i: usize, rec: &ShortPositionRecord, ts: u64) -> (r: bool)
    requires
        i < entries@.len(),
        normalized(entries@[i as int]@, ts) == Ok::<Row, RecordError>(rec@),
    ensures
        r == superseded(entries@.map_values(|e: RawDisclosure| e@), i as int, ts),
{
    let ghost ents = entries@.map_values(|e: RawDisclosure| e@);
    let n = entries.len();
    let mut j: usize = i + 1;
    while j < n
        invariant
            n == entries@.len(),
            ents == entries@.map_values(|e: RawDisclosure| e@),
            normalized(ents[i as int], ts) == Ok::<Row, RecordError>(rec@),
            i < j <= n,
            forall|k: int|
                i < k < j && (#[trigger] normalized(ents[k], ts)) is Ok ==> !same_key(
                    normalized(ents[k], ts)->Ok_0,
                    rec@,
                ),
        decreases n - j,
    {
        match normalize(&entries[j], ts) {
            Ok(other) => {
                if other.ticker == rec.ticker && other.holder == rec.holder && other.date == rec.date {
                    assert(normalized(ents[j as int], ts) is Ok);
                    return true;
                }
            },
            Err(_) => {},
        }
        j = j + 1;
    }
    false
}

/// Writes a fetched payload through the store, entry by entry, in order;
/// of several valid entries with one key only the last is written.
pub fn ingest(result: &ProviderResult, store: &mut MemoryStore) -> (r: Result<
    IngestionSummary,
    IngestionError,
>)
    requires
        old(store).wf(),
    ensures
        final(store).wf(),
        final(store).capacity() == old(store).capacity(),
        final(store).rows() == ingest_of(
            old(store).rows(),
            old(store).capacity(),
            entries_view(*result),
            result.fetched_at,
        ).rows,
        r == outcome_of(
            ingest_of(old(store).rows(), old(store).capacity(), entries_view(*result), result.fetched_at),
        ),
{
    let ghost rows0 = store.rows();
    let ghost cap0 = store.capacity();
    let ghost entries = entries_view(*result);
    let ts = result.fetched_at;
    let n = result.entries.len();
    let mut written: usize = 0;
    let mut skipped: usize = 0;
    let mut i: usize = 0;
    while i < n
        invariant
            n == result.entries@.len(),
            ts == result.fetched_at,
            entries == entries_view(*result),
            rows0 == old(store).rows(),
            cap0 == old(store).capacity(),
            i <= n,
            store.wf(),
            store.capacity() == cap0,
            run_of(rows0, cap0, entries, i as int, ts) == (Progress {
                rows: store.rows(),
                seen: i as nat,
                written: written as nat,
                skipped: skipped as nat,
                failure: None,
            }),
        decreases n - i,
    {
        proof {
            lemma_counts(rows0, cap0, entries, i as int, ts);
        }
        match normalize(&result.entries[i], ts) {
            Err(_) => {
                skipped = skipped + 1;
            },
            Ok(rec) => {
                if !key_comes_again(&result.entries, i, &rec, ts) {
                    match store.upsert_short_position(rec) {
                        Err(e) => {
                            proof {
                                lemma_failure_ends_run(rows0, cap0, entries, ts, i + 1, n as int);
                            }
                            return Err(IngestionError::Storage(e));
                        },
                        Ok(o) => {
                            if o != UpsertOutcome::Unchanged {
                                written = written + 1;
                            }
                        },
                    }
                }
            },
        }
        i = i + 1;
    }
    Ok(IngestionSummary { records_seen: i, records_written: written, records_skipped: skipped })
}

/// Ingesting payload `p` into `rows` with room for `cap` rows leaves `after`
/// and returns `r`.
pub open spec fn completes(
    rows: Seq<Row>,
    cap: nat,
    p: ProviderResult,
    after: Seq<Row>,
    r: Result<IngestionSummary, IngestionError>,
) -> bool {
    let run = ingest_of(rows, cap, entries_view(p), p.fetched_at);
    after == run.rows && r == outcome_of(run)
}

/// The valid entries of a payload name pairwise distinct disclosures.
pub open spec fn distinct_valid_keys(entries: Seq<RawView>, ts: u64) -> bool {
    forall|i: int, j: int|
        0 <= i < j < entries.len() && (#[trigger] normalized(entries[i], ts)) is Ok && (
        #[trigger] normalized(entries[j], ts)) is Ok ==> !same_key(
            normalized(entries[i], ts)->Ok_0,
            normalized(entries[j], ts)->Ok_0,
        )
}

/// `rows` hold a row with the key and the percentage of `r`.
pub open spec fn holds(rows: Seq<Row>, r: Row) -> bool {
    exists|k: int| 0 <= k < rows.len() && same_key(#[trigger] rows[k], r) && rows[k].pct == r.pct
}

/// `rows` hold every entry among the first `n` that a run writes.
pub open spec fn holds_upto(rows: Seq<Row>, entries: Seq<RawView>, n: int, ts: u64) -> bool {
    forall|j: int|
        0 <= j < n && #[trigger] effective(entries, j, ts) ==> holds(
            rows,
            normalized(entries[j], ts)->Ok_0,
        )
}

/// Number of entries among the first `n` that fail normalization.
pub open spec fn invalid_upto(entries: Seq<RawView>, n: int, ts: u64) -> nat
    decreases n,
{
    if n <= 0 {
        0
    } else {
        invalid_upto(entries, n - 1, ts) + if normalized(entries[n - 1], ts) is Err {
            1nat
        } else {
            0nat
        }
    }
}

/// Number of entries that fail normalization.
pub open spec fn invalid_count(entries: Seq<RawView>, ts: u64) -> nat {
    invalid_upto(entries, entries.len() as int, ts)
}

proof fn lemma_run_holds(rows: Seq<Row>, cap: nat, entries: Seq<RawView>, n: int, ts: u64)
    requires
        0 <= n <= entries.len(),
        keys_unique(rows),
        rows.len() <= cap,
        run_of(rows, cap, entries, n, ts).failure is None,
    ensures
        holds_upto(run_of(rows, cap, entries, n, ts).rows, entries, n, ts),
        keys_unique(run_of(rows, cap, entries, n, ts).rows),
        run_of(rows, cap, entries, n, ts).rows.len() <= cap,
    decreases n,
{
    if n > 0 {
        let last = n - 1;
        let p = run_of(rows, cap, entries, last, ts);
        lemma_run_holds(rows, cap, entries, last, ts);
        let out = run_of(rows, cap, entries, n, ts).rows;
        if effective(entries, last, ts) {
            lemma_upsert_wf(p.rows, cap, normalized(entries[last], ts)->Ok_0);
        }
        assert forall|j: int| 0 <= j < n && #[trigger] effective(entries, j, ts) implies holds(
            out,
            normalized(entries[j], ts)->Ok_0,
        ) by {
            let rj = normalized(entries[j], ts)->Ok_0;
            if effective(entries, last, ts) {
                let r = normalized(entries[last], ts)->Ok_0;
                if j == last {
                    if has_key(p.rows, r) {
                        let k = key_index(p.rows, r);
                        assert(same_key(out[k], r) && out[k].pct == r.pct);
                    } else {
                        assert(out[p.rows.len() as int] == r);
                    }
                } else {
                    assert(holds(p.rows, rj));
                    let m = choose|m: int|
                        0 <= m < p.rows.len() && same_key(#[trigger] p.rows[m], rj) && p.rows[m].pct
                            == rj.pct;
                    assert(!same_key(r, rj)) by {
                        if same_key(r, rj) {
                            assert(normalized(entries[last], ts) is Ok);
                            assert(superseded(entries, j, ts));
                        }
                    }
                    if has_key(p.rows, r) {
                        let k = key_index(p.rows, r);
                        assert(m != k);
                    }
                    assert(same_key(out[m], rj) && out[m].pct == rj.pct);
                }
            } else {
                assert(holds(p.rows, rj));
            }
        }
    }
}

proof fn lemma_rerun_writes_nothing(rows: Seq<Row>, cap: nat, entries: Seq<RawView>, n: int, ts: u64)
    requires
        0 <= n <= entries.len(),
        keys_unique(rows),
        holds_upto(rows, entries, n, ts),
    ensures
        run_of(rows, cap, entries, n, ts).rows == rows,
        run_of(rows, cap, entries, n, ts).written == 0,
        run_of(rows, cap, entries, n, ts).failure is None,
        run_of(rows, cap, entries, n, ts).seen == n,
    decreases n,
{
    if n > 0 {
        let last = n - 1;
        lemma_rerun_writes_nothing(rows, cap, entries, last, ts);
        if effective(entries, last, ts) {
            let r = normalized(entries[last], ts)->Ok_0;
            assert(holds(rows, r));
            let m = choose|m: int|
                0 <= m < rows.len() && same_key(#[trigger] rows[m], r) && rows[m].pct == r.pct;
            assert(has_key(rows, r));
            let k = key_index(rows, r);
            assert(k == m) by {
                if k < m {
                    assert(!same_key(rows[k], rows[m]));
                } else if m < k {
                    assert(!same_key(rows[m], rows[k]));
                }
            }
        }
    }
}

/// Ingesting the same payload twice in succession: the second run sees every
/// entry, writes nothing and leaves exactly the rows the first run left, one
/// per key.
pub proof fn lemma_ingest_idempotent(store: MemoryStore, p: ProviderResult)
    requires
        store.wf(),
        ingest_of(store.rows(), store.capacity(), entries_view(p), p.fetched_at).failure is None,
    ensures
        ({
            let first = ingest_of(store.rows(), store.capacity(), entries_view(p), p.fetched_at);
            let second = ingest_of(first.rows, store.capacity(), entries_view(p), p.fetched_at);
            &&& keys_unique(first.rows)
            &&& second.rows == first.rows
            &&& second.failure is None
            &&& second.seen == p.entries.len()
            &&& second.written == 0
        }),
{
    let ents = entries_view(p);
    let n = ents.len() as int;
    let first = ingest_of(store.rows(), store.capacity(), ents, p.fetched_at);
    lemma_run_holds(store.rows(), store.capacity(), ents, n, p.fetched_at);
    lemma_rerun_writes_nothing(first.rows, store.capacity(), ents, n, p.fetched_at);
}

proof fn lemma_counts_when_complete(rows: Seq<Row>, cap: nat, entries: Seq<RawView>, n: int, ts: u64)
    requires
        n >= 0,
        run_of(rows, cap, entries, n, ts).failure is None,
    ensures
        run_of(rows, cap, entries, n, ts).seen == n,
        run_of(rows, cap, entries, n, ts).skipped == invalid_upto(entries, n, ts),
    decreases n,
{
    if n > 0 {
        lemma_counts_when_complete(rows, cap, entries, n - 1, ts);
    }
}

/// The rows made from the first `n` entries that are valid, in order.
pub open spec fn valid_upto(entries: Seq<RawView>, n: int, ts: u64) -> Seq<Row>
    decreases n,
{
    if n <= 0 {
        Seq::empty()
    } else {
        match normalized(entries[n - 1], ts) {
            Ok(r) => valid_upto(entries, n - 1, ts).push(r),
            Err(_) => valid_upto(entries, n - 1, ts),
        }
    }
}

/// The rows made from the valid entries, in order.
pub open spec fn valid_rows(entries: Seq<RawView>, ts: u64) -> Seq<Row> {
    valid_upto(entries, entries.len() as int, ts)
}

/// `r` is the row of a valid entry among the first `n`.
pub open spec fn made_from_entry(entries: Seq<RawView>, n: int, ts: u64, r: Row) -> bool {
    exists|j: int|
        0 <= j < n && (#[trigger] normalized(entries[j], ts)) is Ok && normalized(entries[j], ts)->Ok_0
            == r
}

proof fn lemma_valid_upto_origin(entries: Seq<RawView>, n: int, ts: u64)
    requires
        0 <= n <= entries.len(),
    ensures
        valid_upto(entries, n, ts).len() + invalid_upto(entries, n, ts) == n,
        forall|m: int|
            0 <= m < valid_upto(entries, n, ts).len() ==> made_from_entry(
                entries,
                n,
                ts,
                #[trigger] valid_upto(entries, n, ts)[m],
            ),
    decreases n,
{
    if n > 0 {
        lemma_valid_upto_origin(entries, n - 1, ts);
        let prev = valid_upto(entries, n - 1, ts);
        let cur = valid_upto(entries, n, ts);
        assert forall|m: int| 0 <= m < cur.len() implies made_from_entry(
            entries,
            n,
            ts,
            #[trigger] valid_upto(entries, n, ts)[m],
        ) by {
            if m < prev.len() {
                assert(made_from_entry(entries, n - 1, ts, prev[m]));
                let j = choose|j: int|
                    0 <= j < n - 1 && (#[trigger] normalized(entries[j], ts)) is Ok
                        && normalized(entries[j], ts)->Ok_0 == prev[m];
                assert(cur[m] == prev[m]);
                assert(normalized(entries[j], ts) is Ok);
            } else {
                assert(normalized(entries[n - 1], ts) is Ok);
                assert(normalized(entries[n - 1], ts)->Ok_0 == cur[m]);
            }
        }
    }
}

proof fn lemma_fresh_keys_all_inserted(rows: Seq<Row>, cap: nat, entries: Seq<RawView>, n: int, ts: u64)
    requires
        0 <= n <= entries.len(),
        rows.len() + valid_rows(entries, ts).len() <= cap,
        distinct_valid_keys(entries, ts),
        forall|j: int|
            0 <= j < entries.len() && (#[trigger] normalized(entries[j], ts)) is Ok ==> !has_key(
                rows,
                normalized(entries[j], ts)->Ok_0,
            ),
    ensures
        run_of(rows, cap, entries, n, ts).failure is None,
        run_of(rows, cap, entries, n, ts).rows == rows + valid_upto(entries, n, ts),
        run_of(rows, cap, entries, n, ts).written == valid_upto(entries, n, ts).len(),
    decreases n,
{
    lemma_valid_upto_prefix_len(entries, n, entries.len() as int, ts);
    if n > 0 {
        let last = n - 1;
        lemma_fresh_keys_all_inserted(rows, cap, entries, last, ts);
        lemma_valid_upto_origin(entries, last, ts);
        let p = run_of(rows, cap, entries, last, ts);
        if normalized(entries[last], ts) is Ok {
            let r = normalized(entries[last], ts)->Ok_0;
            let vr = valid_upto(entries, last, ts);
            assert(!superseded(entries, last, ts)) by {
                if superseded(entries, last, ts) {
                    let j = choose|j: int|
                        last < j < entries.len() && (#[trigger] normalized(entries[j], ts)) is Ok
                            && same_key(normalized(entries[j], ts)->Ok_0, r);
                    assert(!same_key(r, normalized(entries[j], ts)->Ok_0));
                }
            }
            assert(!has_key(p.rows, r)) by {
                if has_key(p.rows, r) {
                    let k = choose|k: int| 0 <= k < p.rows.len() && same_key(#[trigger] p.rows[k], r);
                    if k < rows.len() {
                        assert(p.rows[k] == rows[k]);
                        assert(has_key(rows, r));
                    } else {
                        let m = k - rows.len();
                        assert(p.rows[k] == vr[m]);
                        assert(made_from_entry(entries, last, ts, vr[m]));
                        let j = choose|j: int|
                            0 <= j < last && (#[trigger] normalized(entries[j], ts)) is Ok
                                && normalized(entries[j], ts)->Ok_0 == vr[m];
                        assert(!same_key(normalized(entries[j], ts)->Ok_0, r));
                    }
                }
            }
            assert(p.rows.push(r) =~= rows + valid_upto(entries, n, ts));
        }
    }
}

proof fn lemma_valid_upto_prefix_len(entries: Seq<RawView>, n: int, m: int, ts: u64)
    requires
        0 <= n <= m,
    ensures
        valid_upto(entries, n, ts).len() <= valid_upto(entries, m, ts).len(),
    decreases m,
{
    if m > n {
        lemma_valid_upto_prefix_len(entries, n, m - 1, ts);
    }
}

/// An entry that fails normalization is skipped and counted, never ending the
/// run: a run that no refused write ended has seen every entry and skipped
/// exactly the invalid ones. When the valid entries name distinct
/// disclosures that the store does not hold yet, and the store has room for
/// them, no write is refused and every valid entry is written, after the rows
/// already there.
pub proof fn lemma_invalid_entries_skipped(store: MemoryStore, p: ProviderResult)
    requires
        store.wf(),
    ensures
        ({
            let run = ingest_of(store.rows(), store.capacity(), entries_view(p), p.fetched_at);
            &&& run.failure is None ==> run.seen == p.entries.len() && run.skipped == invalid_count(
                entries_view(p),
                p.fetched_at,
            )
            &&& (distinct_valid_keys(entries_view(p), p.fetched_at) && store.rows().len()
                + valid_rows(entries_view(p), p.fetched_at).len() <= store.capacity() && (forall|
                j: int|
                0 <= j < p.entries.len() && (#[trigger] normalized(entries_view(p)[j], p.fetched_at)) is Ok
                    ==> !has_key(store.rows(), normalized(entries_view(p)[j], p.fetched_at)->Ok_0)))
                ==> run.failure is None && run.seen == p.entries.len() && run.skipped
                == invalid_count(entries_view(p), p.fetched_at) && run.written == p.entries.len()
                - run.skipped && run.rows == store.rows() + valid_rows(entries_view(p), p.fetched_at)
        }),
{
    let ents = entries_view(p);
    let n = ents.len() as int;
    if ingest_of(store.rows(), store.capacity(), ents, p.fetched_at).failure is None {
        lemma_counts_when_complete(store.rows(), store.capacity(), ents, n, p.fetched_at);
    }
    lemma_valid_upto_origin(ents, n, p.fetched_at);
    if distinct_valid_keys(ents, p.fetched_at) && store.rows().len() + valid_rows(ents, p.fetched_at).len()
        <= store.capacity() && (forall|j: int|
        0 <= j < p.entries.len() && (#[trigger] normalized(ents[j], p.fetched_at)) is Ok
            ==> !has_key(store.rows(), normalized(ents[j], p.fetched_at)->Ok_0)) {
        lemma_fresh_keys_all_inserted(store.rows(), store.capacity(), ents, n, p.fetched_at);
        lemma_counts_when_complete(store.rows(), store.capacity(), ents, n, p.fetched_at);
    }
}

/// Finishes a run once the provider has answered: a failed fetch is returned
/// as it is and writes nothing, a payload is ingested.
pub fn ingest_fetched(fetched: &Result<ProviderResult, FetchError>, store: &mut MemoryStore) -> (r:
    Result<IngestionSummary, IngestionError>)
    requires
        old(store).wf(),
    ensures
        final(store).wf(),
        final(store).capacity() == old(store).capacity(),
        match fetched {
            Err(e) => r == Err::<IngestionSummary, IngestionError>(IngestionError::Fetch(*e))
                && final(store).rows() == old(store).rows(),
            Ok(p) => {
                let run = ingest_of(old(store).rows(), old(store).capacity(), entries_view(*p), p.fetched_at);
                &&& final(store).rows() == run.rows
                &&& r == outcome_of(run)
            },
        },
{
    match fetched {
        Err(e) => Err(IngestionError::Fetch(*e)),
        Ok(p) => ingest(p, store),
    }
}

/// Refreshes today's short positions: rejects any selector but `all` before
/// touching the provider or the store, then fetches once and ingests.
pub fn add_today_data<P: Provider>(selector: &Vec<String>, provider: &P, store: &mut MemoryStore) -> (r: Result<IngestionSummary, IngestionError>)
    requires
        old(store).wf(),
    ensures
        final(store).wf(),
        final(store).capacity() == old(store).capacity(),
        !selects_all(selector@.map_values(|s: String| s@)) ==> r == Err::<IngestionSummary, IngestionError>(IngestionError::UnsupportedSelector)
            && final(store).rows() == old(store).rows(),
        selects_all(selector@.map_values(|s: String| s@)) ==> r != Err::<IngestionSummary, IngestionError>(IngestionError::UnsupportedSelector),
        r matches Err(IngestionError::Fetch(_)) ==> final(store).rows() == old(store).rows(),
        selects_all(selector@.map_values(|s: String| s@)) && !(r matches Err(IngestionError::Fetch(_))) ==> exists|p: ProviderResult|
            #[trigger] completes(old(store).rows(), old(store).capacity(), p, final(store).rows(), r),
{
    if !is_all_selector(selector) {
        return Err(IngestionError::UnsupportedSelector);
    }
    let fetched = provider.fetch_today();
    let r = ingest_fetched(&fetched, store);
    proof {
        if let Ok(p) = fetched {
            assert(completes(old(store).rows(), old(store).capacity(), p, store.rows(), r));
        }
    }
    r
}

} // verus!
