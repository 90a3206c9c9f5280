use finance_data_harvester::feeder::{
    add_today_data, ingest, ingest_fetched, is_all_selector, CannedProvider, FetchError,
    IngestionError, IngestionSummary, Provider, ProviderResult,
};
use finance_data_harvester::record::{
    is_valid_date, normalize, trimmed, Date, RawDisclosure, RecordError, ShortPositionRecord,
};
use finance_data_harvester::store::{MemoryStore, StorageError, UpsertOutcome};
use std::cell::Cell;

fn date(year: u16, month: u8, day: u8) -> Date {
    Date { year, month, day }
}

fn raw(ticker: &str, holder: &str, d: Date, pct: i64) -> RawDisclosure {
    RawDisclosure {
        ticker: ticker.to_string(),
        holder: holder.to_string(),
        date: d,
        pct_hundredths: pct,
    }
}

fn payload(entries: Vec<RawDisclosure>, ts: u64) -> ProviderResult {
    ProviderResult {
        entries,
        source: "https://www.cnmv.es".to_string(),
        fetched_at: ts,
    }
}

fn all() -> Vec<String> {
    vec!["all".to_string()]
}

struct CountingProvider {
    calls: Cell<usize>,
    answer: Result<ProviderResult, FetchError>,
}

impl Provider for CountingProvider {
    fn fetch_today(&self) -> Result<ProviderResult, FetchError> {
        self.calls.set(self.calls.get() + 1);
        self.answer.clone()
    }
}

#[test]
fn trims_unicode_white_space() {
    assert_eq!(trimmed("  IBE \t"), "IBE");
    assert_eq!(trimmed("\u{a0}X Capital\u{3000}"), "X Capital");
    assert_eq!(trimmed("a b"), "a b");
    assert_eq!(trimmed(" \n "), "");
    assert_eq!(trimmed(""), "");
}

#[test]
fn calendar_dates() {
    assert!(is_valid_date(date(2024, 2, 29)));
    assert!(!is_valid_date(date(2025, 2, 29)));
    assert!(is_valid_date(date(2000, 2, 29)));
    assert!(!is_valid_date(date(1900, 2, 29)));
    assert!(!is_valid_date(date(2025, 4, 31)));
    assert!(is_valid_date(date(2025, 12, 31)));
    assert!(!is_valid_date(date(2025, 13, 1)));
    assert!(!is_valid_date(date(2025, 1, 0)));
    assert!(!is_valid_date(date(2025, 0, 10)));
}

#[test]
fn normalization_errors() {
    let d = date(2025, 1, 10);
    assert_eq!(normalize(&raw("  ", "X", d, 1), 0).err(), Some(RecordError::EmptyTicker));
    assert_eq!(normalize(&raw("IBE", "\t", d, 1), 0).err(), Some(RecordError::EmptyHolder));
    assert_eq!(
        normalize(&raw("IBE", "X", date(2025, 2, 30), 1), 0).err(),
        Some(RecordError::InvalidDate)
    );
    assert_eq!(
        normalize(&raw("IBE", "X", d, 15000), 0).err(),
        Some(RecordError::PercentOutOfRange)
    );
    assert_eq!(normalize(&raw("IBE", "X", d, -1), 0).err(), Some(RecordError::PercentOutOfRange));
}

#[test]
fn normalization_trims_and_stamps() {
    let rec = normalize(&raw(" IBE ", " X Capital", date(2025, 1, 10), 10000), 77).unwrap();
    assert_eq!(rec.ticker, "IBE");
    assert_eq!(rec.holder, "X Capital");
    assert_eq!(rec.date, date(2025, 1, 10));
    assert_eq!(rec.pct_hundredths, 10000);
    assert_eq!(rec.source_ts, 77);
    let zero = normalize(&raw("IBE", "Y", date(2025, 1, 10), 0), 1).unwrap();
    assert_eq!(zero.pct_hundredths, 0);
}

fn record(ticker: &str, holder: &str, pct: u32, ts: u64) -> ShortPositionRecord {
    ShortPositionRecord {
        ticker: ticker.to_string(),
        holder: holder.to_string(),
        date: date(2025, 1, 10),
        pct_hundredths: pct,
        source_ts: ts,
    }
}

#[test]
fn upsert_inserts_updates_and_keeps() {
    let mut store = MemoryStore::with_capacity(10);
    assert_eq!(store.upsert_short_position(record("IBE", "X", 320, 1)), Ok(UpsertOutcome::Inserted));
    assert_eq!(store.upsert_short_position(record("IBE", "X", 320, 2)), Ok(UpsertOutcome::Unchanged));
    assert_eq!(store.len(), 1);
    assert_eq!(store.get(&"IBE".to_string(), &"X".to_string(), date(2025, 1, 10)).unwrap().source_ts, 1);
    assert_eq!(store.upsert_short_position(record("IBE", "X", 350, 3)), Ok(UpsertOutcome::Updated));
    let row = store.get(&"IBE".to_string(), &"X".to_string(), date(2025, 1, 10)).unwrap();
    assert_eq!(row.pct_hundredths, 350);
    assert_eq!(row.source_ts, 3);
    assert_eq!(store.upsert_short_position(record("IBE", "Y", 100, 3)), Ok(UpsertOutcome::Inserted));
    assert_eq!(store.len(), 2);
    assert!(store.get(&"SAN".to_string(), &"X".to_string(), date(2025, 1, 10)).is_none());
}

#[test]
fn upsert_refuses_beyond_capacity() {
    let mut store = MemoryStore::with_capacity(1);
    assert_eq!(store.upsert_short_position(record("IBE", "X", 320, 1)), Ok(UpsertOutcome::Inserted));
    assert_eq!(
        store.upsert_short_position(record("SAN", "X", 100, 1)),
        Err(StorageError::CapacityExceeded)
    );
    assert_eq!(store.upsert_short_position(record("IBE", "X", 330, 2)), Ok(UpsertOutcome::Updated));
    assert_eq!(store.len(), 1);
}

#[test]
fn selector_must_be_exactly_all() {
    assert!(is_all_selector(&all()));
    assert!(!is_all_selector(&vec![]));
    assert!(!is_all_selector(&vec!["ALL".to_string()]));
    assert!(!is_all_selector(&vec!["IBE".to_string()]));
    assert!(!is_all_selector(&vec!["all".to_string(), "IBE".to_string()]));
}

#[test]
fn unsupported_selector_touches_nothing() {
    let provider = CountingProvider {
        calls: Cell::new(0),
        answer: Ok(payload(vec![raw("IBE", "X", date(2025, 1, 10), 320)], 1)),
    };
    let mut store = MemoryStore::with_capacity(10);
    for sel in [vec![], vec!["IBE".to_string()], vec!["all".to_string(), "all".to_string()]] {
        assert_eq!(
            add_today_data(&sel, &provider, &mut store),
            Err(IngestionError::UnsupportedSelector)
        );
    }
    assert_eq!(provider.calls.get(), 0);
    assert_eq!(store.len(), 0);
    assert!(add_today_data(&all(), &provider, &mut store).is_ok());
    assert_eq!(provider.calls.get(), 1);
    assert_eq!(store.len(), 1);
}

#[test]
fn fetch_failure_writes_nothing() {
    let mut store = MemoryStore::with_capacity(10);
    let provider = CannedProvider { payload: Err(FetchError::Unavailable) };
    assert_eq!(
        add_today_data(&all(), &provider, &mut store),
        Err(IngestionError::Fetch(FetchError::Unavailable))
    );
    assert_eq!(
        ingest_fetched(&Err(FetchError::ParseFailure), &mut store),
        Err(IngestionError::Fetch(FetchError::ParseFailure))
    );
    assert_eq!(store.len(), 0);
}

#[test]
fn invalid_record_is_skipped_not_fatal() {
    let holders = ["A", "B", "C", "D", "E", "F", "G", "H", "I"];
    let mut entries = Vec::new();
    for (i, h) in holders.iter().enumerate() {
        entries.push(raw("IBE", h, date(2025, 1, 10), 100 + i as i64));
        if i == 4 {
            entries.push(raw("IBE", "Bad Fund", date(2025, 1, 10), 15000));
        }
    }
    let mut store = MemoryStore::with_capacity(100);
    let summary = ingest(&payload(entries, 5), &mut store).unwrap();
    assert_eq!(
        summary,
        IngestionSummary { records_seen: 10, records_written: 9, records_skipped: 1 }
    );
    assert_eq!(store.len(), 9);
    assert!(store.get(&"IBE".to_string(), &"Bad Fund".to_string(), date(2025, 1, 10)).is_none());
}

#[test]
fn same_payload_twice_writes_nothing_the_second_time() {
    let p = payload(
        vec![
            raw("IBE", "X Capital", date(2025, 1, 10), 320),
            raw("SAN", "X Capital", date(2025, 1, 10), 51),
            raw("SAN", "Y Fund", date(2025, 1, 10), 75),
            raw("", "Z", date(2025, 1, 10), 75),
        ],
        9,
    );
    let mut store = MemoryStore::with_capacity(10);
    let first = ingest(&p, &mut store).unwrap();
    assert_eq!(first, IngestionSummary { records_seen: 4, records_written: 3, records_skipped: 1 });
    let second = ingest(&p, &mut store).unwrap();
    assert_eq!(second, IngestionSummary { records_seen: 4, records_written: 0, records_skipped: 1 });
    assert_eq!(store.len(), 3);
}

#[test]
fn concrete_insert_keep_update() {
    let mut store = MemoryStore::with_capacity(10);
    let first = CannedProvider {
        payload: Ok(payload(vec![raw("IBE", "X Capital", date(2025, 1, 10), 320)], 100)),
    };
    let s1 = add_today_data(&all(), &first, &mut store).unwrap();
    assert_eq!(s1, IngestionSummary { records_seen: 1, records_written: 1, records_skipped: 0 });
    let s2 = add_today_data(&all(), &first, &mut store).unwrap();
    assert_eq!(s2, IngestionSummary { records_seen: 1, records_written: 0, records_skipped: 0 });
    let third = CannedProvider {
        payload: Ok(payload(vec![raw("IBE", "X Capital", date(2025, 1, 10), 350)], 200)),
    };
    let s3 = add_today_data(&all(), &third, &mut store).unwrap();
    assert_eq!(s3, IngestionSummary { records_seen: 1, records_written: 1, records_skipped: 0 });
    assert_eq!(store.len(), 1);
    let row = store.get(&"IBE".to_string(), &"X Capital".to_string(), date(2025, 1, 10)).unwrap();
    assert_eq!(row.pct_hundredths, 350);
    assert_eq!(row.source_ts, 200);
}

#[test]
fn storage_failure_aborts_the_rest() {
    let p = payload(
        vec![
            raw("IBE", "A", date(2025, 1, 10), 1),
            raw("IBE", "B", date(2025, 1, 10), 2),
            raw("IBE", "C", date(2025, 1, 10), 3),
        ],
        1,
    );
    let mut store = MemoryStore::with_capacity(1);
    assert_eq!(ingest(&p, &mut store), Err(IngestionError::Storage(StorageError::CapacityExceeded)));
    assert_eq!(store.len(), 1);
    assert!(store.get(&"IBE".to_string(), &"A".to_string(), date(2025, 1, 10)).is_some());
    assert!(store.get(&"IBE".to_string(), &"C".to_string(), date(2025, 1, 10)).is_none());
}

#[test]
fn empty_payload_is_valid() {
    let mut store = MemoryStore::with_capacity(0);
    let s = ingest(&payload(vec![], 1), &mut store).unwrap();
    assert_eq!(s, IngestionSummary { records_seen: 0, records_written: 0, records_skipped: 0 });
}

#[test]
fn repeated_key_last_entry_wins() {
    let p = payload(
        vec![
            raw(" IBE", "X Capital", date(2025, 1, 10), 320),
            raw("IBE", "X Capital", date(2025, 1, 10), 350),
        ],
        4,
    );
    let mut store = MemoryStore::with_capacity(10);
    let first = ingest(&p, &mut store).unwrap();
    assert_eq!(first, IngestionSummary { records_seen: 2, records_written: 1, records_skipped: 0 });
    let row = store.get(&"IBE".to_string(), &"X Capital".to_string(), date(2025, 1, 10)).unwrap();
    assert_eq!(row.pct_hundredths, 350);
    let second = ingest(&p, &mut store).unwrap();
    assert_eq!(second, IngestionSummary { records_seen: 2, records_written: 0, records_skipped: 0 });
    assert_eq!(store.len(), 1);
}

#[test]
fn later_invalid_entry_does_not_hide_a_valid_one() {
    let p = payload(
        vec![
            raw("IBE", "X Capital", date(2025, 1, 10), 320),
            raw("IBE", "X Capital", date(2025, 1, 10), 15000),
        ],
        4,
    );
    let mut store = MemoryStore::with_capacity(10);
    let s = ingest(&p, &mut store).unwrap();
    assert_eq!(s, IngestionSummary { records_seen: 2, records_written: 1, records_skipped: 1 });
    let row = store.get(&"IBE".to_string(), &"X Capital".to_string(), date(2025, 1, 10)).unwrap();
    assert_eq!(row.pct_hundredths, 320);
}

#[test]
fn nine_valid_fit_exactly_with_one_invalid() {
    let holders = ["A", "B", "C", "D", "E", "F", "G", "H", "I"];
    let mut entries = vec![raw("IBE", "Bad Fund", date(2025, 1, 10), 15000)];
    for (i, h) in holders.iter().enumerate() {
        entries.push(raw("SAN", h, date(2025, 1, 10), 200 + i as i64));
    }
    let mut store = MemoryStore::with_capacity(9);
    let provider = CannedProvider { payload: Ok(payload(entries, 6)) };
    let s = add_today_data(&all(), &provider, &mut store).unwrap();
    assert_eq!(s, IngestionSummary { records_seen: 10, records_written: 9, records_skipped: 1 });
    assert_eq!(store.len(), 9);
}
