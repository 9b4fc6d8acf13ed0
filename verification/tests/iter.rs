use pebbledb::db::MemtableEntry;
use pebbledb::iter::{
    Bound, MemtableIterator, MergeIterator, RangeIterator, SSTableIterator, SourceIterator, StorageIterator,
};
use pebbledb::keymap::KeyMap;
use pebbledb::sstable::{SSTable, SSTableEntry};
use std::sync::Arc;

fn pairs(entries: &[(&str, Option<&str>)]) -> Vec<(String, Option<String>)> {
    entries
        .iter()
        .map(|(key, value)| ((*key).to_string(), value.map(str::to_string)))
        .collect()
}

fn memtable(entries: &[(&str, Option<&str>)]) -> KeyMap<MemtableEntry> {
    let mut map = KeyMap::new();
    for (key, value) in entries {
        let entry = match value {
            Some(value) => MemtableEntry::Value((*value).to_string()),
            None => MemtableEntry::Tombstone,
        };
        map.insert((*key).to_string(), entry);
    }
    map
}

fn memtable_iter(entries: &[(&str, Option<&str>)]) -> MemtableIterator {
    MemtableIterator::new(&memtable(entries))
}

fn sstable(block_size: u32, entries: &[(&str, Option<&str>)]) -> Arc<SSTable> {
    let mut map: KeyMap<SSTableEntry> = KeyMap::new();
    for (key, value) in entries {
        let entry = match value {
            Some(value) => SSTableEntry::Value((*value).to_string()),
            None => SSTableEntry::Tombstone,
        };
        map.insert((*key).to_string(), entry);
    }
    let data = SSTable::write_sstable_with_block_size(&map, block_size).unwrap();
    Arc::new(SSTable::load(0, "table.sst".to_string(), data).unwrap())
}

fn sstable_iterator(block_size: u32, entries: &[(&str, Option<&str>)]) -> SSTableIterator {
    SSTableIterator::new(sstable(block_size, entries))
}

fn drain(iter: &mut impl StorageIterator) -> Vec<(String, Option<String>)> {
    let mut result = Vec::new();
    while iter.valid() {
        result.push((
            iter.key().unwrap().to_string(),
            iter.value().map(str::to_string),
        ));
        iter.advance();
    }
    result
}

#[test]
fn memtable_iterates_in_key_order() {
    let mut iter = memtable_iter(&[("c", Some("3")), ("a", Some("1")), ("b", Some("2"))]);
    iter.seek_to_first();
    assert_eq!(
        drain(&mut iter),
        pairs(&[("a", Some("1")), ("b", Some("2")), ("c", Some("3"))])
    );
}

#[test]
fn memtable_keeps_only_latest_value_per_key() {
    let mut iter = memtable_iter(&[("a", Some("old")), ("a", Some("new")), ("b", Some("2"))]);
    iter.seek_to_first();
    assert_eq!(
        drain(&mut iter),
        pairs(&[("a", Some("new")), ("b", Some("2"))])
    );
}

#[test]
fn memtable_reports_tombstone() {
    let mut iter = memtable_iter(&[("a", Some("1")), ("b", None)]);
    iter.seek_to_first();
    assert_eq!(drain(&mut iter), pairs(&[("a", Some("1")), ("b", None)]));
}

#[test]
fn memtable_seek_variants() {
    let mut iter = memtable_iter(&[("b", Some("2")), ("d", Some("4"))]);

    iter.seek("b");
    assert_eq!((iter.key(), iter.value()), (Some("b"), Some("2")));

    iter.seek("c");
    assert_eq!((iter.key(), iter.value()), (Some("d"), Some("4")));

    iter.seek("a");
    assert_eq!(iter.key(), Some("b"));

    iter.seek("z");
    assert!(!iter.valid());
    assert_eq!(iter.key(), None);
    assert_eq!(iter.value(), None);
}

#[test]
fn memtable_advance_past_end_stays_invalid() {
    let mut iter = memtable_iter(&[("a", Some("1"))]);
    iter.seek_to_first();
    iter.advance();
    assert!(!iter.valid());
    iter.advance();
    assert!(!iter.valid());
}

#[test]
fn memtable_empty() {
    let mut iter = memtable_iter(&[]);
    iter.seek_to_first();
    assert!(!iter.valid());
    assert_eq!(iter.key(), None);
}

#[test]
fn sstable_iterates_all_blocks() {
    let keys: Vec<String> = (0..40).map(|i| format!("key_{:03}", i)).collect();
    let boxed: Vec<(&str, Option<&str>)> = keys
        .iter()
        .map(|key| (key.as_str(), Some("value")))
        .collect();
    let sst = sstable(64, &boxed);
    let mut iter = SSTableIterator::new(Arc::clone(&sst));
    assert!(sst.block_count() > 1);
    iter.seek_to_first();
    let drained = drain(&mut iter);
    assert_eq!(drained.len(), 40);
    assert_eq!(drained.first().unwrap().0, "key_000");
    assert_eq!(drained.last().unwrap().0, "key_039");
}

#[test]
fn sstable_seek_variants() {
    let mut iter = sstable_iterator(
        64,
        &[
            ("a", Some("1")),
            ("c", Some("3")),
            ("e", Some("5")),
            ("g", Some("7")),
        ],
    );

    iter.seek("a");
    assert_eq!(iter.key(), Some("a"));

    iter.seek("d");
    assert_eq!(iter.key(), Some("e"));

    iter.seek("f");
    assert_eq!((iter.key(), iter.value()), (Some("g"), Some("7")));

    iter.seek("z");
    assert!(!iter.valid());

    iter.seek("b");
    assert_eq!(iter.key(), Some("c"));
    iter.advance();
    assert_eq!(iter.key(), Some("e"));
}

#[test]
fn sstable_reports_tombstone() {
    let mut iter = sstable_iterator(64, &[("a", Some("1")), ("b", None)]);
    iter.seek("b");
    assert!(iter.valid());
    assert_eq!(iter.key(), Some("b"));
    assert_eq!(iter.value(), None);
}

#[test]
fn sstable_empty() {
    let mut iter = sstable_iterator(64, &[]);
    iter.seek_to_first();
    assert!(!iter.valid());
    iter.seek("a");
    assert!(!iter.valid());
    iter.advance();
    assert!(!iter.valid());
    assert_eq!(iter.key(), None);
}

#[test]
fn merge_prefers_newest_source() {
    let newest = memtable(&[("a", Some("new")), ("b", Some("2"))]);
    let older = memtable(&[("a", Some("old")), ("c", Some("3"))]);
    let children: Vec<SourceIterator> = vec![
        SourceIterator::Memtable(MemtableIterator::new(&newest)),
        SourceIterator::Memtable(MemtableIterator::new(&older)),
    ];
    let mut iter = MergeIterator::new(children);
    assert_eq!(
        drain(&mut iter),
        pairs(&[("a", Some("new")), ("b", Some("2")), ("c", Some("3"))])
    );
}

#[test]
fn merge_tombstone_hides_older_value() {
    let newest = memtable(&[("a", None), ("b", Some("2"))]);
    let older = memtable(&[("a", Some("old")), ("b", Some("stale"))]);
    let children: Vec<SourceIterator> = vec![
        SourceIterator::Memtable(MemtableIterator::new(&newest)),
        SourceIterator::Memtable(MemtableIterator::new(&older)),
    ];
    let mut iter = MergeIterator::new(children);
    assert_eq!(drain(&mut iter), pairs(&[("b", Some("2"))]));
}

#[test]
fn merge_hides_key_deleted_in_every_source() {
    let newest = memtable(&[("a", None)]);
    let older = memtable(&[("a", None)]);
    let children: Vec<SourceIterator> = vec![
        SourceIterator::Memtable(MemtableIterator::new(&newest)),
        SourceIterator::Memtable(MemtableIterator::new(&older)),
    ];
    let mut iter = MergeIterator::new(children);
    assert!(!iter.valid());
    assert_eq!(drain(&mut iter), pairs(&[]));
}

#[test]
fn merge_orders_interleaved_sources() {
    let newest = memtable(&[("b", Some("b"))]);
    let middle = sstable_iterator(
        64,
        &[("a", Some("a")), ("c", Some("middle")), ("e", Some("e"))],
    );
    let oldest = sstable_iterator(
        64,
        &[("c", Some("oldest")), ("d", Some("d"))],
    );
    let children: Vec<SourceIterator> = vec![
        SourceIterator::Memtable(MemtableIterator::new(&newest)),
        SourceIterator::Table(middle),
        SourceIterator::Table(oldest),
    ];
    let mut iter = MergeIterator::new(children);
    assert_eq!(
        drain(&mut iter),
        pairs(&[
            ("a", Some("a")),
            ("b", Some("b")),
            ("c", Some("middle")),
            ("d", Some("d")),
            ("e", Some("e")),
        ])
    );
}

#[test]
fn merge_seek_positions_every_source() {
    let newest = memtable(&[("b", Some("b")), ("d", Some("d"))]);
    let older = memtable(&[("a", Some("a")), ("c", Some("c"))]);
    let children: Vec<SourceIterator> = vec![
        SourceIterator::Memtable(MemtableIterator::new(&newest)),
        SourceIterator::Memtable(MemtableIterator::new(&older)),
    ];
    let mut iter = MergeIterator::new(children);

    iter.seek("c");
    assert_eq!((iter.key(), iter.value()), (Some("c"), Some("c")));
    iter.advance();
    assert_eq!(iter.key(), Some("d"));
    iter.advance();
    assert!(!iter.valid());
}

#[test]
fn merge_tombstone_shadowing_sstable_does_not_stop_iteration() {
    let newest = memtable(&[("a", None)]);
    let older = sstable_iterator(
        64,
        &[("a", Some("gone")), ("b", Some("kept"))],
    );
    let children: Vec<SourceIterator> =
        vec![SourceIterator::Memtable(MemtableIterator::new(&newest)), SourceIterator::Table(older)];
    let mut iter = MergeIterator::new(children);
    assert_eq!(drain(&mut iter), pairs(&[("b", Some("kept"))]));
}

fn range_iter(
    entries: &[(&str, Option<&str>)],
    start: Bound,
    end: Bound,
) -> RangeIterator<SourceIterator> {
    let source = memtable(entries);
    let children: Vec<SourceIterator> =
        vec![SourceIterator::Memtable(MemtableIterator::new(&source))];
    RangeIterator::new(MergeIterator::new(children), start, end)
}

fn bounds(start: Option<&str>, end: Option<&str>) -> (Bound, Bound) {
    (
        start.map_or(Bound::Unbounded, |key| Bound::Included(key.to_string())),
        end.map_or(Bound::Unbounded, |key| Bound::Excluded(key.to_string())),
    )
}

#[test]
fn range_applies_start_and_end_bounds() {
    let entries = [
        ("a", Some("1")),
        ("b", Some("2")),
        ("c", Some("3")),
        ("d", Some("4")),
    ];

    let (start, end) = bounds(Some("b"), Some("d"));
    let iter = range_iter(&entries, start, end);
    assert_eq!(
        iter.collect(),
        vec![
            ("b".to_string(), "2".to_string()),
            ("c".to_string(), "3".to_string()),
        ]
    );

    let (start, end) = bounds(Some("b"), None);
    let iter = range_iter(&entries, start, end);
    assert_eq!(iter.count(), 3);

    let (start, end) = bounds(None, Some("c"));
    let iter = range_iter(&entries, start, end);
    assert_eq!(iter.count(), 2);

    let (start, end) = bounds(None, None);
    let iter = range_iter(&entries, start, end);
    assert_eq!(iter.count(), 4);
}

#[test]
fn range_excluded_start_skips_the_key() {
    let entries = [("a", Some("1")), ("b", Some("2")), ("c", Some("3"))];
    let iter = range_iter(&entries, Bound::Excluded("a".to_string()), Bound::Unbounded);
    assert_eq!(
        iter.collect(),
        vec![
            ("b".to_string(), "2".to_string()),
            ("c".to_string(), "3".to_string()),
        ]
    );
}

#[test]
fn range_included_end_keeps_the_key() {
    let entries = [("a", Some("1")), ("b", Some("2")), ("c", Some("3"))];
    let iter = range_iter(&entries, Bound::Unbounded, Bound::Included("b".to_string()));
    assert_eq!(
        iter.collect(),
        vec![
            ("a".to_string(), "1".to_string()),
            ("b".to_string(), "2".to_string()),
        ]
    );
}

#[test]
fn range_seek_moves_within_bounds() {
    let entries = [
        ("a", Some("1")),
        ("b", Some("2")),
        ("c", Some("3")),
        ("d", Some("4")),
    ];
    let mut iter = range_iter(&entries, Bound::Unbounded, Bound::Excluded("d".to_string()));
    iter.seek("c");
    assert_eq!(iter.key(), Some("c"));
    assert_eq!(iter.next(), Some(("c".to_string(), "3".to_string())));
    assert_eq!(iter.next(), None);
}

#[test]
fn range_stays_within_its_start() {
    let entries = [("a", Some("1")), ("b", Some("2")), ("c", Some("3")), ("d", Some("4"))];

    let mut iter = range_iter(&entries, Bound::Included("b".to_string()), Bound::Unbounded);
    iter.advance();
    iter.seek_to_first();
    assert_eq!((iter.key(), iter.value()), (Some("b"), Some("2")));
    iter.seek("a");
    assert_eq!(iter.key(), Some("b"));
    iter.seek("c");
    assert_eq!(iter.key(), Some("c"));

    let mut iter = range_iter(&entries, Bound::Excluded("b".to_string()), Bound::Included("c".to_string()));
    iter.seek("b");
    assert_eq!(iter.key(), Some("c"));
    iter.seek_to_first();
    assert_eq!(iter.next(), Some(("c".to_string(), "3".to_string())));
    assert_eq!(iter.next(), None);
    iter.seek("a");
    assert_eq!(iter.collect(), vec![("c".to_string(), "3".to_string())]);
}

#[test]
fn range_whose_start_is_behind_its_end_is_empty() {
    let entries = [("a", Some("1")), ("b", Some("2")), ("c", Some("3"))];
    let mut iter = range_iter(&entries, Bound::Included("c".to_string()), Bound::Excluded("b".to_string()));
    assert!(!iter.valid());
    iter.seek_to_first();
    assert!(!iter.valid());
    iter.seek("a");
    assert!(!iter.valid());
    assert_eq!(iter.count(), 0);
}
