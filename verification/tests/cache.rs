use pebbledb::cache::{cache_key, CacheStats, PebbleCache, Ttl};
use pebbledb::db::{DbOptions, DbStats};
use pebbledb::disk::Directory;
use pebbledb::error::{PebbleError, Result};
use std::cell::{Cell, RefCell};
use std::rc::Rc;
use std::time::Duration;

/// A directory that one cache after another is opened in.
#[derive(Clone)]
struct Disk(Rc<RefCell<Directory>>);

impl Disk {
    fn new() -> Self {
        Disk(Rc::new(RefCell::new(Directory::new())))
    }
}

/// A cache on a clock of its own, whose file operations are carried out after each call.
struct Cache {
    disk: Disk,
    cache: RefCell<PebbleCache>,
    now_ms: Cell<u64>,
}

impl Cache {
    fn over(disk: &Disk, opened: Result<PebbleCache>) -> Result<Cache> {
        disk.0.borrow_mut().take_ops();
        opened.map(|cache| Cache {
            disk: disk.clone(),
            cache: RefCell::new(cache),
            now_ms: Cell::new(1_700_000_000_000),
        })
    }

    fn open(disk: &Disk) -> Result<Cache> {
        let opened = PebbleCache::open(&mut disk.0.borrow_mut());
        Cache::over(disk, opened)
    }

    fn open_with_options(disk: &Disk, options: DbOptions) -> Result<Cache> {
        let opened = PebbleCache::open_with_options(&mut disk.0.borrow_mut(), options);
        Cache::over(disk, opened)
    }

    fn settle<T>(&self, result: T) -> T {
        for op in self.cache.borrow_mut().db.take_ops() {
            self.disk.0.borrow_mut().apply(&op);
        }
        result
    }

    fn sleep(&self, time: Duration) {
        self.now_ms.set(self.now_ms.get() + time.as_millis() as u64);
    }

    fn set(&self, key: &str, value: &str, ttl: Duration) -> Result<()> {
        let ttl = if ttl.is_zero() { Ttl::Forever } else { Ttl::Millis(ttl.as_millis() as u64) };
        let result = self.cache.borrow_mut().set(key, value, ttl, self.now_ms.get());
        self.settle(result)
    }

    fn get(&self, key: &str) -> Result<Option<String>> {
        let result = self.cache.borrow_mut().get(key, self.now_ms.get());
        self.settle(result)
    }

    fn delete(&self, key: &str) -> Result<bool> {
        let result = self.cache.borrow_mut().delete(key);
        self.settle(result)
    }

    fn contains_key(&self, key: &str) -> Result<bool> {
        let result = self.cache.borrow_mut().contains_key(key, self.now_ms.get());
        self.settle(result)
    }

    fn clear(&self) -> Result<()> {
        let result = self.cache.borrow_mut().clear();
        self.settle(result)
    }

    fn stats(&self) -> CacheStats {
        self.cache.borrow().stats()
    }

    fn close(self) -> Result<()> {
        for op in self.cache.into_inner().close()? {
            self.disk.0.borrow_mut().apply(&op);
        }
        Ok(())
    }

    fn db_set(&self, key: String, value: String) -> Result<()> {
        let result = self.cache.borrow_mut().db.set(key, value);
        self.settle(result)
    }

    fn db_get(&self, key: &str) -> Option<String> {
        self.cache.borrow_mut().db.get(key)
    }

    fn db_stats(&self) -> DbStats {
        self.cache.borrow().db.stats()
    }
}

fn cache(threshold: usize) -> (Disk, Cache) {
    let dir = Disk::new();
    let options = DbOptions {
        flush_threshold: threshold,
        ..DbOptions::default()
    };
    let cache = Cache::open_with_options(&dir, options).unwrap();
    (dir, cache)
}

#[test]
fn set_and_get_returns_the_stored_value() {
    let (_dir, cache) = cache(100);
    cache.set("greeting", "hello", Duration::ZERO).unwrap();
    assert_eq!(cache.get("greeting").unwrap(), Some("hello".into()));
}

#[test]
fn get_of_unknown_key_is_a_miss() {
    let (_dir, cache) = cache(100);
    assert_eq!(cache.get("missing").unwrap(), None);
    let stats = cache.stats();
    assert_eq!(stats.misses, 1);
    assert_eq!(stats.hits, 0);
}

#[test]
fn set_overwrites_the_previous_value() {
    let (_dir, cache) = cache(100);
    cache.set("k", "old", Duration::ZERO).unwrap();
    cache.set("k", "new", Duration::ZERO).unwrap();
    assert_eq!(cache.get("k").unwrap(), Some("new".into()));
    assert_eq!(cache.stats().sets, 2);
}

#[test]
fn values_may_contain_colons() {
    let (_dir, cache) = cache(100);
    cache
        .set("url", "http://example.com", Duration::ZERO)
        .unwrap();
    assert_eq!(cache.get("url").unwrap(), Some("http://example.com".into()));
}

#[test]
fn delete_removes_the_entry() {
    let (_dir, cache) = cache(100);
    cache.set("k", "v", Duration::ZERO).unwrap();
    assert!(cache.delete("k").unwrap());
    assert_eq!(cache.get("k").unwrap(), None);
    assert_eq!(cache.stats().deletes, 1);
}

#[test]
fn delete_of_unknown_key_reports_false() {
    let (_dir, cache) = cache(100);
    assert!(!cache.delete("missing").unwrap());
}

#[test]
fn exists_follows_get() {
    let (_dir, cache) = cache(100);
    cache.set("k", "v", Duration::ZERO).unwrap();
    assert!(cache.contains_key("k").unwrap());
    cache.delete("k").unwrap();
    assert!(!cache.contains_key("k").unwrap());
}

#[test]
fn entries_without_ttl_never_expire() {
    let (_dir, cache) = cache(100);
    cache.db_set(cache_key("k"), "0:still-here".into()).unwrap();
    assert_eq!(cache.get("k").unwrap(), Some("still-here".into()));
    assert_eq!(cache.stats().expired, 0);
}

#[test]
fn expired_entry_is_removed_on_get() {
    let (_dir, cache) = cache(100);
    cache.db_set(cache_key("k"), "1:stale".into()).unwrap();

    assert_eq!(cache.get("k").unwrap(), None);
    assert_eq!(cache.db_get(&cache_key("k")), None);
    let stats = cache.stats();
    assert_eq!(stats.expired, 1);
    assert_eq!(stats.misses, 1);
}

#[test]
fn ttl_expires_with_real_time() {
    let (_dir, cache) = cache(100);
    cache.set("k", "v", Duration::from_millis(20)).unwrap();
    assert_eq!(cache.get("k").unwrap(), Some("v".into()));
    cache.sleep(Duration::from_millis(40));
    assert_eq!(cache.get("k").unwrap(), None);
    assert_eq!(cache.stats().expired, 1);
}

#[test]
fn expired_entry_is_invisible_to_exists() {
    let (_dir, cache) = cache(100);
    cache.db_set(cache_key("k"), "1:stale".into()).unwrap();
    assert!(!cache.contains_key("k").unwrap());
    assert_eq!(cache.db_get(&cache_key("k")), None);
}

#[test]
fn malformed_entry_reports_corruption() {
    let (_dir, cache) = cache(100);
    cache.db_set(cache_key("k"), "not-an-entry".into()).unwrap();
    assert!(matches!(
        cache.get("k"),
        Err(PebbleError::CacheCorruption(_))
    ));
}

#[test]
fn statistics_track_each_operation() {
    let (_dir, cache) = cache(100);
    cache.set("a", "1", Duration::ZERO).unwrap();
    cache.set("b", "2", Duration::ZERO).unwrap();
    assert_eq!(cache.get("a").unwrap(), Some("1".into()));
    assert_eq!(cache.get("nope").unwrap(), None);
    cache.delete("b").unwrap();

    let stats = cache.stats();
    assert_eq!(stats.sets, 2);
    assert_eq!(stats.hits, 1);
    assert_eq!(stats.misses, 1);
    assert_eq!(stats.deletes, 1);
}

#[test]
fn clear_removes_cache_entries_but_not_ordinary_keys() {
    let (_dir, cache) = cache(100);
    cache.set("a", "1", Duration::ZERO).unwrap();
    cache.set("b", "2", Duration::ZERO).unwrap();
    cache.db_set("regular".into(), "kept".into()).unwrap();
    cache.db_set("cachez:other".into(), "kept".into()).unwrap();

    cache.clear().unwrap();

    assert_eq!(cache.get("a").unwrap(), None);
    assert_eq!(cache.get("b").unwrap(), None);
    assert_eq!(cache.db_get("regular"), Some("kept".into()));
    assert_eq!(cache.db_get("cachez:other"), Some("kept".into()));
    assert_eq!(cache.stats().clears, 1);
}

#[test]
fn cache_entries_live_under_the_expected_prefix() {
    let (_dir, cache) = cache(100);
    cache.set("key", "value", Duration::ZERO).unwrap();
    assert_eq!(cache.db_get("key"), None);
    assert!(cache.db_get("cache:key").is_some());
}

#[test]
fn cache_survives_reopening_the_database() {
    let path = Disk::new();

    {
        let cache = Cache::open(&path).unwrap();
        cache.set("persisted", "value", Duration::ZERO).unwrap();
        cache
            .set("temporary", "value", Duration::from_millis(5))
            .unwrap();
    }

    {
        let cache = Cache::open(&path).unwrap();
        assert_eq!(cache.get("persisted").unwrap(), Some("value".into()));
        cache.sleep(Duration::from_millis(20));
        assert_eq!(cache.get("temporary").unwrap(), None);
    }
}

#[test]
fn cache_survives_a_flush_to_sstable() {
    let path = Disk::new();
    let cache = Cache::open_with_options(
        &path,
        DbOptions {
            flush_threshold: 2,
            ..DbOptions::default()
        },
    )
    .unwrap();

    cache.set("a", "1", Duration::ZERO).unwrap();
    cache.set("b", "2", Duration::ZERO).unwrap();
    assert_eq!(cache.db_stats().sst_count, 1);
    assert_eq!(cache.get("a").unwrap(), Some("1".into()));

    cache.close().unwrap();

    let reopened = Cache::open(&path).unwrap();
    assert_eq!(reopened.get("a").unwrap(), Some("1".into()));
    assert_eq!(reopened.get("b").unwrap(), Some("2".into()));
}

/// Four users that take turns.
#[test]
fn concurrent_access_is_safe() {
    let (_dir, cache) = cache(10_000);

    for i in 0..50 {
        for user in 0..4 {
            let key = format!("t{}_{}", user, i);
            cache.set(&key, "value", Duration::ZERO).unwrap();
            assert_eq!(cache.get(&key).unwrap(), Some("value".into()));
        }
    }

    let stats = cache.stats();
    assert_eq!(stats.sets, 200);
    assert_eq!(stats.hits, 200);
}

#[test]
fn expiration_is_the_moment_of_storing_plus_the_time_to_live() {
    let (_dir, cache) = cache(100);
    cache.set("k", "v", Duration::from_millis(20)).unwrap();
    assert_eq!(cache.db_get("cache:k"), Some("1700000000020:v".into()));
    cache.sleep(Duration::from_millis(19));
    assert_eq!(cache.get("k").unwrap(), Some("v".into()));
    cache.sleep(Duration::from_millis(1));
    assert_eq!(cache.get("k").unwrap(), None);
    assert_eq!(cache.db_get("cache:k"), None);
}

#[test]
fn clear_counts_what_it_deletes() {
    let (_dir, cache) = cache(100);
    cache.set("a", "1", Duration::ZERO).unwrap();
    cache.set("b", "2", Duration::ZERO).unwrap();
    cache.db_set("cachf".into(), "kept".into()).unwrap();
    cache.db_set("cache".into(), "kept".into()).unwrap();
    cache.clear().unwrap();
    assert_eq!((cache.stats().deletes, cache.stats().clears), (2, 1));
    assert_eq!(cache.db_get("cachf"), Some("kept".into()));
    assert_eq!(cache.db_get("cache"), Some("kept".into()));
}
