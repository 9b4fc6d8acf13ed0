//! A cache with expiration, kept in a database under a prefix of its own.
use crate::db::{default_options, is_read, outcome_of, written, DbModel, DbOptions, PebbleDB};
use crate::disk::{applied_all, ops_of, Directory, DiskOp};
use crate::engine::{contents, read_sources};
use crate::error::{PebbleError, Result};
use crate::iter::{Bound, StorageIterator};
use crate::keys::{group_key_order, key_lt, law_prefix_keys_stand_together};
use crate::levels::{levels_wf, value_of};
use crate::metrics::plus;
use crate::recovery::{opened, opening, opening_ops, Opening};
use crate::rows::{
    has_key, index_of_key, lemma_lower_bound, lemma_rows_get_at, live_rows, lower_bound, merge_rows, rows_get, sorted,
    Row,
};
use crate::safety::law_scan_is_the_contents;
use crate::steady::{coherent, law_write_gives_the_value};
use crate::text::{
    chars_of, decimal, decimal_string, find_char, first_index, has_prefix, lemma_first_index, lemma_first_index_bounds,
    parse_u64, parse_unsigned, starts_with, string_of, sub_chars,
};
use vstd::prelude::*;

verus! {

/// What the keys of the cache start with in the database.
pub const KEY_PREFIX: &'static str = "cache:";

/// The expiration time of an entry that never expires.
pub const NO_EXPIRATION: u64 = 0;

#[derive(Debug, Clone, Copy, Default, PartialEq, Eq)]
pub struct CacheStats {
    pub hits: u64,
    pub misses: u64,
    pub sets: u64,
    pub deletes: u64,
    pub expired: u64,
    pub clears: u64,
}

/// How long an entry lives.
#[derive(Debug, Clone, Copy, PartialEq, Eq)]
pub enum Ttl {
    Forever,
    Millis(u64),
}

/// A cache in a database.
pub struct PebbleCache {
    pub db: PebbleDB,
    pub counts: CacheStats,
}

/// The key of the database for a key of the cache.
pub open spec fn stored_key(key: Seq<char>) -> Seq<char> {
    "cache:"@ + key
}

/// How an entry is stored.
pub open spec fn entry_text(expires_at: u64, value: Seq<char>) -> Seq<char> {
    decimal(expires_at as nat) + seq![':'] + value
}

/// The expiration time and the value of an entry, or what is wrong with it.
pub open spec fn parse_entry(raw: Seq<char>) -> core::result::Result<(u64, Seq<char>), Seq<char>> {
    let at = first_index(raw, ':');
    if at == raw.len() {
        Err("entry has no expiration field: "@ + raw)
    } else {
        match parse_unsigned(raw.take(at), u64::MAX as nat) {
            Some(expires_at) => Ok((expires_at as u64, raw.skip(at + 1))),
            None => Err("invalid expiration field: "@ + raw.take(at)),
        }
    }
}

/// Whether an entry has expired at `now_ms`.
pub open spec fn expired_at(expires_at: u64, now_ms: u64) -> bool {
    expires_at != 0 && expires_at <= now_ms
}

/// When an entry that is stored at `now_ms` expires.
pub open spec fn expiration(ttl: Ttl, now_ms: u64) -> int {
    match ttl {
        Ttl::Forever => 0,
        Ttl::Millis(millis) => now_ms + millis,
    }
}

/// What is stored is what is found again.
pub proof fn law_entry_roundtrip(expires_at: u64, value: Seq<char>)
    ensures
        parse_entry(entry_text(expires_at, value)) == core::result::Result::<(u64, Seq<char>), Seq<char>>::Ok(
            (expires_at, value),
        ),
{
    let digits = decimal(expires_at as nat);
    let raw = entry_text(expires_at, value);
    crate::text::lemma_decimal_digits(expires_at as nat);
    crate::text::law_decimal_roundtrip(expires_at as nat, u64::MAX as nat);
    assert forall|i: int| 0 <= i < digits.len() implies raw[i] != ':' by {
        assert(raw[i] == digits[i]);
        assert(crate::text::is_digit(digits[i]));
    }
    assert(raw[digits.len() as int] == ':');
    lemma_first_index(raw, ':', digits.len() as int);
    assert(raw.take(digits.len() as int) =~= digits);
    assert(raw.skip(digits.len() as int + 1) =~= value);
}

/// Different keys of the cache are different keys of the database.
pub proof fn law_stored_keys_are_distinct(a: Seq<char>, b: Seq<char>)
    ensures
        stored_key(a) == stored_key(b) ==> a == b,
        starts_with(stored_key(a), "cache:"@),
{
    let n = "cache:"@.len() as int;
    assert(stored_key(a).skip(n) =~= a);
    assert(stored_key(b).skip(n) =~= b);
    assert(stored_key(a).take(n) =~= "cache:"@);
}

pub fn cache_key(key: &str) -> (stored: String)
    ensures
        stored@ == stored_key(key@),
{
    "cache:".to_owned().concat(key)
}

pub fn encode(expires_at: u64, value: &str) -> (text: String)
    ensures
        text@ == entry_text(expires_at, value@),
{
    proof {
        reveal_strlit(":");
        assert(":"@ =~= seq![':']);
    }
    decimal_string(expires_at).concat(":").concat(value)
}

pub fn decode(raw: &str) -> (result: Result<(u64, String)>)
    ensures
        match parse_entry(raw@) {
            Ok((expires_at, value)) => result matches Ok(entry) && entry.0 == expires_at && entry.1@ == value,
            Err(problem) => result matches Err(PebbleError::CacheCorruption(text)) && text@ == problem,
        },
{
    let chars = chars_of(raw);
    let at: usize = find_char(chars.as_slice(), 0, ':');
    proof {
        assert(raw@.skip(0) =~= raw@);
        lemma_first_index_bounds(raw@, ':');
    }
    if at == chars.len() {
        return Err(PebbleError::CacheCorruption("entry has no expiration field: ".to_owned().concat(raw)));
    }
    let field = sub_chars(chars.as_slice(), 0, at);
    proof {
        assert(field@ =~= raw@.take(at as int));
    }
    match parse_u64(field.as_slice()) {
        Some(expires_at) => {
            let value = string_of(chars.as_slice(), at + 1, chars.len());
            proof {
                assert(value@ =~= raw@.skip(at + 1));
            }
            Ok((expires_at, value))
        },
        None => {
            let text = string_of(chars.as_slice(), 0, at);
            proof {
                assert(text@ =~= raw@.take(at as int));
            }
            Err(PebbleError::CacheCorruption("invalid expiration field: ".to_owned().concat(text.as_str())))
        },
    }
}

pub fn is_expired(expires_at: u64, now_ms: u64) -> (expired: bool)
    ensures
        expired == expired_at(expires_at, now_ms),
{
    expires_at != NO_EXPIRATION && expires_at <= now_ms
}

/// What storing a value in the cache leaves and tells.
pub open spec fn cache_set(
    before: DbModel,
    counts: CacheStats,
    key: Seq<char>,
    value: Seq<char>,
    ttl: Ttl,
    now_ms: u64,
    after: DbModel,
    counted: CacheStats,
    result: Result<()>,
) -> bool {
    &&& written(before, (stored_key(key), Some(entry_text(expiration(ttl, now_ms) as u64, value))), after, result)
    &&& counted == (if result is Ok {
        CacheStats { sets: plus(counts.sets, 1), ..counts }
    } else {
        counts
    })
}

/// What deleting a key of the cache leaves and tells.
pub open spec fn cache_deleted(
    before: DbModel,
    counts: CacheStats,
    key: Seq<char>,
    after: DbModel,
    counted: CacheStats,
    result: Result<bool>,
) -> bool {
    &&& written(before, (stored_key(key), None), after, outcome_of(result))
    &&& result matches Ok(existed) ==> existed == (contents(before.memtable, before.tree.levels, stored_key(key)) is Some)
    &&& counted == (if result is Ok {
        CacheStats { deletes: plus(counts.deletes, 1), ..counts }
    } else {
        counts
    })
}

/// What a read of the cache leaves and tells.
pub open spec fn cache_read(
    before: DbModel,
    counts: CacheStats,
    key: Seq<char>,
    now_ms: u64,
    after: DbModel,
    counted: CacheStats,
    result: Result<Option<String>>,
) -> bool {
    let stored = stored_key(key);
    exists|read: DbModel| #[trigger]
        is_read(before, stored, read) && match contents(before.memtable, before.tree.levels, stored) {
            None => {
                &&& result matches Ok(None)
                &&& after == read
                &&& counted == (CacheStats { misses: plus(counts.misses, 1), ..counts })
            },
            Some(raw) => match parse_entry(raw) {
                Err(problem) => {
                    &&& result matches Err(PebbleError::CacheCorruption(text)) && text@ == problem
                    &&& after == read
                    &&& counted == counts
                },
                Ok((expires_at, value)) => if expired_at(expires_at, now_ms) {
                    &&& written(read, (stored, None), after, outcome_of(result))
                    &&& match result {
                        Ok(found) => found is None && counted == (CacheStats {
                            misses: plus(counts.misses, 1),
                            expired: plus(counts.expired, 1),
                            ..counts
                        }),
                        Err(_) => counted == counts,
                    }
                } else {
                    &&& result matches Ok(Some(found)) && found@ == value
                    &&& after == read
                    &&& counted == (CacheStats { hits: plus(counts.hits, 1), ..counts })
                },
            },
        }
}

/// Where the keys that begin with the prefix end.
pub open spec fn prefix_end(rows: Seq<Row>, from: int) -> int
    decreases rows.len() - from,
{
    if 0 <= from < rows.len() && starts_with(rows[from].0, "cache:"@) {
        prefix_end(rows, from + 1)
    } else {
        from
    }
}

/// The keys of the database that belong to the cache.
pub open spec fn cache_keys(model: DbModel) -> Seq<Seq<char>> {
    let rows = live_rows(merge_rows(read_sources(model.memtable, model.tree.levels)));
    let from = lower_bound(rows, "cache:"@);
    Seq::new((prefix_end(rows, from) - from) as nat, |i: int| rows[from + i].0)
}

/// Whether `after` is what is left of `before` when the keys have been deleted one by one, up to
/// the first that fails.
pub open spec fn all_deleted(before: DbModel, keys: Seq<Seq<char>>, after: DbModel, result: Result<()>) -> bool
    decreases keys.len(),
{
    if keys.len() == 0 {
        result is Ok && after == before
    } else {
        exists|middle: DbModel, outcome: Result<()>|
            all_deleted(before, keys.drop_last(), middle, outcome) && #[trigger] next_deleted(
                middle,
                outcome,
                keys.last(),
                after,
                result,
            )
    }
}

/// Deleting one more key, unless an earlier one failed.
pub open spec fn next_deleted(
    before: DbModel,
    outcome: Result<()>,
    key: Seq<char>,
    after: DbModel,
    result: Result<()>,
) -> bool {
    if outcome is Ok {
        written(before, (key, None), after, result)
    } else {
        after == before && result == outcome
    }
}

/// What clearing the cache leaves and tells.
pub open spec fn cache_cleared(
    before: DbModel,
    counts: CacheStats,
    after: DbModel,
    counted: CacheStats,
    result: Result<()>,
) -> bool {
    &&& all_deleted(before, cache_keys(before), after, result)
    &&& counted == (if result is Ok {
        CacheStats {
            deletes: plus(counts.deletes, cache_keys(before).len() as u64),
            clears: plus(counts.clears, 1),
            ..counts
        }
    } else {
        counts
    })
}

proof fn lemma_prefix_end(rows: Seq<Row>, from: int)
    requires
        0 <= from <= rows.len(),
    ensures
        from <= prefix_end(rows, from) <= rows.len(),
        forall|i: int| from <= i < prefix_end(rows, from) ==> starts_with((#[trigger] rows[i]).0, "cache:"@),
        prefix_end(rows, from) < rows.len() ==> !starts_with(rows[prefix_end(rows, from)].0, "cache:"@),
    decreases rows.len() - from,
{
    if from < rows.len() && starts_with(rows[from].0, "cache:"@) {
        lemma_prefix_end(rows, from + 1);
    }
}

/// The keys of the cache are the keys with the prefix that have a value, in ascending order.
pub proof fn law_cache_keys_are_those_with_the_prefix(model: DbModel)
    requires
        sorted(model.memtable),
        levels_wf(model.tree.levels),
    ensures
        forall|key: Seq<char>| #[trigger]
            cache_keys(model).contains(key) <==> starts_with(key, "cache:"@) && contents(
                model.memtable,
                model.tree.levels,
                key,
            ) is Some,
        forall|i: int, j: int|
            0 <= i < j < cache_keys(model).len() ==> key_lt(#[trigger] cache_keys(model)[i], #[trigger] cache_keys(model)[j]),
{
    let rows = live_rows(merge_rows(read_sources(model.memtable, model.tree.levels)));
    let prefix = "cache:"@;
    let from = lower_bound(rows, prefix);
    let end = prefix_end(rows, from);
    let keys = cache_keys(model);
    law_scan_is_the_contents(model.memtable, model.tree.levels);
    lemma_lower_bound(rows, prefix);
    lemma_prefix_end(rows, from);
    assert forall|i: int, j: int| 0 <= i < j < keys.len() implies key_lt(#[trigger] keys[i], #[trigger] keys[j]) by {
        assert(key_lt(rows[from + i].0, rows[from + j].0));
    }
    assert forall|key: Seq<char>| #[trigger] keys.contains(key) <==> starts_with(key, prefix) && contents(
        model.memtable,
        model.tree.levels,
        key,
    ) is Some by {
        assert(contents(model.memtable, model.tree.levels, key) == value_of(rows_get(rows, key)));
        if keys.contains(key) {
            let i = choose|i: int| 0 <= i < keys.len() && keys[i] == key;
            assert(rows[from + i].0 == key);
            lemma_rows_get_at(rows, from + i);
        }
        if starts_with(key, prefix) && contents(model.memtable, model.tree.levels, key) is Some {
            assert(has_key(rows, key));
            let p = index_of_key(rows, key);
            law_prefix_keys_stand_together(prefix, rows[if end < rows.len() {
                end
            } else {
                p
            }].0, key);
            broadcast use group_key_order;

            if p < from {
                assert(key_lt(rows[p].0, prefix));
            }
            if p >= end && end < rows.len() {
                assert(!key_lt(rows[end].0, prefix));
                if p > end {
                    assert(key_lt(rows[end].0, rows[p].0));
                }
            }
            assert(from <= p < end);
            assert(keys[p - from] == key);
        }
    }
}

proof fn lemma_all_deleted(before: DbModel, keys: Seq<Seq<char>>, after: DbModel, result: Result<()>, key: Seq<char>)
    requires
        coherent(before),
        all_deleted(before, keys, after, result),
        result is Ok,
    ensures
        coherent(after),
        contents(after.memtable, after.tree.levels, key) == (if keys.contains(key) {
            None
        } else {
            contents(before.memtable, before.tree.levels, key)
        }),
    decreases keys.len(),
{
    if keys.len() > 0 {
        let rest = keys.drop_last();
        let (middle, outcome) = choose|middle: DbModel, outcome: Result<()>|
            all_deleted(before, rest, middle, outcome) && #[trigger] next_deleted(
                middle,
                outcome,
                keys.last(),
                after,
                result,
            );
        lemma_all_deleted(before, rest, middle, outcome, key);
        let row: Row = (keys.last(), None);
        law_write_gives_the_value(middle, row, after, result, key);
        if keys.contains(key) {
            let i = choose|i: int| 0 <= i < keys.len() && keys[i] == key;
            if i < rest.len() {
                assert(rest[i] == key);
            }
        }
        if rest.contains(key) {
            let i = choose|i: int| 0 <= i < rest.len() && rest[i] == key;
            assert(keys[i] == key);
        }
        assert(keys[keys.len() - 1] == keys.last());
    }
}

/// When the cache has been cleared, no key of the cache has a value, and all other keys have the
/// value that they had.
pub proof fn law_clearing_leaves_other_keys(before: DbModel, after: DbModel, result: Result<()>, key: Seq<char>)
    requires
        coherent(before),
        all_deleted(before, cache_keys(before), after, result),
        result is Ok,
    ensures
        coherent(after),
        contents(after.memtable, after.tree.levels, key) == (if starts_with(key, "cache:"@) {
            None
        } else {
            contents(before.memtable, before.tree.levels, key)
        }),
{
    lemma_all_deleted(before, cache_keys(before), after, result, key);
    law_cache_keys_are_those_with_the_prefix(before);
}

/// A value that was stored is read again until it expires.
pub proof fn law_cached_value_is_read(
    before: DbModel,
    key: Seq<char>,
    value: Seq<char>,
    expires_at: u64,
    after: DbModel,
    result: Result<()>,
    now_ms: u64,
    counts: CacheStats,
    later: DbModel,
    counted: CacheStats,
    found: Result<Option<String>>,
)
    requires
        coherent(before),
        written(before, (stored_key(key), Some(entry_text(expires_at, value))), after, result),
        result is Ok,
        cache_read(after, counts, key, now_ms, later, counted, found),
    ensures
        !expired_at(expires_at, now_ms) ==> (found matches Ok(Some(text)) && text@ == value),
        expired_at(expires_at, now_ms) && found is Ok ==> found matches Ok(None),
{
    law_entry_roundtrip(expires_at, value);
    law_write_gives_the_value(
        before,
        (stored_key(key), Some(entry_text(expires_at, value))),
        after,
        result,
        stored_key(key),
    );
}

pub open spec fn no_counts() -> CacheStats {
    CacheStats { hits: 0, misses: 0, sets: 0, deletes: 0, expired: 0, clears: 0 }
}

impl PebbleCache {
    /// Opens the cache in a directory.
    pub fn open_with_options(dir: &mut Directory, options: DbOptions) -> (result: Result<PebbleCache>)
        requires
            old(dir).wf(),
        ensures
            final(dir).wf(),
            final(dir).done() == old(dir).done() + opening_ops(old(dir).listing(), old(dir).image()),
            final(dir).image() == applied_all(
                old(dir).image(),
                opening_ops(old(dir).listing(), old(dir).image()),
            ),
            match opening(old(dir).listing(), old(dir).image()) {
                Opening::BadMarker => result matches Err(PebbleError::Io(text)) && text@
                    == "stream did not contain valid UTF-8"@,
                Opening::BadTable(problem) => result matches Err(PebbleError::SSTableCorruption(text)) && text@ == problem,
                Opening::BadLog(problem) => result matches Err(PebbleError::WalCorruption(text)) && text@ == problem,
                Opening::Done { tree, memtable } => result matches Ok(cache) && cache.db.wf() && cache.db.model() == opened(
                    tree,
                    memtable,
                    old(dir).image(),
                    options,
                ) && cache.counts == no_counts(),
            },
    {
        match PebbleDB::open_with_options(dir, options) {
            Ok(db) => Ok(
                PebbleCache {
                    db,
                    counts: CacheStats { hits: 0, misses: 0, sets: 0, deletes: 0, expired: 0, clears: 0 },
                },
            ),
            Err(error) => Err(error),
        }
    }

    /// Opens the cache in a directory with the default options.
    pub fn open(dir: &mut Directory) -> (result: Result<PebbleCache>)
        requires
            old(dir).wf(),
        ensures
            final(dir).wf(),
            final(dir).done() == old(dir).done() + opening_ops(old(dir).listing(), old(dir).image()),
            final(dir).image() == applied_all(
                old(dir).image(),
                opening_ops(old(dir).listing(), old(dir).image()),
            ),
            match opening(old(dir).listing(), old(dir).image()) {
                Opening::BadMarker => result matches Err(PebbleError::Io(text)) && text@
                    == "stream did not contain valid UTF-8"@,
                Opening::BadTable(problem) => result matches Err(PebbleError::SSTableCorruption(text)) && text@ == problem,
                Opening::BadLog(problem) => result matches Err(PebbleError::WalCorruption(text)) && text@ == problem,
                Opening::Done { tree, memtable } => result matches Ok(cache) && cache.db.wf() && cache.db.model() == opened(
                    tree,
                    memtable,
                    old(dir).image(),
                    default_options(),
                ) && cache.counts == no_counts(),
            },
    {
        Self::open_with_options(dir, DbOptions::default())
    }

    /// Stores a value; `now_ms` is the time in milliseconds.
    pub fn set(&mut self, key: &str, value: &str, ttl: Ttl, now_ms: u64) -> (result: Result<()>)
        requires
            old(self).db.wf(),
            expiration(ttl, now_ms) <= u64::MAX,
        ensures
            final(self).db.wf(),
            cache_set(
                old(self).db.model(),
                old(self).counts,
                key@,
                value@,
                ttl,
                now_ms,
                final(self).db.model(),
                final(self).counts,
                result,
            ),
    {
        let expires_at: u64 = match ttl {
            Ttl::Forever => NO_EXPIRATION,
            Ttl::Millis(millis) => now_ms + millis,
        };
        let result = self.db.set(cache_key(key), encode(expires_at, value));
        if result.is_ok() {
            self.counts.sets = self.counts.sets.saturating_add(1);
        }
        result
    }

    /// The value of a key that has not expired at `now_ms`; one that has is deleted.
    pub fn get(&mut self, key: &str, now_ms: u64) -> (result: Result<Option<String>>)
        requires
            old(self).db.wf(),
        ensures
            final(self).db.wf(),
            cache_read(
                old(self).db.model(),
                old(self).counts,
                key@,
                now_ms,
                final(self).db.model(),
                final(self).counts,
                result,
            ),
    {
        let stored = cache_key(key);
        let ghost before = self.db.model();
        let found = self.db.get(&stored);
        let ghost read = self.db.model();
        proof {
            assert(is_read(before, stored_key(key@), read));
        }
        let raw = match found {
            Some(raw) => raw,
            None => {
                self.counts.misses = self.counts.misses.saturating_add(1);
                return Ok(None);
            },
        };
        let (expires_at, value) = match decode(&raw) {
            Ok(entry) => entry,
            Err(error) => {
                return Err(error);
            },
        };
        if is_expired(expires_at, now_ms) {
            let outcome = self.db.delete(&stored);
            let ghost done = outcome;
            let result: Result<Option<String>> = match outcome {
                Ok(_) => {
                    self.counts.misses = self.counts.misses.saturating_add(1);
                    self.counts.expired = self.counts.expired.saturating_add(1);
                    Ok(None)
                },
                Err(error) => Err(error),
            };
            proof {
                assert(outcome_of(result) == outcome_of(done));
            }
            return result;
        }
        self.counts.hits = self.counts.hits.saturating_add(1);
        Ok(Some(value))
    }

    /// Removes a key, and tells whether it was there.
    pub fn delete(&mut self, key: &str) -> (result: Result<bool>)
        requires
            old(self).db.wf(),
        ensures
            final(self).db.wf(),
            cache_deleted(
                old(self).db.model(),
                old(self).counts,
                key@,
                final(self).db.model(),
                final(self).counts,
                result,
            ),
    {
        match self.db.delete(&cache_key(key)) {
            Ok(existed) => {
                self.counts.deletes = self.counts.deletes.saturating_add(1);
                Ok(existed)
            },
            Err(error) => Err(error),
        }
    }

    /// Whether a key has a value that has not expired at `now_ms`.
    pub fn contains_key(&mut self, key: &str, now_ms: u64) -> (result: Result<bool>)
        requires
            old(self).db.wf(),
        ensures
            final(self).db.wf(),
            exists|found: Result<Option<String>>|
                {
                    &&& #[trigger] cache_read(
                        old(self).db.model(),
                        old(self).counts,
                        key@,
                        now_ms,
                        final(self).db.model(),
                        final(self).counts,
                        found,
                    )
                    &&& match found {
                        Ok(value) => result matches Ok(live) && live == (value is Some),
                        Err(error) => result matches Err(own) && own == error,
                    }
                },
    {
        let found = self.get(key, now_ms);
        match found {
            Ok(value) => Ok(value.is_some()),
            Err(error) => Err(error),
        }
    }

    /// The keys of the database that belong to the cache.
    fn stored_keys(&self) -> (keys: Vec<String>)
        requires
            self.db.wf(),
        ensures
            keys@.len() == cache_keys(self.db.model()).len(),
            forall|i: int| 0 <= i < keys@.len() ==> (#[trigger] keys@[i])@ == cache_keys(self.db.model())[i],
    {
        let start = Bound::Included("cache:".to_owned());
        let mut iter = self.db.range(start, Bound::Unbounded);
        let ghost rows = iter.all_rows();
        let ghost from = lower_bound(rows, "cache:"@);
        let mut keys: Vec<String> = Vec::new();
        proof {
            self.db.lemma_wf();
            law_scan_is_the_contents(self.db.model().memtable, self.db.model().tree.levels);
            lemma_lower_bound(rows, "cache:"@);
            assert(iter.rows() =~= rows.skip(from));
        }
        loop
            invariant
                iter.wf(),
                iter.rows() == rows.skip(from),
                from == lower_bound(rows, "cache:"@),
                0 <= from <= rows.len(),
                iter.pos() == keys@.len(),
                from + keys@.len() <= rows.len(),
                prefix_end(rows, from) == prefix_end(rows, from + keys@.len()),
                forall|i: int| 0 <= i < keys@.len() ==> (#[trigger] keys@[i])@ == rows[from + i].0,
                forall|i: int| 0 <= i < rows.len() ==> (#[trigger] rows[i]).1 is Some,
                rows == live_rows(merge_rows(read_sources(self.db.model().memtable, self.db.model().tree.levels))),
            decreases rows.len() - keys@.len(),
        {
            let ghost at = from + keys@.len();
            let (key, _) = match iter.next() {
                Some(item) => item,
                None => {
                    proof {
                        assert(prefix_end(rows, at) == at);
                    }
                    return keys;
                },
            };
            let chars = chars_of(&key);
            if !has_prefix(chars.as_slice(), "cache:") {
                proof {
                    assert(prefix_end(rows, at) == at);
                }
                return keys;
            }
            proof {
                assert(prefix_end(rows, at) == prefix_end(rows, at + 1));
            }
            keys.push(key);
        }
    }

    /// Removes all keys of the cache.
    pub fn clear(&mut self) -> (result: Result<()>)
        requires
            old(self).db.wf(),
        ensures
            final(self).db.wf(),
            cache_cleared(
                old(self).db.model(),
                old(self).counts,
                final(self).db.model(),
                final(self).counts,
                result,
            ),
    {
        let keys = self.stored_keys();
        let ghost before = self.db.model();
        let ghost all = cache_keys(before);
        let mut i: usize = 0;
        proof {
            assert(all.take(0) =~= Seq::<Seq<char>>::empty());
        }
        while i < keys.len()
            invariant
                i <= keys@.len(),
                self.db.wf(),
                self.counts == old(self).counts,
                before == old(self).db.model(),
                all == cache_keys(before),
                keys@.len() == all.len(),
                forall|j: int| 0 <= j < keys@.len() ==> (#[trigger] keys@[j])@ == all[j],
                all_deleted(before, all.take(i as int), self.db.model(), Ok(())),
            decreases keys@.len() - i,
        {
            let ghost middle = self.db.model();
            let ghost key = all[i as int];
            let ghost fine: Result<()> = Ok(());
            proof {
                assert(keys@[i as int]@ == key);
                assert(all.take(i + 1).drop_last() =~= all.take(i as int));
                assert(all_deleted(before, all.take(i + 1).drop_last(), middle, fine));
            }
            let outcome = self.db.delete(&keys[i]);
            let ghost done = outcome_of(outcome);
            proof {
                lemma_next_deleted(before, all.take(i + 1), middle, fine, self.db.model(), done);
            }
            match outcome {
                Ok(_) => {},
                Err(error) => {
                    proof {
                        lemma_deleting_stops(before, all, i + 1, self.db.model(), done);
                    }
                    return Err(error);
                },
            }
            i = i + 1;
        }
        proof {
            assert(all.take(i as int) =~= all);
        }
        self.counts.deletes = self.counts.deletes.saturating_add(keys.len() as u64);
        self.counts.clears = self.counts.clears.saturating_add(1);
        Ok(())
    }

    pub fn stats(&self) -> (stats: CacheStats)
        ensures
            stats == self.counts,
    {
        self.counts
    }

    /// Closes the cache and hands out the operations that are still to be carried out.
    pub fn close(self) -> (result: Result<Vec<DiskOp>>)
        ensures
            result matches Ok(ops) && ops_of(ops@) == self.db.model().trail.ops,
    {
        self.db.close()
    }
}

proof fn lemma_next_deleted(
    before: DbModel,
    keys: Seq<Seq<char>>,
    middle: DbModel,
    outcome: Result<()>,
    after: DbModel,
    result: Result<()>,
)
    requires
        keys.len() > 0,
        all_deleted(before, keys.drop_last(), middle, outcome),
        next_deleted(middle, outcome, keys.last(), after, result),
    ensures
        all_deleted(before, keys, after, result),
{
}

/// A key that cannot be deleted ends the deleting.
proof fn lemma_deleting_stops(before: DbModel, keys: Seq<Seq<char>>, n: int, after: DbModel, result: Result<()>)
    requires
        0 <= n <= keys.len(),
        result is Err,
        all_deleted(before, keys.take(n), after, result),
    ensures
        all_deleted(before, keys, after, result),
    decreases keys.len() - n,
{
    if n == keys.len() {
        assert(keys.take(n) =~= keys);
    } else {
        assert(keys.take(n + 1).drop_last() =~= keys.take(n));
        lemma_next_deleted(before, keys.take(n + 1), after, result, after, result);
        lemma_deleting_stops(before, keys, n + 1, after, result);
    }
}

}
