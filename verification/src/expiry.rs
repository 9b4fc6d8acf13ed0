//! How long the entries of the cache live.
use crate::cache::{
    cache_cleared, cache_deleted, cache_keys, cache_read, cache_set, law_cache_keys_are_those_with_the_prefix,
    law_clearing_leaves_other_keys, law_entry_roundtrip, stored_key, CacheStats, Ttl,
};
use crate::db::{outcome_of, DbModel};
use crate::engine::contents;
use crate::error::{PebbleError, Result};
use crate::keys::{key_lt, law_key_lt_irreflexive};
use crate::steady::{coherent, law_write_gives_the_value};
use crate::text::{decimal, law_only_digits_are_numbers, lemma_first_index, lemma_first_index_bounds};
use vstd::prelude::*;

verus! {

/// What the database holds for a key of the cache.
pub open spec fn raw_entry(model: DbModel, key: Seq<char>) -> Option<Seq<char>> {
    contents(model.memtable, model.tree.levels, "cache:"@ + key)
}

/// A count that is one more, as far as it can be counted.
pub open spec fn one_more(after: u64, before: u64) -> bool {
    before < u64::MAX ==> after == before + 1
}

/// An entry that was stored at `stored_at` with so many milliseconds to live is found, with its value,
/// at every time before they are over, and is gone from then on. This holds whenever it is read, as
/// long as the database still holds what was stored.
pub proof fn law_entry_lives_as_long_as_asked(
    before: DbModel,
    counts: CacheStats,
    key: Seq<char>,
    value: Seq<char>,
    millis: u64,
    stored_at: u64,
    after: DbModel,
    counted: CacheStats,
    result: Result<()>,
    held: DbModel,
    held_counts: CacheStats,
    now: u64,
    later: DbModel,
    later_counts: CacheStats,
    found: Result<Option<String>>,
)
    requires
        coherent(before),
        0 < stored_at + millis <= u64::MAX,
        cache_set(before, counts, key, value, Ttl::Millis(millis), stored_at, after, counted, result),
        result is Ok,
        coherent(held),
        raw_entry(held, key) == raw_entry(after, key),
        cache_read(held, held_counts, key, now, later, later_counts, found),
    ensures
        now < stored_at + millis ==> {
            &&& found matches Ok(Some(text)) && text@ == value
            &&& raw_entry(later, key) == raw_entry(held, key)
            &&& one_more(later_counts.hits, held_counts.hits)
            &&& later_counts.misses == held_counts.misses
            &&& later_counts.expired == held_counts.expired
        },
        now >= stored_at + millis && found is Ok ==> {
            &&& found matches Ok(None)
            &&& raw_entry(later, key) is None
            &&& later_counts.hits == held_counts.hits
            &&& one_more(later_counts.misses, held_counts.misses)
            &&& one_more(later_counts.expired, held_counts.expired)
        },
        now >= stored_at + millis && found is Err ==> later_counts == held_counts,
        one_more(counted.sets, counts.sets),
        counted.deletes == counts.deletes,
{
    lemma_stored(before, counts, key, value, Ttl::Millis(millis), stored_at, after, counted, result);
    lemma_read(held, held_counts, key, now, later, later_counts, found, (stored_at + millis) as u64, value);
}

/// An entry that was stored without a time to live is found at every time.
pub proof fn law_entry_without_a_time_lives_forever(
    before: DbModel,
    counts: CacheStats,
    key: Seq<char>,
    value: Seq<char>,
    stored_at: u64,
    after: DbModel,
    counted: CacheStats,
    result: Result<()>,
    held: DbModel,
    held_counts: CacheStats,
    now: u64,
    later: DbModel,
    later_counts: CacheStats,
    found: Result<Option<String>>,
)
    requires
        coherent(before),
        cache_set(before, counts, key, value, Ttl::Forever, stored_at, after, counted, result),
        result is Ok,
        coherent(held),
        raw_entry(held, key) == raw_entry(after, key),
        cache_read(held, held_counts, key, now, later, later_counts, found),
    ensures
        found matches Ok(Some(text)) && text@ == value,
        raw_entry(later, key) == raw_entry(held, key),
        one_more(later_counts.hits, held_counts.hits),
        later_counts.misses == held_counts.misses,
{
    lemma_stored(before, counts, key, value, Ttl::Forever, stored_at, after, counted, result);
    lemma_read(held, held_counts, key, now, later, later_counts, found, 0, value);
}

proof fn lemma_stored(
    before: DbModel,
    counts: CacheStats,
    key: Seq<char>,
    value: Seq<char>,
    ttl: Ttl,
    stored_at: u64,
    after: DbModel,
    counted: CacheStats,
    result: Result<()>,
)
    requires
        coherent(before),
        cache_set(before, counts, key, value, ttl, stored_at, after, counted, result),
        result is Ok,
    ensures
        coherent(after),
        raw_entry(after, key) == Some(
            crate::cache::entry_text(crate::cache::expiration(ttl, stored_at) as u64, value),
        ),
{
    let text = crate::cache::entry_text(crate::cache::expiration(ttl, stored_at) as u64, value);
    law_write_gives_the_value(before, (stored_key(key), Some(text)), after, result, stored_key(key));
}

proof fn lemma_read(
    held: DbModel,
    counts: CacheStats,
    key: Seq<char>,
    now: u64,
    later: DbModel,
    counted: CacheStats,
    found: Result<Option<String>>,
    expires_at: u64,
    value: Seq<char>,
)
    requires
        coherent(held),
        raw_entry(held, key) == Some(crate::cache::entry_text(expires_at, value)),
        cache_read(held, counts, key, now, later, counted, found),
    ensures
        expires_at == 0 || now < expires_at ==> {
            &&& found matches Ok(Some(text)) && text@ == value
            &&& raw_entry(later, key) == raw_entry(held, key)
            &&& one_more(counted.hits, counts.hits)
            &&& counted.misses == counts.misses
            &&& counted.expired == counts.expired
        },
        0 < expires_at <= now && found is Ok ==> {
            &&& found matches Ok(None)
            &&& raw_entry(later, key) is None
            &&& counted.hits == counts.hits
            &&& one_more(counted.misses, counts.misses)
            &&& one_more(counted.expired, counts.expired)
        },
        0 < expires_at <= now && found is Err ==> counted == counts,
{
    law_entry_roundtrip(expires_at, value);
    let stored = stored_key(key);
    let read = choose|read: DbModel|
        #[trigger] crate::db::is_read(held, stored, read) && if 0 < expires_at <= now {
            crate::db::written(read, (stored, None), later, outcome_of(found))
        } else {
            later == read
        };
    if 0 < expires_at <= now {
        assert(coherent(read));
        let none: Option<Seq<char>> = None;
        law_write_gives_the_value(read, (stored, none), later, outcome_of(found), stored);
    }
}

/// A key that is not in the cache is a miss.
pub proof fn law_unknown_key_is_a_miss(
    held: DbModel,
    counts: CacheStats,
    key: Seq<char>,
    now: u64,
    later: DbModel,
    counted: CacheStats,
    found: Result<Option<String>>,
)
    requires
        raw_entry(held, key) is None,
        cache_read(held, counts, key, now, later, counted, found),
    ensures
        found matches Ok(None),
        one_more(counted.misses, counts.misses),
        counted.hits == counts.hits,
        counted.expired == counts.expired,
{
}

/// A key that was deleted is not in the cache any more; whether it was there is told.
pub proof fn law_deleted_key_is_gone(
    before: DbModel,
    counts: CacheStats,
    key: Seq<char>,
    after: DbModel,
    counted: CacheStats,
    result: Result<bool>,
)
    requires
        coherent(before),
        cache_deleted(before, counts, key, after, counted, result),
        result is Ok,
    ensures
        coherent(after),
        raw_entry(after, key) is None,
        result == Ok::<bool, PebbleError>(raw_entry(before, key) is Some),
        forall|other: Seq<char>| other != "cache:"@ + key ==> #[trigger] contents(
            after.memtable,
            after.tree.levels,
            other,
        ) == contents(before.memtable, before.tree.levels, other),
        one_more(counted.deletes, counts.deletes),
{
    let none: Option<Seq<char>> = None;
    let row = (stored_key(key), none);
    law_write_gives_the_value(before, row, after, outcome_of(result), stored_key(key));
    assert forall|other: Seq<char>| other != "cache:"@ + key implies #[trigger] contents(
        after.memtable,
        after.tree.levels,
        other,
    ) == contents(before.memtable, before.tree.levels, other) by {
        law_write_gives_the_value(before, row, after, outcome_of(result), other);
    }
}

/// Storing an entry changes no other key of the cache, nor any other key of the database.
pub proof fn law_storing_leaves_other_keys(
    before: DbModel,
    counts: CacheStats,
    key: Seq<char>,
    value: Seq<char>,
    ttl: Ttl,
    stored_at: u64,
    after: DbModel,
    counted: CacheStats,
    result: Result<()>,
    other: Seq<char>,
)
    requires
        coherent(before),
        cache_set(before, counts, key, value, ttl, stored_at, after, counted, result),
    ensures
        coherent(after),
        other != "cache:"@ + key ==> contents(after.memtable, after.tree.levels, other) == contents(
            before.memtable,
            before.tree.levels,
            other,
        ),
        other != key ==> raw_entry(after, other) == raw_entry(before, other),
{
    let text = crate::cache::entry_text(crate::cache::expiration(ttl, stored_at) as u64, value);
    law_write_gives_the_value(before, (stored_key(key), Some(text)), after, result, other);
    law_write_gives_the_value(before, (stored_key(key), Some(text)), after, result, "cache:"@ + other);
    crate::cache::law_stored_keys_are_distinct(other, key);
}

/// What the database holds for a key of the cache without a colon is reported as damaged.
pub proof fn law_entry_without_a_colon_is_reported(
    held: DbModel,
    counts: CacheStats,
    key: Seq<char>,
    now: u64,
    later: DbModel,
    counted: CacheStats,
    found: Result<Option<String>>,
)
    requires
        raw_entry(held, key) matches Some(raw) && !raw.contains(':'),
        cache_read(held, counts, key, now, later, counted, found),
    ensures
        found matches Err(PebbleError::CacheCorruption(text)) && text@ == "entry has no expiration field: "@ + raw_entry(
            held,
            key,
        )->Some_0,
        counted == counts,
        later.memtable == held.memtable,
        later.tree == held.tree,
{
    let raw = raw_entry(held, key)->Some_0;
    lemma_first_index_bounds(raw, ':');
}

/// After the cache has been cleared every key is a miss, and the other keys of the database have their
/// values. As many deletions are counted as there were entries.
pub proof fn law_cleared_cache_is_empty(
    before: DbModel,
    counts: CacheStats,
    after: DbModel,
    counted: CacheStats,
    result: Result<()>,
    key: Seq<char>,
    other: Seq<char>,
)
    requires
        coherent(before),
        cache_cleared(before, counts, after, counted, result),
        result is Ok,
    ensures
        coherent(after),
        raw_entry(after, key) is None,
        !"cache:"@.is_prefix_of(other) ==> contents(after.memtable, after.tree.levels, other) == contents(
            before.memtable,
            before.tree.levels,
            other,
        ),
        cache_keys(before).no_duplicates(),
        cache_keys(before).contains(other) <==> "cache:"@.is_prefix_of(other) && contents(
            before.memtable,
            before.tree.levels,
            other,
        ) is Some,
        one_more(counted.clears, counts.clears),
        counts.deletes + cache_keys(before).len() <= u64::MAX ==> counted.deletes == counts.deletes + cache_keys(before).len(),
        counted.hits == counts.hits,
        counted.misses == counts.misses,
{
    let n = "cache:"@.len() as int;
    law_clearing_leaves_other_keys(before, after, result, "cache:"@ + key);
    law_clearing_leaves_other_keys(before, after, result, other);
    assert(("cache:"@ + key).take(n) =~= "cache:"@);
    if other.len() >= n {
        assert(other.take(n) =~= other.subrange(0, n));
    }
    law_cache_keys_are_those_with_the_prefix(before);
    let keys = cache_keys(before);
    assert forall|i: int, j: int| 0 <= i < keys.len() && 0 <= j < keys.len() && i != j implies keys[i] != keys[j] by {
        law_key_lt_irreflexive(keys[i]);
        if i < j {
            assert(key_lt(keys[i], keys[j]));
        } else {
            assert(key_lt(keys[j], keys[i]));
        }
    }
}

/// What the database holds for a key of the cache is reported as damaged, too, where something else than
/// a number stands in front of the colon.
pub proof fn law_entry_without_a_number_is_reported(
    held: DbModel,
    counts: CacheStats,
    key: Seq<char>,
    field: Seq<char>,
    rest: Seq<char>,
    at: int,
    now: u64,
    later: DbModel,
    counted: CacheStats,
    found: Result<Option<String>>,
)
    requires
        raw_entry(held, key) == Some(field + seq![':'] + rest),
        !field.contains(':'),
        field.len() == 0 || (1 <= at < field.len() && !('0' <= field[at] <= '9')),
        cache_read(held, counts, key, now, later, counted, found),
    ensures
        found matches Err(PebbleError::CacheCorruption(text)) && text@ == "invalid expiration field: "@ + field,
        counted == counts,
        later.memtable == held.memtable,
        later.tree == held.tree,
{
    let raw = field + seq![':'] + rest;
    let n = field.len() as int;
    assert forall|j: int| 0 <= j < n implies raw[j] != ':' by {
        assert(field.contains(field[j]));
    }
    assert(raw[n] == ':');
    lemma_first_index(raw, ':', n);
    assert(raw.take(n) =~= field);
    law_only_digits_are_numbers(field, 0, u64::MAX as nat);
    if field.len() > 0 {
        assert(!('0' <= field[at] <= '9'));
    }
}

/// An entry is stored under the prefix `cache:` as the time at which it expires, in milliseconds and in
/// decimal, a colon, and the value; zero stands for an entry that does not expire.
pub proof fn law_entry_form(key: Seq<char>, value: Seq<char>, millis: u64, stored_at: u64)
    requires
        stored_at + millis <= u64::MAX,
    ensures
        stored_key(key) == "cache:"@ + key,
        crate::cache::entry_text(crate::cache::expiration(Ttl::Millis(millis), stored_at) as u64, value) == decimal(
            (stored_at + millis) as nat,
        ) + seq![':'] + value,
        crate::cache::entry_text(crate::cache::expiration(Ttl::Forever, stored_at) as u64, value) == seq!['0', ':'] + value,
{
    assert(decimal(0) =~= seq!['0']);
    assert(seq!['0'] + seq![':'] + value =~= seq!['0', ':'] + value);
}

}
