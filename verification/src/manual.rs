//! What the commands of the command line print.
use crate::cli::{
    answers, asks, files_at, fraction_text, hundredths, listed_levels, stats_lines, texts_of, Command, Parsed, Reply,
};
use crate::crash::same_contents;
use crate::db::{compacted, written, DbModel};
use crate::db::stats::{is_stats, level_stats, DbStats};
use crate::engine::{contents, read_sources};
use crate::error::{PebbleError, Result};
use crate::keys::key_lt;
use crate::levels::{level_at, Levels};
use crate::merge::level_count_ok;
use crate::rows::{live_rows, merge_rows};
use crate::safety::law_scan_is_the_contents;
use crate::steady::{coherent, law_compaction_changes_no_value, law_write_gives_the_value};
use crate::text::decimal;
use vstd::prelude::*;

verus! {

/// Whether a command succeeded with a single line.
pub open spec fn prints(reply: Reply, line: Seq<char>) -> bool {
    &&& reply.out@.len() == 1
    &&& reply.out@[0]@ == line
    &&& reply.err@.len() == 0
    &&& reply.code == 0
}

/// Whether a command failed with a single line that tells the error.
pub open spec fn fails(reply: Reply) -> bool {
    &&& reply.out@.len() == 0
    &&& reply.err@.len() == 1
    &&& "Error: "@.is_prefix_of(reply.err@[0]@)
    &&& reply.code == 1
}

proof fn lemma_texts(lines: Seq<String>, texts: Seq<Seq<char>>)
    requires
        texts_of(lines) == texts,
    ensures
        lines.len() == texts.len(),
        forall|i: int| 0 <= i < lines.len() ==> (#[trigger] lines[i])@ == texts[i],
{
    assert forall|i: int| 0 <= i < lines.len() implies (#[trigger] lines[i])@ == texts[i] by {
        assert(texts_of(lines)[i] == lines[i]@);
    }
}

proof fn lemma_reply(reply: Reply, out: Seq<Seq<char>>, err: Seq<Seq<char>>, code: int)
    requires
        reply.is(out, err, code),
    ensures
        reply.out@.len() == out.len(),
        forall|i: int| 0 <= i < out.len() ==> (#[trigger] reply.out@[i])@ == out[i],
        reply.err@.len() == err.len(),
        forall|i: int| 0 <= i < err.len() ==> (#[trigger] reply.err@[i])@ == err[i],
        reply.code == code,
{
    lemma_texts(reply.out@, out);
    lemma_texts(reply.err@, err);
}

proof fn lemma_status(reply: Reply, result: Result<()>)
    requires
        crate::cli::is_status(reply, result),
    ensures
        result is Ok ==> prints(reply, "OK"@),
        result is Err ==> fails(reply),
        result matches Err(error) ==> reply.err@[0]@ == "Error: "@ + error.text(),
{
    match result {
        Ok(_) => {
            lemma_reply(reply, seq!["OK"@], Seq::empty(), 0);
        },
        Err(error) => {
            let line = "Error: "@ + error.text();
            lemma_reply(reply, Seq::empty(), seq![line], 1);
            assert(line.subrange(0, "Error: "@.len() as int) =~= "Error: "@);
        },
    }
}

/// An error in words: its kind, and what is known of it.
pub proof fn law_errors_in_words(text: String)
    ensures
        PebbleError::Io(text).text() == "I/O error: "@ + text@,
        PebbleError::WalCorruption(text).text() == "WAL corruption: "@ + text@,
        PebbleError::WalIncomplete.text() == "incomplete WAL record"@,
        PebbleError::SSTableCorruption(text).text() == "SSTable corruption: "@ + text@,
        PebbleError::CacheCorruption(text).text() == "cache corruption: "@ + text@,
        PebbleError::InjectedFault(text).text() == "injected fault: "@ + text@,
        PebbleError::InjectedAbort.text() == "injected abort"@,
{
}

/// `get` prints the value of the key, or `(null)` where it has none, and changes no value.
pub proof fn law_get_prints_the_value(before: DbModel, key: String, after: DbModel, reply: Reply)
    requires
        answers((Command::Get { key }), before, after, reply),
    ensures
        contents(before.memtable, before.tree.levels, key@) matches Some(value) ==> prints(reply, value),
        contents(before.memtable, before.tree.levels, key@) is None ==> prints(reply, "(null)"@),
        after.memtable == before.memtable,
        after.tree == before.tree,
{
    match contents(before.memtable, before.tree.levels, key@) {
        Some(value) => lemma_reply(reply, seq![value], Seq::empty(), 0),
        None => lemma_reply(reply, seq!["(null)"@], Seq::empty(), 0),
    }
}

/// `exists` prints `true` where the key has a value, and `false` where it has none.
pub proof fn law_exists_tells_whether_there_is_a_value(before: DbModel, key: String, after: DbModel, reply: Reply)
    requires
        answers((Command::Exists { key }), before, after, reply),
    ensures
        contents(before.memtable, before.tree.levels, key@) is Some ==> prints(reply, "true"@),
        contents(before.memtable, before.tree.levels, key@) is None ==> prints(reply, "false"@),
        after.memtable == before.memtable,
        after.tree == before.tree,
{
    if contents(before.memtable, before.tree.levels, key@) is Some {
        lemma_reply(reply, seq!["true"@], Seq::empty(), 0);
    } else {
        lemma_reply(reply, seq!["false"@], Seq::empty(), 0);
    }
}

/// `set` prints `OK`, and `get` then prints the value; or it tells an error.
pub proof fn law_set_is_read_back(
    before: DbModel,
    key: String,
    value: String,
    middle: DbModel,
    reply: Reply,
    same: String,
    after: DbModel,
    got: Reply,
)
    requires
        coherent(before),
        answers((Command::Put { key, value }), before, middle, reply),
        same@ == key@,
        answers((Command::Get { key: same }), middle, after, got),
    ensures
        prints(reply, "OK"@) || fails(reply),
        reply.code == 0 ==> prints(got, value@),
        reply.code != 0 ==> exists|error: PebbleError| #[trigger]
            written(before, (key@, Some(value@)), middle, Err(error)) && reply.err@[0]@ == "Error: "@ + error.text(),
        forall|other: Seq<char>| other != key@ ==> #[trigger] contents(middle.memtable, middle.tree.levels, other) == contents(
            before.memtable,
            before.tree.levels,
            other,
        ),
{
    let result = choose|result: Result<()>| #[trigger]
        written(before, (key@, Some(value@)), middle, result) && crate::cli::is_status(reply, result);
    lemma_status(reply, result);
    if result is Err {
        assert(written(before, (key@, Some(value@)), middle, Err(result->Err_0)));
    }
    law_write_gives_the_value(before, (key@, Some(value@)), middle, result, key@);
    law_get_prints_the_value(middle, same, after, got);
    assert forall|other: Seq<char>| other != key@ implies #[trigger] contents(middle.memtable, middle.tree.levels, other)
        == contents(before.memtable, before.tree.levels, other) by {
        law_write_gives_the_value(before, (key@, Some(value@)), middle, result, other);
    }
}

/// `delete` prints `OK` where the key had a value and `(null)` where it had none, and `get` then prints
/// `(null)`; or it tells an error.
pub proof fn law_delete_takes_the_value_away(
    before: DbModel,
    key: String,
    middle: DbModel,
    reply: Reply,
    same: String,
    after: DbModel,
    got: Reply,
)
    requires
        coherent(before),
        answers((Command::Delete { key }), before, middle, reply),
        same@ == key@,
        answers((Command::Get { key: same }), middle, after, got),
    ensures
        fails(reply) || prints(
            reply,
            if contents(before.memtable, before.tree.levels, key@) is Some {
                "OK"@
            } else {
                "(null)"@
            },
        ),
        reply.code == 0 ==> prints(got, "(null)"@),
        forall|other: Seq<char>| other != key@ ==> #[trigger] contents(middle.memtable, middle.tree.levels, other) == contents(
            before.memtable,
            before.tree.levels,
            other,
        ),
{
    let none: Option<Seq<char>> = None;
    let result = choose|result: Result<()>| #[trigger]
        written(before, (key@, None), middle, result) && if result is Ok && contents(
            before.memtable,
            before.tree.levels,
            key@,
        ) is None {
            reply.is(seq!["(null)"@], Seq::empty(), 0)
        } else {
            crate::cli::is_status(reply, result)
        };
    if result is Ok && contents(before.memtable, before.tree.levels, key@) is None {
        lemma_reply(reply, seq!["(null)"@], Seq::empty(), 0);
    } else {
        lemma_status(reply, result);
    }
    law_write_gives_the_value(before, (key@, none), middle, result, key@);
    law_get_prints_the_value(middle, same, after, got);
    assert forall|other: Seq<char>| other != key@ implies #[trigger] contents(middle.memtable, middle.tree.levels, other)
        == contents(before.memtable, before.tree.levels, other) by {
        law_write_gives_the_value(before, (key@, none), middle, result, other);
    }
}

/// Whether these are the keys that have a value, in ascending order.
pub open spec fn are_the_live_keys(keys: Seq<Seq<char>>, model: DbModel) -> bool {
    &&& forall|i: int, j: int| 0 <= i < j < keys.len() ==> key_lt(#[trigger] keys[i], #[trigger] keys[j])
    &&& forall|key: Seq<char>| #[trigger]
        keys.contains(key) <==> contents(model.memtable, model.tree.levels, key) is Some
}

proof fn lemma_live_keys(model: DbModel)
    requires
        coherent(model),
    ensures
        ({
            let rows = live_rows(merge_rows(read_sources(model.memtable, model.tree.levels)));
            are_the_live_keys(Seq::new(rows.len(), |i: int| rows[i].0), model)
        }),
{
    let rows = live_rows(merge_rows(read_sources(model.memtable, model.tree.levels)));
    let keys = Seq::new(rows.len(), |i: int| rows[i].0);
    law_scan_is_the_contents(model.memtable, model.tree.levels);
    assert forall|i: int, j: int| 0 <= i < j < keys.len() implies key_lt(#[trigger] keys[i], #[trigger] keys[j]) by {
        assert(key_lt(rows[i].0, rows[j].0));
    }
    assert forall|key: Seq<char>| #[trigger] keys.contains(key) <==> contents(model.memtable, model.tree.levels, key) is Some by {
        if keys.contains(key) {
            let i = choose|i: int| 0 <= i < keys.len() && keys[i] == key;
            assert(rows[i].1 == contents(model.memtable, model.tree.levels, rows[i].0));
        }
        if contents(model.memtable, model.tree.levels, key) is Some {
            let i = choose|i: int| 0 <= i < rows.len() && (#[trigger] rows[i]).0 == key;
            assert(keys[i] == key);
        }
    }
}

/// `keys` prints the keys that have a value, one by one in ascending order, and changes nothing.
pub proof fn law_keys_prints_the_live_keys(before: DbModel, after: DbModel, reply: Reply)
    requires
        coherent(before),
        answers(Command::Keys, before, after, reply),
    ensures
        after == before,
        reply.err@.len() == 0,
        reply.code == 0,
        are_the_live_keys(Seq::new(reply.out@.len(), |i: int| reply.out@[i]@), before),
{
    let rows = live_rows(merge_rows(read_sources(before.memtable, before.tree.levels)));
    let keys = Seq::new(rows.len(), |i: int| rows[i].0);
    lemma_reply(reply, keys, Seq::empty(), 0);
    lemma_live_keys(before);
    assert(Seq::new(reply.out@.len(), |i: int| reply.out@[i]@) =~= keys);
}

/// `scan` prints every key that has a value, in ascending order, with a colon, a space and the value
/// that `get` gives for that key; and it changes nothing.
pub proof fn law_scan_prints_every_key_with_its_value(before: DbModel, after: DbModel, reply: Reply)
    requires
        coherent(before),
        answers(Command::Scan, before, after, reply),
    ensures
        after == before,
        reply.err@.len() == 0,
        reply.code == 0,
        exists|keys: Seq<Seq<char>>|
            {
                &&& #[trigger] are_the_live_keys(keys, before)
                &&& keys.len() == reply.out@.len()
                &&& forall|i: int|
                    0 <= i < keys.len() ==> (#[trigger] reply.out@[i])@ == keys[i] + seq![':', ' '] + contents(
                        before.memtable,
                        before.tree.levels,
                        keys[i],
                    )->Some_0
            },
{
    let rows = live_rows(merge_rows(read_sources(before.memtable, before.tree.levels)));
    let keys = Seq::new(rows.len(), |i: int| rows[i].0);
    lemma_reply(reply, crate::cli::scan_lines(rows), Seq::empty(), 0);
    lemma_live_keys(before);
    law_scan_is_the_contents(before.memtable, before.tree.levels);
    reveal_strlit(": ");
    assert(": "@ =~= seq![':', ' ']);
    assert forall|i: int| 0 <= i < keys.len() implies (#[trigger] reply.out@[i])@ == keys[i] + seq![':', ' '] + contents(
        before.memtable,
        before.tree.levels,
        keys[i],
    )->Some_0 by {
        assert(rows[i].1 == contents(before.memtable, before.tree.levels, rows[i].0));
    }
    assert(are_the_live_keys(keys, before));
}

/// `compact` prints `OK` or tells an error, and every key keeps its value.
pub proof fn law_compact_keeps_every_value(before: DbModel, after: DbModel, reply: Reply)
    requires
        coherent(before),
        answers(Command::Compact, before, after, reply),
    ensures
        prints(reply, "OK"@) || fails(reply),
        same_contents(after.memtable, after.tree.levels, before.memtable, before.tree.levels),
{
    let result = choose|result: Result<()>| #[trigger]
        compacted(before, after, result) && crate::cli::is_status(reply, result);
    lemma_status(reply, result);
    law_compaction_changes_no_value(before, after, result);
}

/// Which words are commands, and which arguments they need. What follows the arguments is not looked
/// at.
pub proof fn law_words_are_commands(args: Seq<String>, parsed: Parsed)
    requires
        asks(args, parsed),
    ensures
        args.len() == 0 <==> parsed is Nothing,
        args.len() >= 3 && args[0]@ == "set"@ ==> (parsed matches Parsed::Run(Command::Put { key, value }) && key@
            == args[1]@ && value@ == args[2]@),
        args.len() >= 2 && args[0]@ == "get"@ ==> (parsed matches Parsed::Run(Command::Get { key }) && key@ == args[1]@),
        args.len() >= 2 && args[0]@ == "delete"@ ==> (parsed matches Parsed::Run(Command::Delete { key }) && key@
            == args[1]@),
        args.len() >= 2 && args[0]@ == "exists"@ ==> (parsed matches Parsed::Run(Command::Exists { key }) && key@
            == args[1]@),
        args.len() >= 1 && args[0]@ == "keys"@ ==> parsed == Parsed::Run(Command::Keys),
        args.len() >= 1 && args[0]@ == "scan"@ ==> parsed == Parsed::Run(Command::Scan),
        args.len() >= 1 && args[0]@ == "compact"@ ==> parsed == Parsed::Run(Command::Compact),
        args.len() >= 1 && args[0]@ == "stats"@ ==> parsed == Parsed::Run(Command::Stats),
        parsed is TooFew <==> args.len() >= 1 && ((args[0]@ == "set"@ && args.len() < 3) || (args.len() < 2 && (args[0]@
            == "get"@ || args[0]@ == "delete"@ || args[0]@ == "exists"@))),
        parsed matches Parsed::TooFew(usage) ==> usage@ == (if args[0]@ == "set"@ {
            "Usage: pebbledb set <key> <value>"@
        } else if args[0]@ == "get"@ {
            "Usage: pebbledb get <key>"@
        } else if args[0]@ == "delete"@ {
            "Usage: pebbledb delete <key>"@
        } else {
            "Usage: pebbledb exists <key>"@
        }),
        parsed matches Parsed::Unknown(name) ==> name@ == args[0]@,
        parsed is Unknown <==> args.len() >= 1 && args[0]@ != "set"@ && args[0]@ != "get"@ && args[0]@ != "delete"@
            && args[0]@ != "exists"@ && args[0]@ != "keys"@ && args[0]@ != "scan"@ && args[0]@ != "compact"@ && args[0]@
            != "stats"@,
{
    reveal_strlit("set");
    reveal_strlit("get");
    reveal_strlit("delete");
    reveal_strlit("exists");
    reveal_strlit("keys");
    reveal_strlit("scan");
    reveal_strlit("compact");
    reveal_strlit("stats");
    assert("set"@[0] == 's' && "get"@[0] == 'g' && "delete"@[0] == 'd' && "exists"@[0] == 'e');
    assert("keys"@[0] == 'k' && "scan"@[1] == 'c' && "compact"@[0] == 'c' && "stats"@[1] == 't');
    assert("set"@[1] == 'e' && "scan"@[0] == 's' && "stats"@[0] == 's');
}

/// The fraction is printed to the nearest hundredth, with two digits behind the point.
pub proof fn law_fraction_is_the_nearest_hundredth(numerator: u64, denominator: u64)
    requires
        denominator > 0,
    ensures
        ({
            let text = fraction_text(Some((numerator, denominator)));
            exists|whole: nat, tens: nat, ones: nat|
                {
                    &&& tens < 10 && ones < 10
                    &&& #[trigger] fraction_parts(whole, tens, ones) == text
                    &&& 200 * numerator - denominator <= 2 * denominator * (100 * whole + 10 * tens + ones) <= 200 * numerator
                        + denominator
                }
        }),
{
    let d = denominator as int;
    let x = numerator * 100 + d / 2;
    let h = hundredths(numerator, denominator);
    vstd::arithmetic::div_mod::lemma_fundamental_div_mod(x, d);
    vstd::arithmetic::div_mod::lemma_mod_bound(x, d);
    assert(h >= 0) by (nonlinear_arith)
        requires
            h == x / d,
            x >= 0,
            d > 0,
    ;
    let whole = (h / 100) as nat;
    let part = (h % 100) as nat;
    let tens = part / 10;
    let ones = part % 10;
    reveal_with_fuel(decimal, 3);
    reveal_strlit(".");
    assert("."@ =~= seq!['.']);
    assert(crate::text::padded(part, 2) =~= decimal(tens) + decimal(ones)) by {
        if part < 10 {
            assert(tens == 0 && ones == part);
            assert(decimal(0) =~= seq!['0']);
        }
    }
    assert(fraction_parts(whole, tens, ones) =~= fraction_text(Some((numerator, denominator))));
    assert(h == 100 * whole + 10 * tens + ones);
    assert(d * h == x - x % d);
    assert(2 * denominator * (100 * whole + 10 * tens + ones) == 2 * (d * h)) by (nonlinear_arith)
        requires
            d == denominator,
            h == 100 * whole + 10 * tens + ones,
    ;
}

/// A number with two digits behind a point.
pub open spec fn fraction_parts(whole: nat, tens: nat, ones: nat) -> Seq<char> {
    decimal(whole) + seq!['.'] + decimal(tens) + decimal(ones)
}

/// `stats` prints the numbers of the statistics, each in its place behind its label: the memtable and
/// the tables, a line for every table, a line for every level, the log and the counters. It changes
/// nothing.
pub proof fn law_stats_prints_the_numbers(before: DbModel, after: DbModel, reply: Reply)
    requires
        answers(Command::Stats, before, after, reply),
    ensures
        after == before,
        reply.err@.len() == 0,
        reply.code == 0,
        exists|stats: DbStats|
            {
                let lines = Seq::new(reply.out@.len(), |i: int| reply.out@[i]@);
                let n = stats.sst_sizes@.len() as int;
                let m = listed_levels(stats.levels@);
                &&& #[trigger] is_stats(stats, before)
                &&& lines.len() == 16 + n + m
                &&& lines[1] == "  entries:       "@ + decimal(stats.memtable_entries as nat)
                &&& lines[2] == "  bytes:         "@ + decimal(stats.memtable_bytes as nat)
                &&& lines[4] == "  count:         "@ + decimal(stats.sst_count as nat)
                &&& lines[5] == "  total size:    "@ + decimal(stats.total_sst_size as nat) + " bytes"@
                &&& forall|i: int|
                    0 <= i < n ==> #[trigger] lines[6 + i] == "  sst_"@ + decimal(stats.sst_sizes@[i].0 as nat) + ":        "@
                        + decimal(stats.sst_sizes@[i].1 as nat) + " bytes"@
                &&& lines[8 + n + m] == "  size:          "@ + decimal(stats.wal_size as nat) + " bytes"@
                &&& lines[10 + n + m] == "  memtable hits: "@ + decimal(stats.memtable_hits as nat)
                &&& lines[11 + n + m] == "  bloom rejects: "@ + decimal(stats.bloom_rejects as nat)
                &&& lines[12 + n + m] == "  block reads:   "@ + decimal(stats.block_reads as nat)
                &&& lines[13 + n + m] == "  compactions:   "@ + decimal(stats.compactions_completed as nat)
                &&& lines[14 + n + m] == "  full compactions: "@ + decimal(stats.full_compactions as nat)
                &&& lines[15 + n + m] == "  write amplification: "@ + fraction_text(stats.write_amplification)
            },
{
    let stats = choose|stats: DbStats| #[trigger]
        is_stats(stats, before) && reply.is(stats_lines(stats), Seq::empty(), 0);
    let all = stats_lines(stats);
    lemma_reply(reply, all, Seq::empty(), 0);
    let lines = Seq::new(reply.out@.len(), |i: int| reply.out@[i]@);
    assert(lines =~= all);
    let n = stats.sst_sizes@.len() as int;
    let m = listed_levels(stats.levels@);
    reveal_strlit("");
    assert(forall|text: Seq<char>| #[trigger] (text + ""@) =~= text);
    assert forall|i: int| 0 <= i < n implies #[trigger] lines[6 + i] == "  sst_"@ + decimal(stats.sst_sizes@[i].0 as nat)
        + ":        "@ + decimal(stats.sst_sizes@[i].1 as nat) + " bytes"@ by {
        assert(lines[6 + i] == crate::cli::table_lines(stats.sst_sizes@)[i]);
    }
    assert(is_stats(stats, before));
}

proof fn lemma_files_at(levels: Levels, level: int)
    requires
        level_count_ok(levels),
        level_at(levels, level).len() <= usize::MAX,
    ensures
        files_at(level_stats(levels), level) == level_at(levels, level).len(),
    decreases levels.len(),
{
    if levels.len() > 0 {
        let before = levels.drop_last();
        if level != levels.len() - 1 {
            assert(level_at(before, level) == level_at(levels, level));
        }
        lemma_files_at(before, level);
        if levels.last().len() > 0 {
            assert(level_stats(levels).drop_last() =~= level_stats(before));
        }
    }
}

proof fn lemma_last_level(levels: Levels, level: int)
    requires
        level_count_ok(levels),
    ensures
        level_at(levels, level).len() > 0 ==> level_stats(levels).len() > 0 && level <= level_stats(levels).last().level,
        level_stats(levels).len() > 0 ==> level_at(levels, level_stats(levels).last().level as int).len() > 0,
    decreases levels.len(),
{
    if levels.len() > 0 {
        let before = levels.drop_last();
        lemma_last_level(before, level);
        if level != levels.len() - 1 {
            assert(level_at(before, level) == level_at(levels, level));
        }
        if levels.last().len() == 0 && level_stats(before).len() > 0 {
            let last = level_stats(before).last().level as int;
            assert(level_at(before, last) == level_at(levels, last));
        }
    }
}

pub open spec fn blanks(count: nat) -> Seq<char> {
    Seq::new(count, |i: int| ' ')
}

/// `stats` prints how many tables every level has, down to the deepest level that has one and to
/// level 2 at least.
pub proof fn law_stats_prints_the_levels(before: DbModel, after: DbModel, reply: Reply, level: int)
    requires
        answers(Command::Stats, before, after, reply),
        level_count_ok(before.tree.levels),
        0 <= level,
        level_at(before.tree.levels, level).len() <= usize::MAX,
        level <= 2 || exists|deeper: int| level <= deeper && #[trigger] level_at(before.tree.levels, deeper).len() > 0,
    ensures
        exists|i: int, padding: nat|
            0 <= i < reply.out@.len() && (#[trigger] reply.out@[i])@ == "    L"@ + decimal(level as nat) + #[trigger] blanks(padding) + decimal(level_at(before.tree.levels, level).len()) + " files"@,
{
    let stats = choose|stats: DbStats| #[trigger]
        is_stats(stats, before) && reply.is(stats_lines(stats), Seq::empty(), 0);
    let all = stats_lines(stats);
    let levels = before.tree.levels;
    lemma_reply(reply, all, Seq::empty(), 0);
    lemma_files_at(levels, level);
    lemma_last_level(levels, level);
    if level > 2 {
        let deeper = choose|deeper: int| level <= deeper && #[trigger] level_at(levels, deeper).len() > 0;
        lemma_last_level(levels, deeper);
    }
    let n = stats.sst_sizes@.len() as int;
    let i = 7 + n + level;
    let name = "    L"@ + decimal(level as nat);
    let padding = if 17 - name.len() > 0 {
        (17 - name.len()) as nat
    } else {
        0
    };
    assert(level < listed_levels(stats.levels@));
    assert(all[i] == crate::cli::level_lines(stats.levels@)[level]);
    assert(crate::cli::spaces((17 - name.len()) as int) =~= blanks(padding));
    assert(reply.out@[i]@ =~= name + blanks(padding) + decimal(level_at(levels, level).len()) + " files"@);
}

}
