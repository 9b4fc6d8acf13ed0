//! The commands of the command line: what the arguments ask for, and what is answered.
use crate::db::stats::{is_stats, DbStats, LevelStats};
use crate::db::{compacted, is_read, outcome_of, written, DbModel, PebbleDB};
use crate::engine::{contents, read_sources};
use crate::error::{PebbleError, Result};
use crate::rows::{live_rows, merge_rows, Row};
use crate::text::{decimal, decimal_string, padded, padded_string};
use vstd::arithmetic::div_mod::lemma_div_is_ordered_by_denominator;
use vstd::prelude::*;

verus! {

/// A command with its arguments.
#[derive(Debug, Clone)]
pub enum Command {
    Put { key: String, value: String },
    Get { key: String },
    Delete { key: String },
    Exists { key: String },
    Keys,
    Scan,
    Compact,
    Stats,
}

/// What arguments ask for.
#[derive(Debug, Clone)]
pub enum Parsed {
    /// There are none.
    Nothing,
    /// There are too few for the command; tells how to use it.
    TooFew(String),
    /// The command is not known.
    Unknown(String),
    Run(Command),
}

/// What is printed, and the exit code.
#[derive(Debug, Clone)]
pub struct Reply {
    pub out: Vec<String>,
    pub err: Vec<String>,
    pub code: i32,
}

pub open spec fn texts_of(lines: Seq<String>) -> Seq<Seq<char>> {
    Seq::new(lines.len(), |i: int| lines[i]@)
}

impl Reply {
    pub open spec fn is(&self, out: Seq<Seq<char>>, err: Seq<Seq<char>>, code: int) -> bool {
        &&& texts_of(self.out@) == out
        &&& texts_of(self.err@) == err
        &&& self.code == code
    }
}

/// Which arguments ask for what.
pub open spec fn asks(args: Seq<String>, parsed: Parsed) -> bool {
    if args.len() == 0 {
        parsed is Nothing
    } else if args[0]@ == "set"@ {
        if args.len() < 3 {
            parsed matches Parsed::TooFew(usage) && usage@ == "Usage: pebbledb set <key> <value>"@
        } else {
            parsed matches Parsed::Run(Command::Put { key, value }) && key@ == args[1]@ && value@ == args[2]@
        }
    } else if args[0]@ == "get"@ {
        if args.len() < 2 {
            parsed matches Parsed::TooFew(usage) && usage@ == "Usage: pebbledb get <key>"@
        } else {
            parsed matches Parsed::Run(Command::Get { key }) && key@ == args[1]@
        }
    } else if args[0]@ == "delete"@ {
        if args.len() < 2 {
            parsed matches Parsed::TooFew(usage) && usage@ == "Usage: pebbledb delete <key>"@
        } else {
            parsed matches Parsed::Run(Command::Delete { key }) && key@ == args[1]@
        }
    } else if args[0]@ == "exists"@ {
        if args.len() < 2 {
            parsed matches Parsed::TooFew(usage) && usage@ == "Usage: pebbledb exists <key>"@
        } else {
            parsed matches Parsed::Run(Command::Exists { key }) && key@ == args[1]@
        }
    } else if args[0]@ == "keys"@ {
        parsed matches Parsed::Run(Command::Keys)
    } else if args[0]@ == "scan"@ {
        parsed matches Parsed::Run(Command::Scan)
    } else if args[0]@ == "compact"@ {
        parsed matches Parsed::Run(Command::Compact)
    } else if args[0]@ == "stats"@ {
        parsed matches Parsed::Run(Command::Stats)
    } else {
        parsed matches Parsed::Unknown(name) && name@ == args[0]@
    }
}

fn is_word(word: &String, expected: &str) -> (same: bool)
    ensures
        same == (word@ == expected@),
{
    crate::keys::str_eq(word.as_str(), expected)
}

pub fn parse(args: &[String]) -> (parsed: Parsed)
    ensures
        asks(args@, parsed),
{
    if args.len() == 0 {
        return Parsed::Nothing;
    }
    let name = &args[0];
    if is_word(name, "set") {
        if args.len() < 3 {
            return Parsed::TooFew("Usage: pebbledb set <key> <value>".to_owned());
        }
        return Parsed::Run(Command::Put { key: args[1].clone(), value: args[2].clone() });
    }
    if is_word(name, "get") {
        if args.len() < 2 {
            return Parsed::TooFew("Usage: pebbledb get <key>".to_owned());
        }
        return Parsed::Run(Command::Get { key: args[1].clone() });
    }
    if is_word(name, "delete") {
        if args.len() < 2 {
            return Parsed::TooFew("Usage: pebbledb delete <key>".to_owned());
        }
        return Parsed::Run(Command::Delete { key: args[1].clone() });
    }
    if is_word(name, "exists") {
        if args.len() < 2 {
            return Parsed::TooFew("Usage: pebbledb exists <key>".to_owned());
        }
        return Parsed::Run(Command::Exists { key: args[1].clone() });
    }
    if is_word(name, "keys") {
        return Parsed::Run(Command::Keys);
    }
    if is_word(name, "scan") {
        return Parsed::Run(Command::Scan);
    }
    if is_word(name, "compact") {
        return Parsed::Run(Command::Compact);
    }
    if is_word(name, "stats") {
        return Parsed::Run(Command::Stats);
    }
    Parsed::Unknown(name.clone())
}

pub open spec fn commands_line() -> Seq<char> {
    "Commands: set, get, delete, exists, keys, scan, compact, stats"@
}

/// What is printed where there is nothing to run.
pub fn refusal(parsed: &Parsed) -> (reply: Option<Reply>)
    ensures
        match parsed {
            Parsed::Nothing => reply matches Some(reply) && reply.is(
                Seq::empty(),
                seq!["Usage: pebbledb <command> [args]"@, commands_line()],
                1,
            ),
            Parsed::TooFew(usage) => reply matches Some(reply) && reply.is(Seq::empty(), seq![usage@], 1),
            Parsed::Unknown(name) => reply matches Some(reply) && reply.is(
                Seq::empty(),
                seq!["Unknown command: "@ + name@, commands_line()],
                1,
            ),
            Parsed::Run(_) => reply is None,
        },
{
    let mut err: Vec<String> = Vec::new();
    match parsed {
        Parsed::Nothing => {
            err.push("Usage: pebbledb <command> [args]".to_owned());
            err.push("Commands: set, get, delete, exists, keys, scan, compact, stats".to_owned());
        },
        Parsed::TooFew(usage) => {
            err.push(usage.clone());
        },
        Parsed::Unknown(name) => {
            err.push("Unknown command: ".to_owned().concat(name.as_str()));
            err.push("Commands: set, get, delete, exists, keys, scan, compact, stats".to_owned());
        },
        Parsed::Run(_) => {
            return None;
        },
    }
    let reply = Reply { out: Vec::new(), err, code: 1 };
    proof {
        assert(texts_of(reply.out@) =~= Seq::<Seq<char>>::empty());
        match parsed {
            Parsed::Nothing => {
                assert(texts_of(reply.err@) =~= seq!["Usage: pebbledb <command> [args]"@, commands_line()]);
            },
            Parsed::TooFew(usage) => {
                assert(texts_of(reply.err@) =~= seq![usage@]);
            },
            Parsed::Unknown(name) => {
                assert(texts_of(reply.err@) =~= seq!["Unknown command: "@ + name@, commands_line()]);
            },
            Parsed::Run(_) => {},
        }
    }
    Some(reply)
}

/// A line with a number behind a label.
pub open spec fn labelled(label: Seq<char>, number: nat, unit: Seq<char>) -> Seq<char> {
    label + decimal(number) + unit
}

/// A fraction in hundredths, rounded to the nearest.
pub open spec fn hundredths(numerator: u64, denominator: u64) -> int {
    (numerator * 100 + denominator / 2) / (denominator as int)
}

/// A fraction with two decimal places; two dashes where there is none.
pub open spec fn fraction_text(fraction: Option<(u64, u64)>) -> Seq<char> {
    match fraction {
        Some((numerator, denominator)) => {
            let h = hundredths(numerator, denominator);
            decimal((h / 100) as nat) + "."@ + padded((h % 100) as nat, 2)
        },
        None => "--"@,
    }
}

/// The tables of a level, where the statistics tell of it.
pub open spec fn files_at(levels: Seq<LevelStats>, level: int) -> nat
    decreases levels.len(),
{
    if levels.len() == 0 {
        0
    } else if levels.last().level == level {
        levels.last().files as nat
    } else {
        files_at(levels.drop_last(), level)
    }
}

/// The name of a level, as wide as the labels of the other lines.
pub open spec fn level_label(level: nat) -> Seq<char> {
    let name = "    L"@ + decimal(level);
    name + spaces((17 - name.len()) as int)
}

pub open spec fn spaces(count: int) -> Seq<char> {
    Seq::new((if count > 0 { count } else { 0 }) as nat, |i: int| ' ')
}

/// How many levels are listed: three at least, and all that hold tables.
pub open spec fn listed_levels(levels: Seq<LevelStats>) -> int {
    if levels.len() > 0 && levels.last().level >= 3 {
        levels.last().level + 1
    } else {
        3
    }
}

pub open spec fn table_lines(sizes: Seq<(u64, usize)>) -> Seq<Seq<char>> {
    Seq::new(
        sizes.len(),
        |i: int| "  sst_"@ + decimal(sizes[i].0 as nat) + ":        "@ + decimal(sizes[i].1 as nat) + " bytes"@,
    )
}

pub open spec fn level_lines(levels: Seq<LevelStats>) -> Seq<Seq<char>> {
    Seq::new(
        listed_levels(levels) as nat,
        |l: int| labelled(level_label(l as nat), files_at(levels, l), " files"@),
    )
}

/// What the statistics look like.
pub open spec fn stats_lines(stats: DbStats) -> Seq<Seq<char>> {
    seq![
        "Memtable"@,
        labelled("  entries:       "@, stats.memtable_entries as nat, ""@),
        labelled("  bytes:         "@, stats.memtable_bytes as nat, ""@),
        "SSTables"@,
        labelled("  count:         "@, stats.sst_count as nat, ""@),
        labelled("  total size:    "@, stats.total_sst_size as nat, " bytes"@),
    ] + table_lines(stats.sst_sizes@) + seq!["  levels:"@] + level_lines(stats.levels@) + seq![
        "WAL"@,
        labelled("  size:          "@, stats.wal_size as nat, " bytes"@),
        "Performance Counters"@,
        labelled("  memtable hits: "@, stats.memtable_hits as nat, ""@),
        labelled("  bloom rejects: "@, stats.bloom_rejects as nat, ""@),
        labelled("  block reads:   "@, stats.block_reads as nat, ""@),
        labelled("  compactions:   "@, stats.compactions_completed as nat, ""@),
        labelled("  full compactions: "@, stats.full_compactions as nat, ""@),
        "  write amplification: "@ + fraction_text(stats.write_amplification),
    ]
}

fn line(label: &str, number: u64, unit: &str) -> (text: String)
    ensures
        text@ == labelled(label@, number as nat, unit@),
{
    label.to_owned().concat(decimal_string(number).as_str()).concat(unit)
}

proof fn lemma_hundredths(numerator: u64, denominator: u64)
    requires
        denominator > 0,
    ensures
        0 <= hundredths(numerator, denominator) / 100 <= u64::MAX,
        0 <= hundredths(numerator, denominator),
{
    let x = numerator * 100 + denominator / 2;
    if denominator == 1 {
        assert(hundredths(numerator, denominator) == x);
    } else {
        lemma_div_is_ordered_by_denominator(x, 2, denominator as int);
    }
    assert(0 <= x / (denominator as int)) by (nonlinear_arith)
        requires
            x >= 0,
            denominator > 0,
    ;
}

fn fraction_string(fraction: Option<(u64, u64)>) -> (text: String)
    requires
        fraction matches Some((_, denominator)) ==> denominator > 0,
    ensures
        text@ == fraction_text(fraction),
{
    match fraction {
        Some((numerator, denominator)) => {
            proof {
                lemma_hundredths(numerator, denominator);
            }
            let x: u128 = (numerator as u128) * 100 + (denominator as u128) / 2;
            let h: u128 = x / (denominator as u128);
            proof {
                assert(h == hundredths(numerator, denominator));
            }
            let whole: u64 = (h / 100) as u64;
            let part: u64 = (h % 100) as u64;
            decimal_string(whole).concat(".").concat(padded_string(part, 2).as_str())
        },
        None => "--".to_owned(),
    }
}

fn files_of(levels: &Vec<LevelStats>, level: u32) -> (files: usize)
    ensures
        files == files_at(levels@, level as int),
{
    let mut left: usize = levels.len();
    proof {
        assert(levels@.take(left as int) =~= levels@);
    }
    while left > 0
        invariant
            left <= levels@.len(),
            files_at(levels@, level as int) == files_at(levels@.take(left as int), level as int),
        decreases left,
    {
        proof {
            assert(levels@.take(left as int).drop_last() =~= levels@.take(left - 1));
        }
        if levels[left - 1].level == level {
            return levels[left - 1].files;
        }
        left = left - 1;
    }
    0
}

fn label_of_level(level: u32) -> (label: String)
    ensures
        label@ == level_label(level as nat),
{
    let mut label = "    L".to_owned().concat(decimal_string(level as u64).as_str());
    let ghost name = label@;
    let chars = crate::text::chars_of(&label);
    let mut width: usize = chars.len();
    proof {
        assert(name + spaces(0) =~= name);
    }
    while width < 17
        invariant
            width >= name.len(),
            width <= 17 || width == name.len(),
            label@ == name + spaces(width - name.len()),
        decreases 17 - width,
    {
        label = label.concat(" ");
        proof {
            reveal_strlit(" ");
            assert(label@ =~= name + spaces(width + 1 - name.len()));
        }
        width = width + 1;
    }
    proof {
        if name.len() >= 17 {
            assert(spaces((17 - name.len()) as int) =~= spaces(0));
        }
    }
    label
}

/// The lines for the tables.
fn push_table_lines(lines: &mut Vec<String>, sizes: &Vec<(u64, usize)>)
    ensures
        texts_of(final(lines)@) == texts_of(old(lines)@) + table_lines(sizes@),
{
    let ghost before = texts_of(lines@);
    let ghost all = table_lines(sizes@);
    let mut i: usize = 0;
    proof {
        assert(before + all.take(0) =~= before);
    }
    while i < sizes.len()
        invariant
            i <= sizes@.len(),
            all == table_lines(sizes@),
            texts_of(lines@) == before + all.take(i as int),
        decreases sizes@.len() - i,
    {
        let ghost earlier = lines@;
        let name = "  sst_".to_owned().concat(decimal_string(sizes[i].0).as_str()).concat(":        ");
        let text = name.concat(decimal_string(sizes[i].1 as u64).as_str()).concat(" bytes");
        lines.push(text);
        proof {
            assert(text@ =~= all[i as int]);
            assert(texts_of(lines@) =~= texts_of(earlier).push(text@));
            assert(all.take(i + 1) =~= all.take(i as int).push(all[i as int]));
            assert(before + all.take(i + 1) =~= (before + all.take(i as int)).push(all[i as int]));
        }
        i = i + 1;
    }
    proof {
        assert(all.take(i as int) =~= all);
    }
}

/// The lines for the levels.
fn push_level_lines(lines: &mut Vec<String>, levels: &Vec<LevelStats>)
    ensures
        texts_of(final(lines)@) == texts_of(old(lines)@) + level_lines(levels@),
{
    let ghost before = texts_of(lines@);
    let ghost all = level_lines(levels@);
    let count: u64 = if levels.len() > 0 && levels[levels.len() - 1].level >= 3 {
        levels[levels.len() - 1].level as u64 + 1
    } else {
        3
    };
    let mut level: u64 = 0;
    proof {
        assert(before + all.take(0) =~= before);
    }
    while level < count
        invariant
            level <= count <= 4294967296,
            count == listed_levels(levels@),
            all == level_lines(levels@),
            texts_of(lines@) == before + all.take(level as int),
        decreases count - level,
    {
        let ghost earlier = lines@;
        let files: usize = files_of(levels, level as u32);
        let text = line(label_of_level(level as u32).as_str(), files as u64, " files");
        lines.push(text);
        proof {
            assert(text@ =~= all[level as int]);
            assert(texts_of(lines@) =~= texts_of(earlier).push(text@));
            assert(all.take(level + 1) =~= all.take(level as int).push(all[level as int]));
            assert(before + all.take(level + 1) =~= (before + all.take(level as int)).push(all[level as int]));
        }
        level = level + 1;
    }
    proof {
        assert(all.take(level as int) =~= all);
    }
}

/// What the statistics look like.
pub fn render_stats(stats: &DbStats) -> (lines: Vec<String>)
    requires
        stats.write_amplification matches Some((_, denominator)) ==> denominator > 0,
    ensures
        texts_of(lines@) == stats_lines(*stats),
{
    let mut lines: Vec<String> = Vec::new();
    lines.push("Memtable".to_owned());
    lines.push(line("  entries:       ", stats.memtable_entries as u64, ""));
    lines.push(line("  bytes:         ", stats.memtable_bytes as u64, ""));
    lines.push("SSTables".to_owned());
    lines.push(line("  count:         ", stats.sst_count as u64, ""));
    lines.push(line("  total size:    ", stats.total_sst_size as u64, " bytes"));
    let ghost head = seq![
        "Memtable"@,
        labelled("  entries:       "@, stats.memtable_entries as nat, ""@),
        labelled("  bytes:         "@, stats.memtable_bytes as nat, ""@),
        "SSTables"@,
        labelled("  count:         "@, stats.sst_count as nat, ""@),
        labelled("  total size:    "@, stats.total_sst_size as nat, " bytes"@),
    ];
    proof {
        assert(texts_of(lines@) =~= head);
    }
    push_table_lines(&mut lines, &stats.sst_sizes);
    let ghost upper = lines@;
    lines.push("  levels:".to_owned());
    proof {
        assert(texts_of(lines@) =~= texts_of(upper) + seq!["  levels:"@]);
    }
    push_level_lines(&mut lines, &stats.levels);
    let ghost middle = lines@;
    lines.push("WAL".to_owned());
    lines.push(line("  size:          ", stats.wal_size, " bytes"));
    lines.push("Performance Counters".to_owned());
    lines.push(line("  memtable hits: ", stats.memtable_hits, ""));
    lines.push(line("  bloom rejects: ", stats.bloom_rejects, ""));
    lines.push(line("  block reads:   ", stats.block_reads, ""));
    lines.push(line("  compactions:   ", stats.compactions_completed, ""));
    lines.push(line("  full compactions: ", stats.full_compactions, ""));
    lines.push("  write amplification: ".to_owned().concat(fraction_string(stats.write_amplification).as_str()));
    proof {
        let tail = seq![
            "WAL"@,
            labelled("  size:          "@, stats.wal_size as nat, " bytes"@),
            "Performance Counters"@,
            labelled("  memtable hits: "@, stats.memtable_hits as nat, ""@),
            labelled("  bloom rejects: "@, stats.bloom_rejects as nat, ""@),
            labelled("  block reads:   "@, stats.block_reads as nat, ""@),
            labelled("  compactions:   "@, stats.compactions_completed as nat, ""@),
            labelled("  full compactions: "@, stats.full_compactions as nat, ""@),
            "  write amplification: "@ + fraction_text(stats.write_amplification),
        ];
        assert(texts_of(lines@) =~= texts_of(middle) + tail);
    }
    lines
}

/// Whether the reply to a command that only succeeds or fails is the one for `result`.
pub open spec fn is_status(reply: Reply, result: Result<()>) -> bool {
    match result {
        Ok(()) => reply.is(seq!["OK"@], Seq::empty(), 0),
        Err(error) => reply.is(Seq::empty(), seq!["Error: "@ + error.text()], 1),
    }
}

pub open spec fn scan_lines(rows: Seq<Row>) -> Seq<Seq<char>> {
    Seq::new(rows.len(), |i: int| rows[i].0 + ": "@ + rows[i].1->Some_0)
}

/// What a command leaves and is answered.
pub open spec fn answers(command: Command, before: DbModel, after: DbModel, reply: Reply) -> bool {
    let rows = live_rows(merge_rows(read_sources(before.memtable, before.tree.levels)));
    match command {
        Command::Put { key, value } => exists|result: Result<()>| #[trigger]
            written(before, (key@, Some(value@)), after, result) && is_status(reply, result),
        Command::Get { key } => {
            &&& is_read(before, key@, after)
            &&& match contents(before.memtable, before.tree.levels, key@) {
                Some(value) => reply.is(seq![value], Seq::empty(), 0),
                None => reply.is(seq!["(null)"@], Seq::empty(), 0),
            }
        },
        Command::Delete { key } => exists|result: Result<()>| #[trigger]
            written(before, (key@, None), after, result) && if result is Ok && contents(
                before.memtable,
                before.tree.levels,
                key@,
            ) is None {
                reply.is(seq!["(null)"@], Seq::empty(), 0)
            } else {
                is_status(reply, result)
            },
        Command::Exists { key } => {
            &&& is_read(before, key@, after)
            &&& if contents(before.memtable, before.tree.levels, key@) is Some {
                reply.is(seq!["true"@], Seq::empty(), 0)
            } else {
                reply.is(seq!["false"@], Seq::empty(), 0)
            }
        },
        Command::Keys => after == before && reply.is(Seq::new(rows.len(), |i: int| rows[i].0), Seq::empty(), 0),
        Command::Scan => after == before && reply.is(scan_lines(rows), Seq::empty(), 0),
        Command::Compact => exists|result: Result<()>| #[trigger]
            compacted(before, after, result) && is_status(reply, result),
        Command::Stats => after == before && exists|stats: DbStats| #[trigger]
            is_stats(stats, before) && reply.is(stats_lines(stats), Seq::empty(), 0),
    }
}

fn success(lines: Vec<String>) -> (reply: Reply)
    ensures
        reply.is(texts_of(lines@), Seq::empty(), 0),
{
    let reply = Reply { out: lines, err: Vec::new(), code: 0 };
    proof {
        assert(texts_of(reply.err@) =~= Seq::<Seq<char>>::empty());
    }
    reply
}

fn word(text: &str) -> (reply: Reply)
    ensures
        reply.is(seq![text@], Seq::empty(), 0),
{
    let mut lines: Vec<String> = Vec::new();
    lines.push(text.to_owned());
    proof {
        assert(texts_of(lines@) =~= seq![text@]);
    }
    success(lines)
}

fn failure(error: &PebbleError) -> (reply: Reply)
    ensures
        reply.is(Seq::empty(), seq!["Error: "@ + error.text()], 1),
{
    let mut lines: Vec<String> = Vec::new();
    lines.push("Error: ".to_owned().concat(error.message().as_str()));
    let reply = Reply { out: Vec::new(), err: lines, code: 1 };
    proof {
        assert(texts_of(reply.err@) =~= seq!["Error: "@ + error.text()]);
        assert(texts_of(reply.out@) =~= Seq::<Seq<char>>::empty());
    }
    reply
}

fn status(result: &Result<()>) -> (reply: Reply)
    ensures
        is_status(reply, *result),
{
    match result {
        Ok(()) => word("OK"),
        Err(error) => failure(error),
    }
}

/// Runs a command.
pub fn execute(db: &mut PebbleDB, command: Command) -> (reply: Reply)
    requires
        old(db).wf(),
    ensures
        final(db).wf(),
        answers(command, old(db).model(), final(db).model(), reply),
{
    let ghost before = db.model();
    match command {
        Command::Put { key, value } => {
            let result = db.set(key, value);
            status(&result)
        },
        Command::Get { key } => match db.get(&key) {
            Some(value) => word(&value),
            None => word("(null)"),
        },
        Command::Delete { key } => {
            let result = db.delete(&key);
            let ghost outcome = outcome_of(result);
            proof {
                assert(written(before, (key@, None), db.model(), outcome));
            }
            match result {
                Ok(true) => word("OK"),
                Ok(false) => word("(null)"),
                Err(error) => failure(&error),
            }
        },
        Command::Exists { key } => if db.contains_key(&key) {
            word("true")
        } else {
            word("false")
        },
        Command::Keys => {
            let keys = db.keys();
            let ghost rows = live_rows(merge_rows(read_sources(before.memtable, before.tree.levels)));
            proof {
                assert(texts_of(keys@) =~= Seq::new(rows.len(), |i: int| rows[i].0));
            }
            success(keys)
        },
        Command::Scan => {
            let pairs = db.scan();
            let ghost rows = crate::iter::pair_rows(pairs@);
            let mut lines: Vec<String> = Vec::new();
            let mut i: usize = 0;
            while i < pairs.len()
                invariant
                    i <= pairs@.len(),
                    rows == crate::iter::pair_rows(pairs@),
                    lines@.len() == i,
                    forall|j: int| 0 <= j < i ==> (#[trigger] lines@[j])@ == scan_lines(rows)[j],
                decreases pairs@.len() - i,
            {
                lines.push(pairs[i].0.clone().concat(": ").concat(pairs[i].1.as_str()));
                i = i + 1;
            }
            proof {
                assert(texts_of(lines@) =~= scan_lines(rows));
            }
            success(lines)
        },
        Command::Compact => {
            let result = db.compact();
            status(&result)
        },
        Command::Stats => {
            let stats = db.stats();
            success(render_stats(&stats))
        },
    }
}

}
