use pebbledb::cli::{execute, parse, refusal, render_stats, Parsed, Reply};
use pebbledb::db::{DbOptions, DbStats, LevelStats, PebbleDB};
use pebbledb::disk::Directory;
use pebbledb::fault::{Fault, FaultPoint};
use pebbledb::workload::{announcement, draw, failure_line, next_state};

fn words(args: &[&str]) -> Vec<String> {
    args.iter().map(|arg| arg.to_string()).collect()
}

fn refused(args: &[&str]) -> Reply {
    refusal(&parse(&words(args))).unwrap()
}

fn run(db: &mut PebbleDB, args: &[&str]) -> Reply {
    let parsed = parse(&words(args));
    assert!(refusal(&parsed).is_none());
    match parsed {
        Parsed::Run(command) => execute(db, command),
        other => panic!("{:?}", other),
    }
}

fn printed(db: &mut PebbleDB, args: &[&str]) -> Vec<String> {
    let reply = run(db, args);
    assert_eq!((reply.err, reply.code), (vec![], 0));
    reply.out
}

#[test]
fn refused_arguments() {
    let commands = "Commands: set, get, delete, exists, keys, scan, compact, stats";
    for (args, lines) in [
        (vec![], vec!["Usage: pebbledb <command> [args]", commands]),
        (vec!["set", "k"], vec!["Usage: pebbledb set <key> <value>"]),
        (vec!["get"], vec!["Usage: pebbledb get <key>"]),
        (vec!["delete"], vec!["Usage: pebbledb delete <key>"]),
        (vec!["exists"], vec!["Usage: pebbledb exists <key>"]),
        (vec!["drop", "x"], vec!["Unknown command: drop", commands]),
    ] {
        let reply = refused(&args);
        assert_eq!(reply.out, Vec::<String>::new());
        assert_eq!(reply.err, lines);
        assert_eq!(reply.code, 1);
    }
}

#[test]
fn session_of_the_manual() {
    let mut dir = Directory::new();
    let mut db = PebbleDB::open(&mut dir).unwrap();
    assert_eq!(printed(&mut db, &["set", "name", "lazzerex"]), vec!["OK"]);
    assert_eq!(printed(&mut db, &["get", "name"]), vec!["lazzerex"]);
    assert_eq!(printed(&mut db, &["scan"]), vec!["name: lazzerex"]);
    assert_eq!(
        printed(&mut db, &["stats"]),
        vec![
            "Memtable",
            "  entries:       1",
            "  bytes:         12",
            "SSTables",
            "  count:         0",
            "  total size:    0 bytes",
            "  levels:",
            "    L0           0 files",
            "    L1           0 files",
            "    L2           0 files",
            "WAL",
            "  size:          29 bytes",
            "Performance Counters",
            "  memtable hits: 1",
            "  bloom rejects: 0",
            "  block reads:   0",
            "  compactions:   0",
            "  full compactions: 0",
            "  write amplification: --",
        ]
    );
    assert_eq!(printed(&mut db, &["compact"]), vec!["OK"]);
    assert_eq!(printed(&mut db, &["exists", "name"]), vec!["true"]);
    assert_eq!(printed(&mut db, &["keys"]), vec!["name"]);
    assert_eq!(printed(&mut db, &["delete", "name"]), vec!["OK"]);
    assert_eq!(printed(&mut db, &["delete", "name"]), vec!["(null)"]);
    assert_eq!(printed(&mut db, &["get", "name"]), vec!["(null)"]);
    assert_eq!(printed(&mut db, &["exists", "name"]), vec!["false"]);
    assert_eq!(printed(&mut db, &["scan"]), Vec::<String>::new());
}

#[test]
fn failed_commands() {
    for args in [vec!["set", "k", "v"], vec!["delete", "k"]] {
        let mut dir = Directory::new();
        let fault = Some(Fault::new(FaultPoint::BeforeWalAppend, 1));
        let mut db = PebbleDB::open_with_options(&mut dir, DbOptions { fault, ..DbOptions::default() }).unwrap();
        let reply = run(&mut db, &args);
        assert_eq!(reply.out, Vec::<String>::new());
        assert_eq!(reply.err, vec!["Error: injected fault: before_wal_append at hit 1"]);
        assert_eq!(reply.code, 1);
    }
}

#[test]
fn statistics_with_tables() {
    let stats = DbStats {
        sst_count: 3,
        total_sst_size: 600,
        sst_sizes: vec![(4, 100), (12, 500)],
        levels: vec![LevelStats { level: 1, files: 2, bytes: 500 }, LevelStats { level: 4, files: 1, bytes: 100 }],
        write_amplification: Some((1005, 1000)),
        ..DbStats::default()
    };
    let lines = render_stats(&stats);
    assert_eq!(
        lines[3..14],
        [
            "SSTables",
            "  count:         3",
            "  total size:    600 bytes",
            "  sst_4:        100 bytes",
            "  sst_12:        500 bytes",
            "  levels:",
            "    L0           0 files",
            "    L1           2 files",
            "    L2           0 files",
            "    L3           0 files",
            "    L4           1 files",
        ]
    );
    assert_eq!(lines.last().unwrap(), "  write amplification: 1.01");
    for (fraction, text) in [((7, 2), "3.50"), ((1, 3), "0.33"), ((2, 3), "0.67"), ((5, 5), "1.00"), ((u64::MAX, 1), "18446744073709551615.00")] {
        let stats = DbStats { write_amplification: Some(fraction), ..DbStats::default() };
        assert_eq!(*render_stats(&stats).last().unwrap(), format!("  write amplification: {}", text));
    }
}

#[test]
fn workload_is_determined_by_its_seed() {
    assert_eq!(next_state(7), 9098160460397411210);
    let mut state = 7;
    let mut lines = Vec::new();
    for index in 0..6 {
        let (operation, next) = draw(state, index);
        state = next;
        lines.push(announcement("TRY", index, &operation));
    }
    assert_eq!(
        lines,
        vec![
            "TRY del 0 key002",
            "TRY del 1 key009",
            "TRY put 2 key020 value2_243",
            "TRY put 3 key014 value3_661",
            "TRY put 4 key000 value4_151",
            "TRY del 5 key018",
        ]
    );
    assert_eq!(failure_line("flush", 15, "gone"), "FAULT flush 15 gone");
}
