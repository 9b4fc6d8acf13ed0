//! The names of the files in a database directory, and the marker of a pending merge.
use crate::text::{
    chars_of, decimal, decimal_string, ends_with, find_char, first_index, has_prefix, has_suffix, is_digit,
    law_decimal_roundtrip, law_padded_roundtrip, lemma_decimal_digits, lemma_first_index, lines_of, padded,
    padded_string, parse_u32, parse_u64, parse_unsigned, split_at_char, starts_with, sub_chars, trim_chars, trim_start,
    trimmed, without_return,
};
use vstd::prelude::*;

verus! {

/// The name of the log.
pub open spec fn wal_name() -> Seq<char> {
    "wal.log"@
}

/// The name of the marker of a pending merge.
pub open spec fn pending_name() -> Seq<char> {
    "merge.pending"@
}

pub fn wal_file_name() -> (name: String)
    ensures
        name@ == wal_name(),
{
    "wal.log".to_string()
}

pub fn pending_file_name() -> (name: String)
    ensures
        name@ == pending_name(),
{
    "merge.pending".to_string()
}

/// The name under which a file is written before it is renamed.
pub open spec fn tmp_name(name: Seq<char>) -> Seq<char> {
    name + ".tmp"@
}

pub open spec fn is_tmp(name: Seq<char>) -> bool {
    ends_with(name, ".tmp"@)
}

/// The name of the table file `id` of a level.
pub open spec fn table_name(level: u32, id: u64) -> Seq<char> {
    "sstable_L"@ + decimal(level as nat) + "_"@ + padded(id as nat, 6) + ".sst"@
}

/// What stands between `sstable_` and `.sst` in a name.
pub open spec fn table_stem(name: Seq<char>) -> Option<Seq<char>> {
    if starts_with(name, "sstable_"@) && ends_with(name.skip(8), ".sst"@) {
        Some(name.subrange(8, name.len() - 4))
    } else {
        None
    }
}

/// The id and the level that a stem tells: `L<level>_<id>`, or `<id>` alone at level 0.
pub open spec fn parse_stem(stem: Seq<char>) -> Option<(u64, u32)> {
    if stem.len() > 0 && stem[0] == 'L' {
        let rest = stem.skip(1);
        let at = first_index(rest, '_');
        if at < rest.len() {
            match (parse_unsigned(rest.skip(at + 1), u64::MAX as nat), parse_unsigned(rest.take(at), u32::MAX as nat)) {
                (Some(id), Some(level)) => Some((id as u64, level as u32)),
                _ => None,
            }
        } else {
            None
        }
    } else {
        match parse_unsigned(stem, u64::MAX as nat) {
            Some(id) => Some((id as u64, 0)),
            None => None,
        }
    }
}

/// The id and the level that the name of a table file tells; `None` for other names.
pub open spec fn parse_table_name(name: Seq<char>) -> Option<(u64, u32)> {
    match table_stem(name) {
        Some(stem) => parse_stem(stem),
        None => None,
    }
}

/// The name of the table file `id` of a level.
pub fn sstable_file_name(level: u32, id: u64) -> (name: String)
    ensures
        name@ == table_name(level, id),
{
    let name = "sstable_L".to_owned().concat(decimal_string(level as u64).as_str());
    name.concat("_").concat(padded_string(id, 6).as_str()).concat(".sst")
}

/// The name under which a file is written before it is renamed.
pub fn tmp_file_name(name: &str) -> (tmp: String)
    ensures
        tmp@ == tmp_name(name@),
{
    name.to_owned().concat(".tmp")
}

/// Whether a file was left behind before it was renamed.
pub fn is_tmp_file_name(name: &str) -> (tmp: bool)
    ensures
        tmp == is_tmp(name@),
{
    has_suffix(chars_of(name).as_slice(), ".tmp")
}

/// The id and the level that the name of a table file tells.
pub fn parse_sstable_file_name(name: &str) -> (parsed: Option<(u64, u32)>)
    ensures
        parsed == parse_table_name(name@),
{
    let chars = chars_of(name);
    let len: usize = chars.len();
    proof {
        reveal_strlit("sstable_");
        reveal_strlit(".sst");
    }
    if !has_prefix(chars.as_slice(), "sstable_") {
        return None;
    }
    let tail = sub_chars(chars.as_slice(), 8, len);
    proof {
        assert(tail@ =~= name@.skip(8));
    }
    if !has_suffix(tail.as_slice(), ".sst") {
        return None;
    }
    let stem = sub_chars(chars.as_slice(), 8, len - 4);
    if stem.len() > 0 && stem[0] == 'L' {
        let rest = sub_chars(stem.as_slice(), 1, stem.len());
        proof {
            assert(rest@ =~= stem@.skip(1));
            assert(rest@.skip(0) =~= rest@);
        }
        let at = find_char(rest.as_slice(), 0, '_');
        if at == rest.len() {
            return None;
        }
        let level_chars = sub_chars(rest.as_slice(), 0, at);
        let id_chars = sub_chars(rest.as_slice(), at + 1, rest.len());
        proof {
            assert(level_chars@ =~= rest@.take(at as int));
            assert(id_chars@ =~= rest@.skip(at + 1));
        }
        let id: u64 = match parse_u64(id_chars.as_slice()) {
            Some(id) => id,
            None => {
                return None;
            },
        };
        match parse_u32(level_chars.as_slice()) {
            Some(level) => Some((id, level)),
            None => None,
        }
    } else {
        match parse_u64(stem.as_slice()) {
            Some(id) => Some((id, 0)),
            None => None,
        }
    }
}

/// The name of a table file tells its id and its level.
pub proof fn law_table_name_roundtrip(level: u32, id: u64)
    ensures
        parse_table_name(table_name(level, id)) == Some((id, level)),
{
    reveal_strlit("sstable_L");
    reveal_strlit("sstable_");
    reveal_strlit("_");
    reveal_strlit(".sst");
    let name = table_name(level, id);
    let level_text = decimal(level as nat);
    let id_text = padded(id as nat, 6);
    let rest = level_text + "_"@ + id_text;
    assert(name.take(8) =~= "sstable_"@);
    assert(name.skip(8).skip(name.skip(8).len() - 4) =~= ".sst"@);
    let stem = name.subrange(8, name.len() - 4);
    assert(stem[0] == 'L');
    assert(stem.skip(1) =~= rest);
    lemma_decimal_digits(level as nat);
    let at = level_text.len() as int;
    assert forall|j: int| 0 <= j < at implies rest[j] != '_' by {
        assert(rest[j] == level_text[j]);
        assert(is_digit(level_text[j]));
    }
    lemma_first_index(rest, '_', at);
    assert(rest.take(at) =~= level_text);
    assert(rest.skip(at + 1) =~= id_text);
    law_decimal_roundtrip(level as nat, u32::MAX as nat);
    law_padded_roundtrip(id as nat, 6, u64::MAX as nat);
}

/// A file that is still being written is neither a table, nor the log, nor the marker; and the
/// log and the marker are no tables.
pub proof fn law_names_are_apart(name: Seq<char>)
    ensures
        is_tmp(tmp_name(name)),
        is_tmp(name) ==> parse_table_name(name) is None,
        !is_tmp(wal_name()),
        !is_tmp(pending_name()),
        parse_table_name(wal_name()) is None,
        parse_table_name(pending_name()) is None,
        wal_name() != pending_name(),
{
    reveal_strlit("sstable_");
    reveal_strlit(".sst");
    reveal_strlit(".tmp");
    reveal_strlit("wal.log");
    reveal_strlit("merge.pending");
    assert(tmp_name(name).skip(tmp_name(name).len() - 4) =~= ".tmp"@);
    if is_tmp(name) && parse_table_name(name) is Some {
        let tail = name.skip(8);
        assert(name.skip(name.len() - 4)[3] == 'p');
        assert(tail.skip(tail.len() - 4)[3] == 't');
        assert(tail.skip(tail.len() - 4)[3] == name[name.len() - 1]);
    }
    assert(wal_name().skip(wal_name().len() - 4)[3] == 'g');
    assert(".tmp"@[3] == 'p');
    assert(pending_name().skip(pending_name().len() - 4)[3] == 'g');
    assert(pending_name().take(8)[0] == 'm');
    assert("sstable_"@[0] == 's');
    assert(wal_name().len() == 7);
}

/// The ids, with commas between them.
pub open spec fn ids_text(ids: Seq<u64>) -> Seq<char>
    decreases ids.len(),
{
    if ids.len() == 0 {
        Seq::empty()
    } else if ids.len() == 1 {
        decimal(ids[0] as nat)
    } else {
        ids_text(ids.drop_last()) + ","@ + decimal(ids.last() as nat)
    }
}

/// The marker of a merge.
pub open spec fn pending_text(outputs: Seq<u64>, inputs: Seq<u64>) -> Seq<char> {
    "outputs: "@ + ids_text(outputs) + "\ninputs: "@ + ids_text(inputs) + "\n"@
}

/// The number that a piece of text is, white space around it left out.
pub open spec fn parse_id(piece: Seq<char>) -> Option<u64> {
    match parse_unsigned(trimmed(piece), u64::MAX as nat) {
        Some(id) => Some(id as u64),
        None => None,
    }
}

/// The pieces that are numbers.
pub open spec fn parse_pieces(pieces: Seq<Seq<char>>) -> Seq<u64>
    decreases pieces.len(),
{
    if pieces.len() == 0 {
        Seq::empty()
    } else {
        match parse_id(pieces[0]) {
            Some(id) => seq![id] + parse_pieces(pieces.skip(1)),
            None => parse_pieces(pieces.skip(1)),
        }
    }
}

/// The numbers in a text that has commas between them.
pub open spec fn parse_ids_text(text: Seq<char>) -> Seq<u64> {
    parse_pieces(split_at_char(text, ','))
}

/// A merge that may not have been finished: the tables that it wrote and those that it read.
pub struct PendingMerge {
    pub outputs: Vec<u64>,
    pub inputs: Vec<u64>,
}

/// The outputs and inputs that a marker tells, given those of the lines before.
pub open spec fn parse_marker_lines(lines: Seq<Seq<char>>, outputs: Seq<u64>, inputs: Seq<u64>) -> (Seq<u64>, Seq<u64>)
    decreases lines.len(),
{
    if lines.len() == 0 {
        (outputs, inputs)
    } else if starts_with(lines[0], "outputs:"@) {
        parse_marker_lines(lines.skip(1), parse_ids_text(lines[0].skip(8)), inputs)
    } else if starts_with(lines[0], "inputs:"@) {
        parse_marker_lines(lines.skip(1), outputs, parse_ids_text(lines[0].skip(7)))
    } else {
        parse_marker_lines(lines.skip(1), outputs, inputs)
    }
}

/// The outputs and inputs that a marker tells.
pub open spec fn parse_marker(text: Seq<char>) -> (Seq<u64>, Seq<u64>) {
    parse_marker_lines(lines_of(text), Seq::empty(), Seq::empty())
}

/// The ids, with commas between them.
pub fn join_ids(ids: &[u64]) -> (text: String)
    ensures
        text@ == ids_text(ids@),
{
    let mut text = String::new();
    let mut i: usize = 0;
    proof {
        assert(ids@.take(0) =~= Seq::<u64>::empty());
        assert(text@ =~= Seq::<char>::empty());
    }
    while i < ids.len()
        invariant
            i <= ids@.len(),
            text@ == ids_text(ids@.take(i as int)),
        decreases ids@.len() - i,
    {
        if i > 0 {
            text = text.concat(",");
        }
        text = text.concat(decimal_string(ids[i]).as_str());
        proof {
            assert(ids@.take(i + 1).drop_last() =~= ids@.take(i as int));
            assert(text@ =~= ids_text(ids@.take(i + 1)));
        }
        i = i + 1;
    }
    proof {
        assert(ids@.take(i as int) =~= ids@);
    }
    text
}

/// The marker of a merge.
pub fn pending_merge_text(outputs: &[u64], inputs: &[u64]) -> (text: String)
    ensures
        text@ == pending_text(outputs@, inputs@),
{
    let text = "outputs: ".to_owned().concat(join_ids(outputs).as_str());
    text.concat("\ninputs: ").concat(join_ids(inputs).as_str()).concat("\n")
}

/// The numbers in `chars[from..to]`, which has commas between them.
pub fn parse_ids(chars: &[char], from: usize, to: usize) -> (ids: Vec<u64>)
    requires
        from <= to <= chars@.len(),
    ensures
        ids@ == parse_ids_text(chars@.subrange(from as int, to as int)),
{
    let text = sub_chars(chars, from, to);
    let mut ids: Vec<u64> = Vec::new();
    let mut at: usize = 0;
    proof {
        assert(text@.skip(0) =~= text@);
        assert(ids@ + parse_ids_text(text@) =~= parse_ids_text(text@));
    }
    loop
        invariant_except_break
            at <= text@.len(),
            ids@ + parse_ids_text(text@.skip(at as int)) == parse_ids_text(text@),
        ensures
            ids@ == parse_ids_text(text@),
        decreases text@.len() - at,
    {
        let end = find_char(text.as_slice(), at, ',');
        let ghost rest = text@.skip(at as int);
        let ghost before = ids@;
        let ghost piece = text@.subrange(at as int, end as int);
        match parse_u64(trim_chars(text.as_slice(), at, end).as_slice()) {
            Some(id) => {
                ids.push(id);
            },
            None => {},
        }
        proof {
            assert(rest.take(end - at) =~= piece);
            if end < text@.len() {
                let more = text@.skip(end + 1);
                assert(rest.skip(end - at + 1) =~= more);
                let pieces = split_at_char(rest, ',');
                assert(pieces[0] == piece);
                assert(pieces.skip(1) =~= split_at_char(more, ','));
                assert(ids@ + parse_ids_text(more) =~= before + parse_ids_text(rest));
            } else {
                assert(rest =~= piece);
                let pieces = split_at_char(rest, ',');
                assert(pieces =~= seq![rest]);
                assert(pieces.skip(1) =~= Seq::<Seq<char>>::empty());
                assert(parse_pieces(pieces.skip(1)) =~= Seq::<u64>::empty());
                assert(ids@ =~= before + parse_ids_text(rest));
            }
        }
        if end == text.len() {
            break;
        }
        at = end + 1;
    }
    ids
}

/// The outputs and inputs that a marker tells.
pub fn parse_pending_merge(content: &str) -> (pending: PendingMerge)
    ensures
        (pending.outputs@, pending.inputs@) == parse_marker(content@),
{
    let chars = chars_of(content);
    let mut outputs: Vec<u64> = Vec::new();
    let mut inputs: Vec<u64> = Vec::new();
    let mut at: usize = 0;
    proof {
        reveal_strlit("outputs:");
        reveal_strlit("inputs:");
        assert(chars@.skip(0) =~= chars@);
        assert(outputs@ =~= Seq::<u64>::empty());
        assert(inputs@ =~= Seq::<u64>::empty());
    }
    while at < chars.len()
        invariant
            "outputs:"@.len() == 8,
            "inputs:"@.len() == 7,
            at <= chars@.len(),
            chars@ == content@,
            parse_marker_lines(lines_of(chars@.skip(at as int)), outputs@, inputs@) == parse_marker(content@),
        decreases chars@.len() - at,
    {
        let end = find_char(chars.as_slice(), at, '\n');
        let ghost rest = chars@.skip(at as int);
        let mut line_end: usize = end;
        if end < chars.len() && end > at && chars[end - 1] == '\r' {
            line_end = end - 1;
        }
        let line = sub_chars(chars.as_slice(), at, line_end);
        let next: usize = if end < chars.len() {
            end + 1
        } else {
            end
        };
        proof {
            let lines = lines_of(rest);
            assert(rest.len() > 0);
            if end < chars@.len() {
                assert(rest.take(end - at) =~= chars@.subrange(at as int, end as int));
                if line_end < end {
                    assert(rest.take(end - at).drop_last() =~= line@);
                } else if end > at {
                    assert(rest.take(end - at).last() == chars@[end - 1]);
                }
                assert(without_return(rest.take(end - at)) =~= line@);
                assert(rest.skip(end - at + 1) =~= chars@.skip(next as int));
                assert(lines.skip(1) =~= lines_of(chars@.skip(next as int)));
            } else {
                assert(line@ =~= rest);
                assert(lines.skip(1) =~= Seq::<Seq<char>>::empty());
                assert(chars@.skip(next as int) =~= Seq::<char>::empty());
                assert(lines_of(chars@.skip(next as int)) =~= Seq::<Seq<char>>::empty());
            }
            assert(lines[0] == line@);
            assert(line@.len() >= 8 ==> line@.subrange(8, line@.len() as int) =~= line@.skip(8));
            assert(line@.len() >= 7 ==> line@.subrange(7, line@.len() as int) =~= line@.skip(7));
        }
        if has_prefix(line.as_slice(), "outputs:") {
            outputs = parse_ids(line.as_slice(), 8, line.len());
        } else if has_prefix(line.as_slice(), "inputs:") {
            inputs = parse_ids(line.as_slice(), 7, line.len());
        }
        at = next;
    }
    proof {
        assert(chars@.skip(at as int) =~= Seq::<char>::empty());
        assert(lines_of(chars@.skip(at as int)) =~= Seq::<Seq<char>>::empty());
    }
    PendingMerge { outputs, inputs }
}

/// Neither a comma nor a line ending stands in the text of a number.
proof fn lemma_number_text(id: u64)
    ensures
        decimal(id as nat).len() > 0,
        forall|i: int| 0 <= i < decimal(id as nat).len() ==> is_digit(#[trigger] decimal(id as nat)[i]),
        trimmed(decimal(id as nat)) == decimal(id as nat),
        trimmed(seq![' '] + decimal(id as nat)) == decimal(id as nat),
        parse_unsigned(decimal(id as nat), u64::MAX as nat) == Some(id as nat),
{
    let digits = decimal(id as nat);
    lemma_decimal_digits(id as nat);
    law_decimal_roundtrip(id as nat, u64::MAX as nat);
    assert(is_digit(digits[0]));
    assert(is_digit(digits[digits.len() - 1]));
    let spaced = seq![' '] + digits;
    assert(spaced.skip(1) =~= digits);
    assert(trim_start(digits) == digits);
    assert(trim_start(spaced) == digits);
}

/// The text of several ids starts with the first.
proof fn lemma_ids_text_front(ids: Seq<u64>)
    requires
        ids.len() >= 2,
    ensures
        ids_text(ids) == decimal(ids[0] as nat) + ","@ + ids_text(ids.skip(1)),
    decreases ids.len(),
{
    let before = ids.drop_last();
    let rest = ids.skip(1);
    assert(rest.drop_last() =~= before.skip(1));
    if ids.len() == 2 {
        assert(ids_text(before) == decimal(ids[0] as nat));
        assert(ids_text(rest) == decimal(ids[1] as nat));
    } else {
        lemma_ids_text_front(before);
        assert(ids_text(ids) =~= decimal(ids[0] as nat) + ","@ + ids_text(rest));
    }
}

proof fn lemma_ids_text_chars(ids: Seq<u64>)
    ensures
        forall|i: int| 0 <= i < ids_text(ids).len() ==> is_digit(#[trigger] ids_text(ids)[i]) || ids_text(ids)[i] == ',',
    decreases ids.len(),
{
    reveal_strlit(",");
    let text = ids_text(ids);
    if ids.len() > 0 {
        let digits = decimal(ids.last() as nat);
        lemma_number_text(ids.last());
        if ids.len() > 1 {
            let before = ids_text(ids.drop_last());
            lemma_ids_text_chars(ids.drop_last());
            assert forall|i: int| 0 <= i < text.len() implies is_digit(#[trigger] text[i]) || text[i] == ',' by {
                if i < before.len() {
                    assert(text[i] == before[i]);
                } else if i > before.len() {
                    assert(text[i] == digits[i - before.len() - 1]);
                }
            }
        } else {
            assert(text == digits);
        }
    }
}

proof fn lemma_single_piece(piece: Seq<char>)
    requires
        forall|j: int| 0 <= j < piece.len() ==> piece[j] != ',',
    ensures
        parse_ids_text(piece) == (match parse_id(piece) {
            Some(id) => seq![id],
            None => Seq::empty(),
        }),
{
    lemma_first_index(piece, ',', piece.len() as int);
    let pieces = split_at_char(piece, ',');
    assert(pieces =~= seq![piece]);
    assert(pieces.skip(1) =~= Seq::<Seq<char>>::empty());
    assert(parse_pieces(pieces.skip(1)) =~= Seq::<u64>::empty());
    assert(parse_id(piece) is Some ==> parse_ids_text(piece) =~= seq![parse_id(piece)->0]);
}

proof fn lemma_first_piece(piece: Seq<char>, rest: Seq<char>)
    requires
        forall|j: int| 0 <= j < piece.len() ==> piece[j] != ',',
        parse_id(piece) is Some,
    ensures
        parse_ids_text(piece + seq![','] + rest) == seq![parse_id(piece)->0] + parse_ids_text(rest),
{
    let text = piece + seq![','] + rest;
    let at = piece.len() as int;
    assert forall|j: int| 0 <= j < at implies text[j] != ',' by {
        assert(text[j] == piece[j]);
    }
    assert(text[at] == ',');
    lemma_first_index(text, ',', at);
    assert(text.take(at) =~= piece);
    assert(text.skip(at + 1) =~= rest);
    let pieces = split_at_char(text, ',');
    assert(pieces[0] == piece);
    assert(pieces.skip(1) =~= split_at_char(rest, ','));
}

/// Ids are read back from their text, with or without a space in front.
proof fn lemma_ids_roundtrip(ids: Seq<u64>, front: Seq<char>)
    requires
        front == Seq::<char>::empty() || front == seq![' '],
    ensures
        parse_ids_text(front + ids_text(ids)) == ids,
    decreases ids.len(),
{
    reveal_strlit(",");
    let text = front + ids_text(ids);
    if ids.len() == 0 {
        assert(text =~= front);
        assert(seq![' '].skip(1) =~= Seq::<char>::empty());
        assert(trim_start(Seq::<char>::empty()) == Seq::<char>::empty());
        assert(trim_start(text) =~= Seq::<char>::empty());
        assert(trimmed(text) =~= Seq::<char>::empty());
        assert(parse_id(text) is None);
        lemma_single_piece(text);
        assert(ids =~= Seq::<u64>::empty());
    } else {
        let digits = decimal(ids[0] as nat);
        let piece = front + digits;
        lemma_number_text(ids[0]);
        assert(front == Seq::<char>::empty() ==> piece =~= digits);
        assert(parse_id(piece) == Some(ids[0]));
        assert forall|j: int| 0 <= j < piece.len() implies piece[j] != ',' by {
            if j >= front.len() {
                assert(piece[j] == digits[j - front.len()]);
            }
        }
        if ids.len() == 1 {
            lemma_single_piece(piece);
            assert(seq![ids[0]] =~= ids);
        } else {
            let rest = ids.skip(1);
            lemma_ids_text_front(ids);
            assert(","@ =~= seq![',']);
            assert(text =~= piece + seq![','] + ids_text(rest));
            lemma_ids_roundtrip(rest, Seq::empty());
            assert(Seq::<char>::empty() + ids_text(rest) =~= ids_text(rest));
            lemma_first_piece(piece, ids_text(rest));
            assert(seq![ids[0]] + rest =~= ids);
        }
    }
}

/// The marker of a merge tells its outputs and its inputs.
pub proof fn law_pending_roundtrip(outputs: Seq<u64>, inputs: Seq<u64>)
    ensures
        parse_marker(pending_text(outputs, inputs)) == (outputs, inputs),
{
    reveal_strlit("outputs: ");
    reveal_strlit("outputs:");
    reveal_strlit("\ninputs: ");
    reveal_strlit("inputs:");
    reveal_strlit("\n");
    let text = pending_text(outputs, inputs);
    let first = "outputs: "@ + ids_text(outputs);
    let second = seq!['i', 'n', 'p', 'u', 't', 's', ':', ' '] + ids_text(inputs);
    lemma_ids_text_chars(outputs);
    lemma_ids_text_chars(inputs);
    let a = first.len() as int;
    assert forall|j: int| 0 <= j < a implies text[j] != '\n' by {
        assert(text[j] == first[j]);
        if j >= 9 {
            assert(first[j] == ids_text(outputs)[j - 9]);
        }
    }
    assert(text[a] == '\n');
    lemma_first_index(text, '\n', a);
    assert(text.take(a) =~= first);
    assert(first.last() != '\r') by {
        if ids_text(outputs).len() > 0 {
            assert(first.last() == ids_text(outputs)[ids_text(outputs).len() - 1]);
        }
    }
    let rest = text.skip(a + 1);
    assert(rest =~= second + "\n"@);
    let b = second.len() as int;
    assert forall|j: int| 0 <= j < b implies rest[j] != '\n' by {
        assert(rest[j] == second[j]);
        if j >= 8 {
            assert(second[j] == ids_text(inputs)[j - 8]);
        }
    }
    lemma_first_index(rest, '\n', b);
    assert(rest.take(b) =~= second);
    assert(second.last() != '\r') by {
        if ids_text(inputs).len() > 0 {
            assert(second.last() == ids_text(inputs)[ids_text(inputs).len() - 1]);
        }
    }
    assert(rest.skip(b + 1) =~= Seq::<char>::empty());
    assert(lines_of(Seq::<char>::empty()) =~= Seq::<Seq<char>>::empty());
    assert(lines_of(rest) =~= seq![second]);
    let lines = lines_of(text);
    assert(lines =~= seq![first, second]);
    assert(first.take(8) =~= "outputs:"@);
    assert(first.skip(8) =~= seq![' '] + ids_text(outputs));
    assert(second.take(7) =~= "inputs:"@);
    assert(second.take(8)[0] == 'i');
    assert("outputs:"@[0] == 'o');
    assert(!starts_with(second, "outputs:"@));
    assert(second.skip(7) =~= seq![' '] + ids_text(inputs));
    lemma_ids_roundtrip(outputs, seq![' ']);
    lemma_ids_roundtrip(inputs, seq![' ']);
    assert(lines.skip(1) =~= seq![second]);
    assert(seq![second].skip(1) =~= Seq::<Seq<char>>::empty());
    assert(parse_marker_lines(Seq::<Seq<char>>::empty(), outputs, inputs) == (outputs, inputs));
    assert(parse_marker_lines(seq![second], outputs, Seq::<u64>::empty()) == (outputs, inputs));
}

/// A name without a level is that of a table of level 0.
pub proof fn law_name_without_a_level(id: u64, width: nat)
    ensures
        parse_table_name("sstable_"@ + padded(id as nat, width) + ".sst"@) == Some((id, 0u32)),
{
    reveal_strlit("sstable_");
    reveal_strlit(".sst");
    let digits = padded(id as nat, width);
    let name = "sstable_"@ + digits + ".sst"@;
    law_padded_roundtrip(id as nat, width, u64::MAX as nat);
    lemma_decimal_digits(id as nat);
    assert(digits.len() > 0);
    assert(is_digit(digits[0]));
    assert(name.take(8) =~= "sstable_"@);
    assert(name.skip(8).skip(name.skip(8).len() - 4) =~= ".sst"@);
    assert(name.subrange(8, name.len() - 4) =~= digits);
}

/// The names of the log and of the marker, and how a file is told that is still being written.
pub proof fn law_fixed_names(name: Seq<char>)
    ensures
        wal_name() == "wal.log"@,
        pending_name() == "merge.pending"@,
        tmp_name(name) == name + ".tmp"@,
        is_tmp(name) <==> ".tmp"@.is_suffix_of(name),
{
    let n = ".tmp"@.len() as int;
    if name.len() >= n {
        assert(name.skip(name.len() - n) =~= name.subrange(name.len() - n, name.len() as int));
    }
}

/// The marker of a merge has a line for the outputs and one for the inputs, with the ids in decimal and
/// commas between them.
pub proof fn law_marker_form(outputs: Seq<u64>, inputs: Seq<u64>, id: u64)
    ensures
        pending_text(outputs, inputs) == "outputs: "@ + ids_text(outputs) + "\ninputs: "@ + ids_text(inputs) + "\n"@,
        ids_text(Seq::empty()) == Seq::<char>::empty(),
        ids_text(inputs.push(id)) == (if inputs.len() == 0 {
            decimal(id as nat)
        } else {
            ids_text(inputs) + ","@ + decimal(id as nat)
        }),
{
    assert(inputs.push(id).drop_last() =~= inputs);
}

}
