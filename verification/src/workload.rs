//! A fixed workload, which a seed determines.
use crate::db::DbOptions;
use crate::fault::Fault;
use crate::text::{decimal, decimal_string, padded, padded_string};
use vstd::prelude::*;

verus! {

/// How many keys the workload uses.
pub const KEY_SPACE: u64 = 24;

/// The state that follows in the sequence of pseudo-random numbers.
pub open spec fn state_after(state: u64) -> u64 {
    state.wrapping_mul(6364136223846793005).wrapping_add(1442695040888963407)
}

pub fn next_state(state: u64) -> (next: u64)
    ensures
        next == state_after(state),
{
    state.wrapping_mul(6364136223846793005).wrapping_add(1442695040888963407)
}

/// A write of the workload: a value for a key, or its removal.
#[derive(Debug, Clone, PartialEq, Eq)]
pub struct Operation {
    pub key: String,
    pub value: Option<String>,
}

pub open spec fn workload_key(state: u64) -> Seq<char> {
    "key"@ + padded((state % KEY_SPACE) as nat, 3)
}

pub open spec fn workload_value(index: u64, state: u64) -> Seq<char> {
    "value"@ + decimal(index as nat) + "_"@ + decimal((state % 1000) as nat)
}

/// Whether the write number `index`, drawn from a state, is a removal.
pub open spec fn is_removal(state: u64) -> bool {
    state % 5 == 0
}

/// Draws the write number `index`, and hands back the state behind it.
pub fn draw(state: u64, index: u64) -> (drawn: (Operation, u64))
    ensures
        ({
            let first = state_after(state);
            let (operation, next) = drawn;
            &&& operation.key@ == workload_key(first)
            &&& if is_removal(first) {
                operation.value is None && next == first
            } else {
                let second = state_after(first);
                operation.value matches Some(value) && value@ == workload_value(index, second) && next == second
            }
        }),
{
    let first: u64 = next_state(state);
    let key = "key".to_owned().concat(padded_string(first % KEY_SPACE, 3).as_str());
    if first % 5 == 0 {
        return (Operation { key, value: None }, first);
    }
    let second: u64 = next_state(first);
    let value = "value".to_owned().concat(decimal_string(index).as_str()).concat("_");
    let value = value.concat(decimal_string(second % 1000).as_str());
    (Operation { key, value: Some(value) }, second)
}

/// What is done to a key, as announced.
pub open spec fn announced(word: Seq<char>, index: u64, key: Seq<char>, value: Option<Seq<char>>) -> Seq<char> {
    match value {
        Some(value) => word + " put "@ + decimal(index as nat) + " "@ + key + " "@ + value,
        None => word + " del "@ + decimal(index as nat) + " "@ + key,
    }
}

/// The line that announces a write: `word` tells whether it is tried or was acknowledged.
pub fn announcement(word: &str, index: u64, operation: &Operation) -> (text: String)
    ensures
        text@ == announced(
            word@,
            index,
            operation.key@,
            match operation.value {
                Some(value) => Some(value@),
                None => None,
            },
        ),
{
    match &operation.value {
        Some(value) => {
            let text = word.to_owned().concat(" put ").concat(decimal_string(index).as_str()).concat(" ");
            text.concat(operation.key.as_str()).concat(" ").concat(value.as_str())
        },
        None => {
            let text = word.to_owned().concat(" del ").concat(decimal_string(index).as_str()).concat(" ");
            text.concat(operation.key.as_str())
        },
    }
}

/// The line that tells why the workload stopped.
pub fn failure_line(what: &str, index: u64, message: &str) -> (text: String)
    ensures
        text@ == "FAULT "@ + what@ + " "@ + decimal(index as nat) + " "@ + message@,
{
    let text = "FAULT ".to_owned().concat(what).concat(" ").concat(decimal_string(index).as_str());
    text.concat(" ").concat(message)
}

/// Whether the memtable is flushed behind the write number `index`.
pub fn flushes_after(index: u64) -> (due: bool)
    ensures
        due == (index % 16 == 15),
{
    index % 16 == 15
}

/// Whether tables are merged behind the write number `index`.
pub fn compacts_after(index: u64) -> (due: bool)
    ensures
        due == (index % 32 == 31),
{
    index % 32 == 31
}

/// The options under which the workload runs: small budgets, so that every path is taken.
pub fn workload_options(flush_threshold: usize, l0_compaction_threshold: usize, fault: Option<Fault>) -> (options: DbOptions)
    ensures
        options == (DbOptions {
            flush_threshold,
            l0_compaction_threshold,
            level_size_multiplier: 2,
            target_level_size: 512,
            target_file_size: 256,
            fault,
        }),
{
    DbOptions {
        flush_threshold,
        l0_compaction_threshold,
        level_size_multiplier: 2,
        target_level_size: 512,
        target_file_size: 256,
        fault,
    }
}

/// The states of the workload are those of a linear congruential generator modulo two to the 64.
pub proof fn law_states_follow_one_another(state: u64)
    ensures
        state_after(state) == (state * 6364136223846793005 + 1442695040888963407) % 18446744073709551616,
{
    let product = state * 6364136223846793005;
    assert(product >= 0) by (nonlinear_arith)
        requires
            product == state * 6364136223846793005,
    ;
    vstd::arithmetic::div_mod::lemma_add_mod_noop(product, 1442695040888963407, 18446744073709551616);
    vstd::arithmetic::div_mod::lemma_small_mod(1442695040888963407, 18446744073709551616);
}

/// The keys of the workload are `key000` to `key023`, by the state modulo 24; every fifth state removes
/// one, and the values tell the number of the write and the state modulo 1000.
pub proof fn law_writes_of_the_workload(state: u64, index: u64)
    ensures
        workload_key(state) == "key"@ + padded((state % 24) as nat, 3),
        is_removal(state) <==> state % 5 == 0,
        workload_value(index, state) == "value"@ + decimal(index as nat) + "_"@ + decimal((state % 1000) as nat),
{
}

}
