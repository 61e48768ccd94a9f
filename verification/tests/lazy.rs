use std::cell::Cell;
use typestore::context::{Context, ContextError, DataPlugin};
use typestore::StoreError;

const KEY_A: u64 = 1;
const KEY_B: u64 = 2;
const KEY_C: u64 = 3;

/// A's value is B's plus one, B's is C's plus one, C starts at zero.
struct ChainProgram;

impl DataPlugin<usize> for ChainProgram {
    fn init(&self, key: u64, dep_values: &Vec<&usize>) -> usize {
        match key {
            KEY_A | KEY_B => *dep_values[0] + 1,
            _ => 0,
        }
    }
}

fn chain_context() -> Context<usize> {
    let mut context: Context<usize> = Context::new();
    context.add_plugin_to_registry(KEY_A, vec![KEY_B]).unwrap();
    context.add_plugin_to_registry(KEY_B, vec![KEY_C]).unwrap();
    context.add_plugin_to_registry(KEY_C, vec![]).unwrap();
    context
}

#[test]
fn main_test() {
    let mut context = chain_context();

    assert_eq!(*context.get_data(&ChainProgram, KEY_C).unwrap(), 0);
    assert_eq!(*context.get_data(&ChainProgram, KEY_A).unwrap(), 2);
    assert_eq!(*context.get_data(&ChainProgram, KEY_B).unwrap(), 1);
}

#[test]
fn main_test_mut() {
    let mut context = chain_context();

    *context.get_data_mut(&ChainProgram, KEY_C).unwrap() = 1;
    assert_eq!(*context.get_data(&ChainProgram, KEY_A).unwrap(), 3);
    assert_eq!(*context.get_data(&ChainProgram, KEY_B).unwrap(), 2);
}

#[test]
fn lazy_chain_order_does_not_matter() {
    let mut context = chain_context();
    assert_eq!(*context.get_data(&ChainProgram, KEY_A).unwrap(), 2);
    assert_eq!(*context.get_data(&ChainProgram, KEY_B).unwrap(), 1);
    assert_eq!(*context.get_data(&ChainProgram, KEY_C).unwrap(), 0);
}

/// Counts how often the initializer actually runs.
struct CountingProgram {
    runs: Cell<u32>,
}

impl DataPlugin<u32> for CountingProgram {
    fn init(&self, _key: u64, _dep_values: &Vec<&u32>) -> u32 {
        self.runs.set(self.runs.get() + 1);
        42
    }
}

#[test]
fn lazy_initializer_runs_exactly_once() {
    let program = CountingProgram { runs: Cell::new(0) };
    let mut context: Context<u32> = Context::new();
    context.add_plugin_to_registry(5, vec![]).unwrap();

    assert_eq!(*context.get_data(&program, 5).unwrap(), 42);
    assert_eq!(*context.get_data(&program, 5).unwrap(), 42);
    assert_eq!(*context.get_data_mut(&program, 5).unwrap(), 42);
    assert_eq!(program.runs.get(), 1);
}

#[test]
fn lazy_mutation_sticks_without_recomputation() {
    let program = CountingProgram { runs: Cell::new(0) };
    let mut context: Context<u32> = Context::new();
    context.add_plugin_to_registry(5, vec![]).unwrap();

    *context.get_data_mut(&program, 5).unwrap() = 7;
    assert_eq!(*context.get_data(&program, 5).unwrap(), 7);
    assert_eq!(*context.get_data_mut(&program, 5).unwrap(), 7);
    assert_eq!(program.runs.get(), 1);
}

#[test]
fn lazy_self_dependency_is_a_cycle() {
    let mut context: Context<usize> = Context::new();
    context.add_plugin_to_registry(9, vec![9]).unwrap();
    assert_eq!(
        context.get_data(&ChainProgram, 9).unwrap_err(),
        ContextError::CircularDependency
    );
}

#[test]
fn lazy_mutual_dependency_is_a_cycle() {
    let mut context: Context<usize> = Context::new();
    context.add_plugin_to_registry(KEY_A, vec![KEY_B]).unwrap();
    context.add_plugin_to_registry(KEY_B, vec![KEY_A]).unwrap();
    assert_eq!(
        context.get_data(&ChainProgram, KEY_A).unwrap_err(),
        ContextError::CircularDependency
    );
    assert_eq!(
        context.get_data_mut(&ChainProgram, KEY_B).unwrap_err(),
        ContextError::CircularDependency
    );
}

#[test]
fn lazy_unregistered_key_is_reported() {
    let mut context: Context<usize> = Context::new();
    assert_eq!(
        context.get_data(&ChainProgram, 77).unwrap_err(),
        ContextError::NotRegistered
    );
    context.add_plugin_to_registry(KEY_A, vec![77]).unwrap();
    assert_eq!(
        context.get_data(&ChainProgram, KEY_A).unwrap_err(),
        ContextError::NotRegistered
    );
}

#[test]
fn lazy_double_registration_is_refused() {
    let mut context: Context<usize> = Context::new();
    assert!(context.add_plugin_to_registry(KEY_A, vec![]).is_ok());
    assert_eq!(
        context.add_plugin_to_registry(KEY_A, vec![KEY_B]).unwrap_err(),
        StoreError::KeyAlreadyPresent
    );
}

#[test]
fn lazy_absent_until_first_access() {
    let program = CountingProgram { runs: Cell::new(0) };
    let mut context: Context<u32> = Context::new();
    context.add_plugin_to_registry(5, vec![]).unwrap();
    assert_eq!(program.runs.get(), 0);
    let _ = context.get_data(&program, 5).unwrap();
    assert_eq!(program.runs.get(), 1);
}
