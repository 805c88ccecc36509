use optimism::coordinator::coordinator::{
    finished, Executed, ExecutionResult, ExecutionRun, ParallelExecutionCoordinator, Progress,
};
use optimism::db::versioned::VersionedStateDB;
use optimism::parallel::operation_logs::{Context, Operation};
use optimism::parallel::reexecution::ReexecutionStep;
use optimism::primitives::{Address, U256};
use std::time::Instant;

struct MockTransaction {
    index: usize,
    gas_price: u64,
    estimated_gas: u64,
    operations: Vec<Operation>,
}

impl MockTransaction {
    fn new(index: usize, gas_price: u64, estimated_gas: u64) -> Self {
        Self { index, gas_price, estimated_gas, operations: Vec::new() }
    }

    fn add_operation(&mut self, operation: Operation) {
        self.operations.push(operation);
    }
}

/// Numbers that do not repeat within a test.
struct Source {
    state: u64,
}

impl Source {
    fn new() -> Self {
        Self { state: 0x9e3779b97f4a7c15 }
    }

    fn number(&mut self) -> u64 {
        self.state ^= self.state << 13;
        self.state ^= self.state >> 7;
        self.state ^= self.state << 17;
        self.state
    }

    fn address(&mut self) -> Address {
        Address { hi: self.number() as u32, lo: self.number() as u128 }
    }

    fn word(&mut self) -> U256 {
        U256 { hi: self.number() as u128, lo: self.number() as u128 }
    }
}

fn score(gas_price: u64, estimated_gas: u64, dependencies: usize) -> u64 {
    let score = gas_price as f64
        * (1.0 / (1.0 + dependencies as f64))
        * (1.0 / (1.0 + estimated_gas as f64));
    score.to_bits()
}

fn setup_coordinator<'a>() -> ParallelExecutionCoordinator<'a, (), usize> {
    ParallelExecutionCoordinator::new(8, 5_000_000_000, 3)
}

fn contexts_of(transactions: &[MockTransaction]) -> Vec<Context<(), usize>> {
    transactions.iter().map(|tx| Context { block: (), tx: tx.index }).collect()
}

/// Runs a transaction: its operations go into its log.
fn run_transaction<'a>(
    coordinator: &mut ParallelExecutionCoordinator<'a, (), usize>,
    transactions: &[MockTransaction],
    tx_idx: usize,
) {
    coordinator.execute_transaction();
    let db = VersionedStateDB::new();
    let position = coordinator.position_of(tx_idx).unwrap();
    let log = coordinator.operation_log(position).write().unwrap();
    for operation in &transactions[position].operations {
        match *operation {
            Operation::Read { address, slot } => {
                let _ = log.record_read_versioned(address, slot, &db);
            }
            Operation::Write { address, slot, value, original_value } => {
                log.record_write_versioned(address, slot, value, original_value).unwrap();
            }
            Operation::AccountAccess { address } => log.record_account_access(address),
            Operation::CodeAccess { address } => log.record_code_access(address),
        }
    }
}

fn execute_transactions<'a>(
    coordinator: &mut ParallelExecutionCoordinator<'a, (), usize>,
    transactions: &[MockTransaction],
    contexts: &'a Vec<Context<(), usize>>,
) -> Option<Vec<ExecutionResult<()>>> {
    let indices = transactions.iter().map(|tx| tx.index).collect();
    let mut run: ExecutionRun<()> = coordinator.begin_transactions(indices, contexts);
    for tx in transactions {
        let dependencies = coordinator.predict_dependencies(tx.index).len();
        let priority = score(tx.gas_price, tx.estimated_gas, dependencies);
        let price = U256::from_u64(tx.gas_price);
        coordinator.schedule_transaction(tx.index, price, tx.estimated_gas, priority, 0);
    }
    loop {
        match coordinator.execute_transactions(run) {
            Progress::Finished { results } => return Some(results),
            Progress::Incomplete { .. } => return None,
            Progress::Execute { run: next, batch } => {
                run = next;
                let mut started = Vec::new();
                for tx_idx in &batch {
                    started.push(Instant::now());
                    run_transaction(coordinator, transactions, *tx_idx);
                }
                let mut outcomes = Vec::new();
                let checks = coordinator.check_batch(&batch);
                for ((tx_idx, check), start_time) in checks.into_iter().zip(started) {
                    let first = Executed { result: (), gas_used: 21000 };
                    let mut again = None;
                    if let Some(plan) = &check.plan {
                        let mut done = 0;
                        loop {
                            match coordinator.reexecute(tx_idx, plan, done) {
                                ReexecutionStep::Execute { .. } => {
                                    again = Some(Executed { result: (), gas_used: 21000 });
                                    done += 1;
                                }
                                ReexecutionStep::Finished => break,
                                ReexecutionStep::Failed(e) => panic!("{:?}", e),
                            }
                        }
                    }
                    let elapsed = start_time.elapsed().as_nanos() as u64;
                    outcomes.push((tx_idx, finished(&check, first, again, elapsed)));
                }
                coordinator.settle_batch(&mut run, outcomes, 0);
            }
        }
    }
}

#[test]
fn test_concurrent_state_modifications() {
    let mut source = Source::new();
    let shared_address = source.address();
    let num_slots = 5;
    let num_txs = 10;

    let mut transactions = Vec::new();
    for i in 0..num_txs {
        let mut tx = MockTransaction::new(i, 1 + i as u64, 21000);
        let slot = U256::from_u64((i % num_slots) as u64);

        tx.add_operation(Operation::Read { address: shared_address, slot });
        tx.add_operation(Operation::Write {
            address: shared_address,
            slot,
            value: U256::from_u64(100 + i as u64),
            original_value: U256::zero(),
        });
        transactions.push(tx);
    }

    let contexts = contexts_of(&transactions);
    let mut coordinator = setup_coordinator();
    let results = execute_transactions(&mut coordinator, &transactions, &contexts).unwrap();

    assert_eq!(results.len(), num_txs);

    let mut conflicts_per_slot = vec![0; num_slots];
    for (i, result) in results.iter().enumerate() {
        let slot = i % num_slots;
        conflicts_per_slot[slot] += result.conflicts_resolved;
    }

    assert!(conflicts_per_slot.iter().any(|&conflicts| conflicts > 0));
}

#[test]
fn test_cascading_conflicts() {
    let mut source = Source::new();
    let address = source.address();
    let num_txs = 5;

    let mut transactions = Vec::new();
    for i in 0..num_txs {
        let mut tx = MockTransaction::new(i, 1, 21000);
        tx.add_operation(Operation::Read { address, slot: U256::from_u64(i as u64) });
        tx.add_operation(Operation::Write {
            address,
            slot: U256::from_u64(i as u64 + 1),
            value: U256::from_u64(100),
            original_value: U256::zero(),
        });
        transactions.push(tx);
    }

    let contexts = contexts_of(&transactions);
    let mut coordinator = setup_coordinator();
    let results = execute_transactions(&mut coordinator, &transactions, &contexts).unwrap();

    let mut total_reexecutions = 0;
    for result in &results {
        total_reexecutions += result.operations_reexecuted;
    }
    assert!(total_reexecutions > 0);
}

#[test]
fn test_priority_inversion() {
    let mut source = Source::new();
    let address = source.address();

    let mut high_priority = MockTransaction::new(0, 1000, 21000);
    high_priority.add_operation(Operation::Read { address, slot: U256::from_u64(1) });

    let mut transactions = Vec::new();
    for i in 1..5 {
        let mut tx = MockTransaction::new(i, 1, 21000);
        tx.add_operation(Operation::Write {
            address,
            slot: U256::from_u64(1),
            value: U256::from_u64(i as u64),
            original_value: U256::zero(),
        });
        transactions.push(tx);
    }

    transactions.push(high_priority);
    let contexts = contexts_of(&transactions);
    let mut coordinator = setup_coordinator();
    let results = execute_transactions(&mut coordinator, &transactions, &contexts).unwrap();

    let high_priority_result = &results[results.len() - 1];
    assert!(high_priority_result.execution_time < 1_000_000_000);
}

#[test]
fn the_high_gas_price_heads_the_first_batch() {
    let mut transactions = Vec::new();
    for i in 1..5 {
        transactions.push(MockTransaction::new(i, 1, 21000));
    }
    transactions.push(MockTransaction::new(0, 1000, 21000));
    let contexts = contexts_of(&transactions);
    let mut coordinator = setup_coordinator();
    let indices = transactions.iter().map(|tx| tx.index).collect();
    let run: ExecutionRun<()> = coordinator.begin_transactions(indices, &contexts);
    for tx in &transactions {
        let dependencies = coordinator.predict_dependencies(tx.index).len();
        let priority = score(tx.gas_price, tx.estimated_gas, dependencies);
        let price = U256::from_u64(tx.gas_price);
        coordinator.schedule_transaction(tx.index, price, tx.estimated_gas, priority, 0);
    }
    match coordinator.execute_transactions(run) {
        Progress::Execute { batch, .. } => assert_eq!(batch, vec![0, 1, 2, 3, 4]),
        _ => panic!("nothing to execute"),
    }
}

#[test]
fn test_memory_access_patterns() {
    let num_txs = 20;
    let mut source = Source::new();

    let mut transactions = Vec::new();
    for i in 0..num_txs {
        let mut tx = MockTransaction::new(i, 1, 21000);

        match i % 4 {
            0 => {
                for j in 0..5 {
                    tx.add_operation(Operation::Read {
                        address: source.address(),
                        slot: U256::from_u64(j),
                    });
                }
            }
            1 => {
                for _ in 0..5 {
                    tx.add_operation(Operation::Read {
                        address: source.address(),
                        slot: U256::from_u64(source.number()),
                    });
                }
            }
            2 => {
                let address = source.address();
                let slot = U256::from_u64(source.number());
                for _ in 0..5 {
                    tx.add_operation(Operation::Read { address, slot });
                }
            }
            3 => {
                let address = source.address();
                for j in 0..5 {
                    if j % 2 == 0 {
                        tx.add_operation(Operation::Read { address, slot: U256::from_u64(j) });
                    } else {
                        tx.add_operation(Operation::Write {
                            address,
                            slot: U256::from_u64(j),
                            value: U256::from_u64(100),
                            original_value: U256::zero(),
                        });
                    }
                }
            }
            _ => unreachable!(),
        }
        transactions.push(tx);
    }

    let contexts = contexts_of(&transactions);
    let mut coordinator = setup_coordinator();
    let results = execute_transactions(&mut coordinator, &transactions, &contexts).unwrap();

    assert_eq!(results.len(), num_txs);
}

#[test]
fn test_reexecution_checkpoints() {
    let mut source = Source::new();
    let address = source.address();

    let mut tx = MockTransaction::new(0, 1, 21000);

    for i in 0..10 {
        tx.add_operation(Operation::Read { address, slot: U256::from_u64(i) });

        if i % 3 == 0 {
            tx.add_operation(Operation::Write {
                address,
                slot: U256::from_u64(i),
                value: U256::from_u64(100),
                original_value: U256::zero(),
            });
        }
    }

    let transactions = vec![tx];
    let contexts = contexts_of(&transactions);
    let mut coordinator = setup_coordinator();
    let results = execute_transactions(&mut coordinator, &transactions, &contexts).unwrap();

    assert_eq!(results.len(), 1);
    assert!(results[0].operations_reexecuted > 0);
}

#[test]
fn test_concurrent_contract_creation() {
    let mut source = Source::new();
    let num_txs = 5;

    let mut transactions = Vec::new();
    for i in 0..num_txs {
        let mut tx = MockTransaction::new(i, 1, 21000);

        tx.add_operation(Operation::AccountAccess { address: source.address() });
        tx.add_operation(Operation::CodeAccess { address: source.address() });

        transactions.push(tx);
    }

    let contexts = contexts_of(&transactions);
    let mut coordinator = setup_coordinator();
    let results = execute_transactions(&mut coordinator, &transactions, &contexts).unwrap();

    assert_eq!(results.len(), num_txs);
}

#[test]
fn transactions_of_a_chain_are_counted_exactly() {
    let mut source = Source::new();
    let address = source.address();
    let mut transactions = Vec::new();
    for i in 0..3 {
        let mut tx = MockTransaction::new(i, 1, 21000);
        tx.add_operation(Operation::Read { address, slot: U256::from_u64(i as u64) });
        tx.add_operation(Operation::Write {
            address,
            slot: U256::from_u64(i as u64 + 1),
            value: U256::from_u64(100),
            original_value: U256::zero(),
        });
        transactions.push(tx);
    }
    let contexts = contexts_of(&transactions);
    let mut coordinator = setup_coordinator();
    let results = execute_transactions(&mut coordinator, &transactions, &contexts).unwrap();
    let counts: Vec<(usize, usize)> =
        results.iter().map(|r| (r.conflicts_resolved, r.operations_reexecuted)).collect();
    assert_eq!(counts, vec![(0, 0), (2, 2), (2, 2)]);
}

#[test]
fn conflicts_are_found_across_batches() {
    let mut source = Source::new();
    let address = source.address();
    let mut transactions = Vec::new();
    for i in 0..20 {
        let mut tx = MockTransaction::new(i, 100 - i as u64, 21000);
        if i == 0 {
            tx.add_operation(Operation::Write {
                address,
                slot: U256::from_u64(1),
                value: U256::from_u64(5),
                original_value: U256::zero(),
            });
        }
        if i == 19 {
            tx.add_operation(Operation::Read { address, slot: U256::from_u64(1) });
        }
        transactions.push(tx);
    }
    let contexts = contexts_of(&transactions);
    let mut coordinator = setup_coordinator();
    let results = execute_transactions(&mut coordinator, &transactions, &contexts).unwrap();
    for (i, result) in results.iter().enumerate() {
        let expected = if i == 19 { (2, 1) } else { (0, 0) };
        assert_eq!((result.conflicts_resolved, result.operations_reexecuted), expected);
    }
}

#[test]
fn a_list_knows_nothing_of_the_one_before() {
    let mut source = Source::new();
    let address = source.address();
    let slot = U256::from_u64(1);
    let mut writer = MockTransaction::new(0, 1, 21000);
    writer.add_operation(Operation::Write {
        address,
        slot,
        value: U256::from_u64(5),
        original_value: U256::zero(),
    });
    let mut reader = MockTransaction::new(1, 1, 21000);
    reader.add_operation(Operation::Read { address, slot });
    let shared = vec![writer, reader];
    let idle = vec![MockTransaction::new(0, 1, 21000), MockTransaction::new(1, 1, 21000)];
    let first = contexts_of(&shared);
    let second = contexts_of(&idle);
    let third = contexts_of(&shared);
    let mut coordinator = setup_coordinator();
    let found = execute_transactions(&mut coordinator, &shared, &first).unwrap();
    assert_eq!(found[1].conflicts_resolved, 2);
    let found = execute_transactions(&mut coordinator, &idle, &second).unwrap();
    assert_eq!(found[1].conflicts_resolved, 0);
    let found = execute_transactions(&mut coordinator, &shared, &third).unwrap();
    assert_eq!(found[1].conflicts_resolved, 2);
}
