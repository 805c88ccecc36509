use optimism::coordinator::coordinator::{
    finished, Executed, ExecutionResult, ExecutionRun, ParallelExecutionCoordinator, Progress,
};
use optimism::db::versioned::VersionedStateDB;
use optimism::parallel::operation_logs::{Context, Operation};
use optimism::parallel::reexecution::ReexecutionStep;
use optimism::primitives::{Address, U256};
use std::time::Instant;

struct MockTransaction {
    index: usize,
    gas_price: u64,
    estimated_gas: u64,
    operations: Vec<Operation>,
}

impl MockTransaction {
    fn new(index: usize, gas_price: u64, estimated_gas: u64) -> Self {
        Self { index, gas_price, estimated_gas, operations: Vec::new() }
    }

    fn add_operation(&mut self, operation: Operation) {
        self.operations.push(operation);
    }
}

/// Numbers that do not repeat within a test.
struct Source {
    state: u64,
}

impl Source {
    fn new() -> Self {
        Self { state: 0x9e3779b97f4a7c15 }
    }

    fn number(&mut self) -> u64 {
        self.state ^= self.state << 13;
        self.state ^= self.state >> 7;
        self.state ^= self.state << 17;
        self.state
    }

    fn address(&mut self) -> Address {
        Address { hi: self.number() as u32, lo: self.number() as u128 }
    }

    fn word(&mut self) -> U256 {
        U256 { hi: self.number() as u128, lo: self.number() as u128 }
    }
}

fn score(gas_price: u64, estimated_gas: u64, dependencies: usize) -> u64 {
    let score = gas_price as f64
        * (1.0 / (1.0 + dependencies as f64))
        * (1.0 / (1.0 + estimated_gas as f64));
    score.to_bits()
}

fn setup_coordinator<'a>() -> ParallelExecutionCoordinator<'a, (), usize> {
    ParallelExecutionCoordinator::new(8, 5_000_000_000, 3)
}

fn contexts_of(transactions: &[MockTransaction]) -> Vec<Context<(), usize>> {
    transactions.iter().map(|tx| Context { block: (), tx: tx.index }).collect()
}

/// Runs a transaction: its operations go into its log.
fn run_transaction<'a>(
    coordinator: &mut ParallelExecutionCoordinator<'a, (), usize>,
    transactions: &[MockTransaction],
    tx_idx: usize,
) {
    coordinator.execute_transaction();
    let db = VersionedStateDB::new();
    let position = coordinator.position_of(tx_idx).unwrap();
    let log = coordinator.operation_log(position).write().unwrap();
    for operation in &transactions[position].operations {
        match *operation {
            Operation::Read { address, slot } => {
                let _ = log.record_read_versioned(address, slot, &db);
            }
            Operation::Write { address, slot, value, original_value } => {
                log.record_write_versioned(address, slot, value, original_value).unwrap();
            }
            Operation::AccountAccess { address } => log.record_account_access(address),
            Operation::CodeAccess { address } => log.record_code_access(address),
        }
    }
}

fn execute_transactions<'a>(
    coordinator: &mut ParallelExecutionCoordinator<'a, (), usize>,
    transactions: &[MockTransaction],
    contexts: &'a Vec<Context<(), usize>>,
) -> Option<Vec<ExecutionResult<()>>> {
    let indices = transactions.iter().map(|tx| tx.index).collect();
    let mut run: ExecutionRun<()> = coordinator.begin_transactions(indices, contexts);
    for tx in transactions {
        let dependencies = coordinator.predict_dependencies(tx.index).len();
        let priority = score(tx.gas_price, tx.estimated_gas, dependencies);
        let price = U256::from_u64(tx.gas_price);
        coordinator.schedule_transaction(tx.index, price, tx.estimated_gas, priority, 0);
    }
    loop {
        match coordinator.execute_transactions(run) {
            Progress::Finished { results } => return Some(results),
            Progress::Incomplete { .. } => return None,
            Progress::Execute { run: next, batch } => {
                run = next;
                let mut started = Vec::new();
                for tx_idx in &batch {
                    started.push(Instant::now());
                    run_transaction(coordinator, transactions, *tx_idx);
                }
                let mut outcomes = Vec::new();
                let checks = coordinator.check_batch(&batch);
                for ((tx_idx, check), start_time) in checks.into_iter().zip(started) {
                    let first = Executed { result: (), gas_used: 21000 };
                    let mut again = None;
                    if let Some(plan) = &check.plan {
                        let mut done = 0;
                        loop {
                            match coordinator.reexecute(tx_idx, plan, done) {
                                ReexecutionStep::Execute { .. } => {
                                    again = Some(Executed { result: (), gas_used: 21000 });
                                    done += 1;
                                }
                                ReexecutionStep::Finished => break,
                                ReexecutionStep::Failed(e) => panic!("{:?}", e),
                            }
                        }
                    }
                    let elapsed = start_time.elapsed().as_nanos() as u64;
                    outcomes.push((tx_idx, finished(&check, first, again, elapsed)));
                }
                coordinator.settle_batch(&mut run, outcomes, 0);
            }
        }
    }
}

#[test]
fn test_basic_parallel_execution() {
    let mut source = Source::new();

    let mut tx1 = MockTransaction::new(0, 1, 21000);
    tx1.add_operation(Operation::Read { address: source.address(), slot: U256::zero() });

    let mut tx2 = MockTransaction::new(1, 2, 21000);
    tx2.add_operation(Operation::Write {
        address: source.address(),
        slot: U256::from_u64(1),
        value: U256::from_u64(100),
        original_value: U256::zero(),
    });

    let transactions = vec![tx1, tx2];
    let contexts = contexts_of(&transactions);
    let mut coordinator = setup_coordinator();
    let results = execute_transactions(&mut coordinator, &transactions, &contexts).unwrap();

    assert_eq!(results.len(), 2);
    assert_eq!(results[0].conflicts_resolved, 0);
    assert_eq!(results[1].conflicts_resolved, 0);
}

#[test]
fn test_conflict_detection_and_resolution() {
    let mut source = Source::new();
    let shared_address = source.address();
    let shared_slot = U256::from_u64(1);

    let mut tx1 = MockTransaction::new(0, 1, 21000);
    tx1.add_operation(Operation::Write {
        address: shared_address,
        slot: shared_slot,
        value: U256::from_u64(100),
        original_value: U256::zero(),
    });

    let mut tx2 = MockTransaction::new(1, 2, 21000);
    tx2.add_operation(Operation::Read { address: shared_address, slot: shared_slot });

    let transactions = vec![tx1, tx2];
    let contexts = contexts_of(&transactions);
    let mut coordinator = setup_coordinator();
    let results = execute_transactions(&mut coordinator, &transactions, &contexts).unwrap();

    assert_eq!(results.len(), 2);
    assert!(results[1].conflicts_resolved > 0);
}

#[test]
fn test_dependency_prediction() {
    let mut source = Source::new();
    let contract_address = source.address();

    let mut transactions = Vec::new();
    for i in 0..5 {
        let mut tx = MockTransaction::new(i, 1, 21000);
        tx.add_operation(Operation::AccountAccess { address: contract_address });
        transactions.push(tx);
    }

    let first = contexts_of(&transactions[0..3]);
    let second = contexts_of(&transactions[3..5]);
    let mut coordinator = setup_coordinator();
    let results1 = execute_transactions(&mut coordinator, &transactions[0..3], &first).unwrap();
    let results2 = execute_transactions(&mut coordinator, &transactions[3..5], &second).unwrap();

    assert_eq!(results1.len(), 3);
    assert_eq!(results2.len(), 2);
}

#[test]
fn test_partial_reexecution() {
    let mut source = Source::new();
    let address = source.address();
    let slot1 = U256::from_u64(1);
    let slot2 = U256::from_u64(2);

    let mut tx = MockTransaction::new(0, 1, 21000);
    tx.add_operation(Operation::Write {
        address,
        slot: slot1,
        value: U256::from_u64(100),
        original_value: U256::zero(),
    });
    tx.add_operation(Operation::Read { address, slot: slot2 });
    tx.add_operation(Operation::Write {
        address,
        slot: slot1,
        value: U256::from_u64(200),
        original_value: U256::from_u64(100),
    });

    let transactions = vec![tx];
    let contexts = contexts_of(&transactions);
    let mut coordinator = setup_coordinator();
    let results = execute_transactions(&mut coordinator, &transactions, &contexts).unwrap();

    assert_eq!(results.len(), 1);
    assert!(results[0].operations_reexecuted > 0);
}

#[test]
fn test_timeout_handling() {
    let mut source = Source::new();

    let mut tx = MockTransaction::new(0, 1, 21000);
    for _ in 0..1000 {
        tx.add_operation(Operation::Read { address: source.address(), slot: source.word() });
    }

    let transactions = vec![tx];
    let contexts = contexts_of(&transactions);
    let mut coordinator = setup_coordinator();
    let results = execute_transactions(&mut coordinator, &transactions, &contexts).unwrap();

    assert_eq!(results.len(), 1);
}

#[test]
fn test_stress_parallel_execution() {
    let mut source = Source::new();
    let num_transactions = 100;

    let mut transactions = Vec::new();
    for i in 0..num_transactions {
        let mut tx = MockTransaction::new(i, 1, 21000);
        for _ in 0..10 {
            match i % 3 {
                0 => tx.add_operation(Operation::Read {
                    address: source.address(),
                    slot: source.word(),
                }),
                1 => tx.add_operation(Operation::Write {
                    address: source.address(),
                    slot: source.word(),
                    value: source.word(),
                    original_value: U256::zero(),
                }),
                _ => tx.add_operation(Operation::AccountAccess { address: source.address() }),
            }
        }
        transactions.push(tx);
    }

    let contexts = contexts_of(&transactions);
    let mut coordinator = setup_coordinator();
    let results = execute_transactions(&mut coordinator, &transactions, &contexts).unwrap();

    assert_eq!(results.len(), num_transactions);
}
