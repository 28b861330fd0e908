use reth_snapshot::execution::{EitherExecutorFactory, ExecutionArgs};

#[test]
fn parallel_execution_needs_queue_store() {
    let args = ExecutionArgs { parallel: true, queue_store: None };
    assert!(!args.is_valid());
    let args = ExecutionArgs { parallel: true, queue_store: Some("queues.json".to_string()) };
    assert!(args.is_valid());
    assert_eq!(args.executor_choice(), EitherExecutorFactory::Right(&"queues.json".to_string()));
    let args = ExecutionArgs::default();
    assert!(args.is_valid());
    assert_eq!(args.executor_choice(), EitherExecutorFactory::Left(()));
}
