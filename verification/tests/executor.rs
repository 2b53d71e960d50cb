use fantoch::executor::{ExecutorResult, GraphExecutor, Rifl};
use fantoch::id::Id;

fn rifl(client: u64, seq: u64) -> Rifl {
    Id::new(client, seq)
}

#[test]
fn executor_is_never_parallel() {
    let executor = GraphExecutor::new(false);
    assert!(!executor.parallel());
}

#[test]
fn pending_commands_are_answered_once() {
    let mut executor = GraphExecutor::new(false);
    executor.register(rifl(1, 1), 1);
    executor.register(rifl(1, 2), 2);

    // a command of another process is executed but not answered; a pending
    // command is answered the first time only
    let results = executor.handle(vec![
        (rifl(1, 1), "a"),
        (rifl(2, 1), "b"),
        (rifl(1, 1), "c"),
    ]);
    assert_eq!(results, vec![ExecutorResult::Ready("a")]);

    let results = executor.handle(vec![(rifl(1, 2), "x"), (rifl(1, 1), "y")]);
    assert_eq!(results, vec![ExecutorResult::Ready("x")]);

    // nothing is pending anymore
    let results = executor.handle(vec![(rifl(1, 1), "z"), (rifl(1, 2), "w")]);
    assert!(results.is_empty());
}

#[test]
fn results_come_in_execution_order() {
    let mut executor = GraphExecutor::new(false);
    for seq in 1..=3 {
        executor.register(rifl(7, seq), 1);
    }
    let results = executor.handle(vec![(rifl(7, 3), 30), (rifl(7, 1), 10), (rifl(7, 2), 20)]);
    assert_eq!(
        results,
        vec![
            ExecutorResult::Ready(30),
            ExecutorResult::Ready(10),
            ExecutorResult::Ready(20)
        ]
    );
}

#[test]
fn handling_nothing_changes_nothing() {
    let mut executor = GraphExecutor::new(false);
    executor.register(rifl(3, 1), 1);
    let results: Vec<ExecutorResult<u8>> = executor.handle(Vec::new());
    assert!(results.is_empty());
    let results = executor.handle(vec![(rifl(3, 1), 5u8)]);
    assert_eq!(results, vec![ExecutorResult::Ready(5u8)]);
}

#[test]
fn a_command_can_be_registered_again_once_answered() {
    let mut executor = GraphExecutor::new(false);
    executor.register(rifl(4, 1), 1);
    assert_eq!(executor.handle(vec![(rifl(4, 1), 'a')]), vec![ExecutorResult::Ready('a')]);
    executor.register(rifl(4, 1), 1);
    assert_eq!(executor.handle(vec![(rifl(4, 1), 'b')]), vec![ExecutorResult::Ready('b')]);
}

#[test]
fn answered_at_most_once_over_many_calls() {
    let mut executor = GraphExecutor::new(false);
    executor.register(rifl(9, 1), 1);
    let mut ready = 0;
    for round in 0..5u32 {
        let results = executor.handle(vec![(rifl(9, 1), round), (rifl(8, 1), round)]);
        ready += results.len();
    }
    assert_eq!(ready, 1);
}
