use mlfq_scheduler::mlfq::{ConfigError, Execution, Process, MLFQ};

fn process(id: u32, priority: usize, remaining_time: u32, total_executed_time: u32) -> Process {
    Process { id, priority, remaining_time, total_executed_time }
}

fn ids(queue: &[Process]) -> Vec<u32> {
    queue.iter().map(|p| p.id).collect()
}

#[test]
fn test_add_process() {
    let mut mlfq = MLFQ::new(3, vec![2, 4, 8]);

    let process1 = Process { id: 1, priority: 0, remaining_time: 10, total_executed_time: 0 };
    let process2 = Process { id: 2, priority: 1, remaining_time: 5, total_executed_time: 0 };
    let process3 = Process { id: 3, priority: 5, remaining_time: 8, total_executed_time: 0 };

    mlfq.add_process(process1);
    mlfq.add_process(process2);
    mlfq.add_process(process3);

    assert_eq!(mlfq.queues[0].len(), 1);
    assert_eq!(mlfq.queues[1].len(), 1);
    assert_eq!(mlfq.queues[2].len(), 1);
}

#[test]
fn test_execute_process() {
    let mut mlfq = MLFQ::new(3, vec![2, 4, 8]);

    mlfq.queues[0].push(Process { id: 1, priority: 0, remaining_time: 5, total_executed_time: 0 });

    mlfq.execute_process(0);

    assert_eq!(mlfq.queues[0].len(), 0);
    assert_eq!(mlfq.queues[1].len(), 1);
    assert_eq!(mlfq.queues[1][0].remaining_time, 3);
    assert_eq!(mlfq.queues[1][0].total_executed_time, 2);
}

#[test]
fn test_priority_boost() {
    let mut mlfq = MLFQ::new(3, vec![2, 4, 8]);

    mlfq.queues[1].push(Process { id: 1, priority: 1, remaining_time: 5, total_executed_time: 3 });
    mlfq.queues[2].push(Process { id: 2, priority: 2, remaining_time: 3, total_executed_time: 7 });

    mlfq.update_time(100);

    assert_eq!(mlfq.queues[0].len(), 2);
    assert_eq!(mlfq.queues[1].len(), 0);
    assert_eq!(mlfq.queues[2].len(), 0);
}

#[test]
fn test_boost_does_not_occur_prematurely() {
    let mut mlfq = MLFQ::new(3, vec![2, 4, 8]);

    mlfq.queues[1].push(Process { id: 1, priority: 1, remaining_time: 5, total_executed_time: 3 });

    mlfq.update_time(50);

    assert_eq!(mlfq.queues[1].len(), 1);
    assert_eq!(mlfq.queues[0].len(), 0);
}

#[test]
fn insert_clamps_to_last_level_and_sets_priority() {
    let mut mlfq = MLFQ::new(3, vec![2, 4, 8]);
    mlfq.add_process(process(7, 3, 4, 0));
    mlfq.add_process(process(8, 2, 4, 0));
    mlfq.add_process(process(9, 1, 4, 0));
    assert_eq!(ids(&mlfq.queues[2]), vec![7, 8]);
    assert_eq!(mlfq.queues[2][0].priority, 2);
    assert_eq!(ids(&mlfq.queues[1]), vec![9]);
    assert_eq!(mlfq.queues[1][0].priority, 1);
    assert!(mlfq.queues[0].is_empty());
}

#[test]
fn step_within_quantum_completes_process() {
    let mut mlfq = MLFQ::new(3, vec![2, 4, 8]);
    mlfq.add_process(process(1, 0, 2, 5));
    let r = mlfq.execute_process(0);
    assert_eq!(r, Some(Execution { id: 1, executed_time: 2, remaining_time: 0 }));
    assert!(mlfq.queues.iter().all(|q| q.is_empty()));
    assert_eq!(mlfq.current_time, 2);
}

#[test]
fn step_beyond_quantum_demotes_by_one_level() {
    let mut mlfq = MLFQ::new(3, vec![2, 4, 8]);
    mlfq.add_process(process(1, 1, 9, 1));
    let r = mlfq.execute_process(1);
    assert_eq!(r, Some(Execution { id: 1, executed_time: 4, remaining_time: 5 }));
    assert!(mlfq.queues[1].is_empty());
    assert_eq!(mlfq.queues[2], vec![process(1, 2, 5, 5)]);
    assert_eq!(mlfq.current_time, 4);
}

#[test]
fn step_on_last_level_drops_unfinished_process() {
    let mut mlfq = MLFQ::new(3, vec![2, 4, 8]);
    mlfq.add_process(process(1, 2, 20, 0));
    let r = mlfq.execute_process(2);
    assert_eq!(r, Some(Execution { id: 1, executed_time: 8, remaining_time: 12 }));
    assert!(mlfq.queues.iter().all(|q| q.is_empty()));
    assert_eq!(mlfq.current_time, 8);
}

#[test]
fn step_on_empty_level_does_nothing() {
    let mut mlfq = MLFQ::new(2, vec![3, 6]);
    mlfq.add_process(process(1, 0, 4, 0));
    assert_eq!(mlfq.execute_process(1), None);
    assert_eq!(ids(&mlfq.queues[0]), vec![1]);
    assert_eq!(mlfq.current_time, 0);
}

#[test]
fn level_runs_most_recent_first() {
    let mut mlfq = MLFQ::new(2, vec![1, 1]);
    mlfq.add_process(process(1, 0, 1, 0));
    mlfq.add_process(process(2, 0, 1, 0));
    mlfq.add_process(process(3, 0, 1, 0));
    let order: Vec<u32> = (0..3).map(|_| mlfq.execute_process(0).unwrap().id).collect();
    assert_eq!(order, vec![3, 2, 1]);
}

#[test]
fn two_advances_of_fifty_boost() {
    let mut mlfq = MLFQ::new(3, vec![2, 4, 8]);
    mlfq.add_process(process(1, 2, 5, 0));
    mlfq.update_time(50);
    assert_eq!(ids(&mlfq.queues[2]), vec![1]);
    mlfq.update_time(50);
    assert_eq!(mlfq.current_time, 100);
    assert_eq!(mlfq.queues[0], vec![process(1, 0, 5, 0)]);
    assert!(mlfq.queues[2].is_empty());
}

#[test]
fn advance_past_multiple_does_not_boost() {
    let mut mlfq = MLFQ::new(3, vec![2, 4, 8]);
    mlfq.add_process(process(1, 1, 5, 0));
    mlfq.update_time(150);
    assert_eq!(mlfq.current_time, 150);
    assert_eq!(ids(&mlfq.queues[1]), vec![1]);
    assert!(mlfq.queues[0].is_empty());
    mlfq.update_time(50);
    assert_eq!(ids(&mlfq.queues[0]), vec![1]);
}

#[test]
fn boost_reverses_each_level_and_appends_in_level_order() {
    let mut mlfq = MLFQ::new(3, vec![2, 4, 8]);
    mlfq.add_process(process(1, 0, 5, 0));
    mlfq.add_process(process(2, 1, 5, 0));
    mlfq.add_process(process(3, 1, 5, 0));
    mlfq.add_process(process(4, 2, 5, 0));
    mlfq.add_process(process(5, 2, 5, 0));
    mlfq.priority_boost();
    assert_eq!(ids(&mlfq.queues[0]), vec![1, 3, 2, 5, 4]);
    assert!(mlfq.queues[0].iter().all(|p| p.priority == 0));
    assert!(mlfq.queues[1].is_empty());
    assert!(mlfq.queues[2].is_empty());
    assert_eq!(mlfq.current_time, 0);
}

#[test]
fn end_to_end_trace() {
    let mut mlfq = MLFQ::new(3, vec![2, 4, 8]);
    mlfq.add_process(process(1, 0, 10, 0));
    mlfq.add_process(process(2, 0, 3, 0));
    mlfq.add_process(process(3, 1, 5, 0));

    let mut trace = Vec::new();
    for level in 0..mlfq.num_levels {
        while !mlfq.queues[level].is_empty() {
            trace.push(mlfq.execute_process(level).unwrap());
        }
    }
    let expected = vec![
        Execution { id: 2, executed_time: 2, remaining_time: 1 },
        Execution { id: 1, executed_time: 2, remaining_time: 8 },
        Execution { id: 1, executed_time: 4, remaining_time: 4 },
        Execution { id: 2, executed_time: 1, remaining_time: 0 },
        Execution { id: 3, executed_time: 4, remaining_time: 1 },
        Execution { id: 3, executed_time: 1, remaining_time: 0 },
        Execution { id: 1, executed_time: 4, remaining_time: 0 },
    ];
    assert_eq!(trace, expected);
    assert_eq!(mlfq.current_time, 18);

    mlfq.update_time(100);
    assert_eq!(mlfq.current_time, 118);
    assert!(mlfq.queues.iter().all(|q| q.is_empty()));
}

#[test]
fn try_new_rejects_bad_configuration() {
    assert_eq!(MLFQ::try_new(0, vec![]).err(), Some(ConfigError::NoLevels));
    assert_eq!(MLFQ::try_new(3, vec![2, 4]).err(), Some(ConfigError::QuantaMismatch));
    let mlfq = MLFQ::try_new(2, vec![2, 4]).ok().unwrap();
    assert_eq!(mlfq.num_levels, 2);
    assert_eq!(mlfq.queues.len(), 2);
    assert_eq!(mlfq.time_quanta, vec![2, 4]);
    assert_eq!(mlfq.current_time, 0);
}
