use oreilly_concurrent::scheduling::Executor;
use oreilly_concurrent::scheduling::Spawner;
use oreilly_concurrent::scheduling::QUEUE_CAPACITY;

/// The states of a task that greets in two steps.
enum Hello {
    Hello,
    World,
    End,
}

#[test]
fn a_new_scheduler_has_nothing_to_run() {
    let mut executor = Executor::new();
    assert_eq!(executor.queued(), 0);
    assert_eq!(executor.tasks(), 0);
    assert_eq!(executor.run(), None);
}

#[test]
fn hello_world_takes_three_polls() {
    let mut executor = Executor::new();
    let task = executor.get_spawner().spawn(&mut executor).expect("the queue is empty");
    let mut state = Hello::Hello;
    let mut output = String::new();
    let mut polls = 0;
    while let Some(id) = executor.run() {
        assert_eq!(id, task);
        polls += 1;
        match state {
            Hello::Hello => {
                output.push_str("Hello, ");
                state = Hello::World;
                assert!(executor.wake(id));
            },
            Hello::World => {
                output.push_str("World!\n");
                state = Hello::End;
                assert!(executor.wake(id));
            },
            Hello::End => executor.complete(id),
        }
    }
    assert_eq!(polls, 3);
    assert_eq!(output, "Hello, World!\n");
    assert!(executor.is_finished(task));
    assert_eq!(executor.queued(), 0);
}

#[test]
fn tasks_finish_in_the_order_of_spawning() {
    let mut executor = Executor::new();
    let spawner: Spawner = executor.get_spawner();
    let mut spawned = Vec::new();
    for _ in 0..5 {
        spawned.push(spawner.spawn(&mut executor).expect("there is room"));
    }
    assert_eq!(spawned, vec![0, 1, 2, 3, 4]);
    assert_eq!(executor.queued(), 5);
    let mut finished = Vec::new();
    while let Some(id) = executor.run() {
        executor.complete(id);
        finished.push(id);
    }
    assert_eq!(finished, spawned);
}

#[test]
fn a_chain_of_ten_suspensions_takes_eleven_polls() {
    let mut executor = Executor::new();
    let task = executor.get_spawner().spawn(&mut executor).expect("the queue is empty");
    let mut left = 10;
    let mut polls = 0;
    while let Some(id) = executor.run() {
        polls += 1;
        if left > 0 {
            left -= 1;
            assert!(executor.wake(id));
        } else {
            executor.complete(id);
        }
    }
    assert_eq!(polls, 11);
    assert!(executor.is_finished(task));
}

#[test]
fn a_task_that_never_wakes_is_never_polled_again() {
    let mut executor = Executor::new();
    let task = executor.get_spawner().spawn(&mut executor).expect("the queue is empty");
    assert_eq!(executor.run(), Some(task));
    // Pending, and nobody woke it.
    assert_eq!(executor.run(), None);
    assert!(!executor.is_finished(task));
    assert!(executor.wake(task));
    assert_eq!(executor.run(), Some(task));
}

#[test]
fn a_task_can_spawn_another() {
    let mut executor = Executor::new();
    let spawner = executor.get_spawner();
    let first = spawner.spawn(&mut executor).expect("the queue is empty");
    let mut second = None;
    let mut order = Vec::new();
    while let Some(id) = executor.run() {
        order.push(id);
        if id == first && second.is_none() {
            // First poll of the first task: it spawns, wakes itself and yields.
            second = spawner.spawn(&mut executor);
            assert!(executor.wake(id));
        } else {
            executor.complete(id);
        }
    }
    let second = second.expect("there was room for the second task");
    assert_eq!(order, vec![first, second, first]);
    assert!(executor.is_finished(first));
    assert!(executor.is_finished(second));
}

#[test]
fn tasks_that_wake_themselves_take_turns() {
    let mut executor = Executor::new();
    let spawner = executor.get_spawner();
    let a = spawner.spawn(&mut executor).expect("there is room");
    let b = spawner.spawn(&mut executor).expect("there is room");
    let mut left = [2, 1];
    let mut order = Vec::new();
    while let Some(id) = executor.run() {
        order.push(id);
        if left[id] > 0 {
            left[id] -= 1;
            assert!(executor.wake(id));
        } else {
            executor.complete(id);
        }
    }
    assert_eq!(order, vec![a, b, a, b, a]);
}

#[test]
fn a_handle_of_a_finished_task_is_dropped() {
    let mut executor = Executor::new();
    let spawner = executor.get_spawner();
    let a = spawner.spawn(&mut executor).expect("there is room");
    let b = spawner.spawn(&mut executor).expect("there is room");
    assert_eq!(executor.run(), Some(a));
    // The task wakes itself and finishes in the same poll.
    assert!(executor.wake(a));
    executor.complete(a);
    assert_eq!(executor.queued(), 2);
    assert_eq!(executor.run(), Some(b));
    executor.complete(b);
    assert_eq!(executor.queued(), 1);
    assert_eq!(executor.run(), None);
    assert_eq!(executor.queued(), 0);
}

#[test]
fn a_task_woken_twice_is_polled_twice() {
    let mut executor = Executor::new();
    let task = executor.get_spawner().spawn(&mut executor).expect("the queue is empty");
    assert_eq!(executor.run(), Some(task));
    assert!(executor.wake(task));
    assert!(executor.wake(task));
    assert_eq!(executor.run(), Some(task));
    assert_eq!(executor.run(), Some(task));
    assert_eq!(executor.run(), None);
}

#[test]
fn the_queue_holds_a_thousand_and_twenty_four() {
    assert_eq!(QUEUE_CAPACITY, 1024);
    let mut executor = Executor::new();
    let spawner = executor.get_spawner();
    for expected in 0..QUEUE_CAPACITY {
        assert_eq!(spawner.spawn(&mut executor), Some(expected));
    }
    assert_eq!(executor.queued(), QUEUE_CAPACITY);
    assert_eq!(spawner.spawn(&mut executor), None);
    assert_eq!(executor.tasks(), QUEUE_CAPACITY);
    assert!(!executor.wake(0));
    assert_eq!(executor.run(), Some(0));
    assert!(executor.wake(0));
    assert_eq!(spawner.spawn(&mut executor), None);
    assert_eq!(executor.queued(), QUEUE_CAPACITY);
}

#[test]
fn a_wake_of_no_task_does_nothing() {
    let mut executor = Executor::new();
    assert!(!executor.wake(0));
    let task = executor.get_spawner().spawn(&mut executor).expect("the queue is empty");
    assert!(!executor.wake(task + 1));
    assert_eq!(executor.queued(), 1);
    executor.complete(task + 1);
    assert!(!executor.is_finished(task + 1));
    assert!(!executor.is_finished(task));
}
