use oreilly_concurrent::stack::Stack;
use oreilly_concurrent::stack::StackHead;

/// A small linear congruential generator, to pick who moves next.
struct Dice {
    state: u64,
}

impl Dice {
    fn roll(&mut self, sides: usize) -> usize {
        self.state = self.state.wrapping_mul(6364136223846793005).wrapping_add(1442695040888963407);
        ((self.state >> 33) as usize) % sides
    }
}

#[test]
fn pop_on_empty_returns_nothing() {
    let mut stack: Stack<usize> = Stack::new();
    assert_eq!(stack.get_mut().pop(), None);
    assert!(stack.get_mut().is_empty());
}

#[test]
fn pops_come_in_reverse_order_of_pushes() {
    let mut stack: Stack<usize> = Stack::new();
    stack.get_mut().push(1);
    stack.get_mut().push(2);
    stack.get_mut().push(3);
    assert!(!stack.get_mut().is_empty());
    assert_eq!(stack.get_mut().pop(), Some(3));
    assert_eq!(stack.get_mut().pop(), Some(2));
    assert_eq!(stack.get_mut().pop(), Some(1));
    assert_eq!(stack.get_mut().pop(), None);
}

#[test]
fn a_head_can_be_used_on_its_own() {
    let mut head: StackHead<String> = StackHead::new();
    head.push(String::from("below"));
    head.push(String::from("above"));
    assert_eq!(head.pop(), Some(String::from("above")));
    head.push(String::from("again"));
    assert_eq!(head.pop(), Some(String::from("again")));
    assert_eq!(head.pop(), Some(String::from("below")));
    assert_eq!(head.pop(), None);
    assert_eq!(head.pop(), None);
}

#[test]
fn equal_values_are_kept_apart() {
    let mut stack: Stack<u8> = Stack::new();
    for v in [7u8, 7, 3, 7, 3] {
        stack.get_mut().push(v);
    }
    let mut sevens = 0;
    let mut threes = 0;
    while let Some(v) = stack.get_mut().pop() {
        match v {
            7 => sevens += 1,
            3 => threes += 1,
            other => panic!("a value that was never pushed: {}", other),
        }
    }
    assert_eq!(sevens, 3);
    assert_eq!(threes, 2);
}

#[test]
fn two_pushers_and_two_poppers_move_every_value_once() {
    const PER_ACTOR: usize = 100_000;
    let mut stack: Stack<usize> = Stack::new();
    let mut dice = Dice { state: 2 };
    // Actors 0 and 2 push, actors 1 and 3 pop, one operation per move.
    let mut pushed = [0usize; 4];
    let mut popped: Vec<Vec<usize>> = vec![Vec::new(), Vec::new(), Vec::new(), Vec::new()];
    loop {
        let open: Vec<usize> = (0..4)
            .filter(|&i| if i % 2 == 0 { pushed[i] < PER_ACTOR } else { popped[i].len() < PER_ACTOR })
            .collect();
        if open.is_empty() {
            break;
        }
        let who = open[dice.roll(open.len())];
        if who % 2 == 0 {
            let value = (who / 2) * PER_ACTOR + pushed[who];
            stack.get_mut().push(value);
            pushed[who] += 1;
        } else if let Some(value) = stack.get_mut().pop() {
            popped[who].push(value);
        }
    }
    assert_eq!(popped[1].len(), PER_ACTOR);
    assert_eq!(popped[3].len(), PER_ACTOR);
    let mut all: Vec<usize> = Vec::new();
    all.extend(popped[1].iter());
    all.extend(popped[3].iter());
    all.sort();
    let expected: Vec<usize> = (0..2 * PER_ACTOR).collect();
    assert_eq!(all, expected);
    assert_eq!(stack.get_mut().pop(), None);
}

#[test]
fn the_default_stack_is_empty() {
    let mut stack: Stack<u8> = Stack::default();
    assert_eq!(stack.get_mut().pop(), None);
    stack.get_mut().push(1);
    assert_eq!(stack.get_mut().pop(), Some(1));
}

#[test]
fn a_deep_stack_can_be_dropped() {
    let mut stack: Stack<usize> = Stack::new();
    for v in 0..1_000_000 {
        stack.get_mut().push(v);
    }
    assert_eq!(stack.get_mut().pop(), Some(999_999));
    drop(stack);
}
