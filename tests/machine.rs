use std::cell::{Cell, RefCell};

use fsm::StateMachine;

#[test]
fn test_sm_new() {
    #[derive(PartialEq, Debug)]
    enum State {
        One,
    }
    let sm: StateMachine<State, fn()> = StateMachine::new(State::One);
    assert_eq!(*sm.current_state(), State::One);
}

#[test]
fn test_sm_switch() {
    #[derive(PartialEq, Debug, Clone, Copy)]
    enum State {
        Unlocked = 0x01,
        Locked,
    }
    let mut sm: StateMachine<State, fn()> = StateMachine::new(State::Unlocked);
    sm.switch(State::Locked);
    assert_eq!(*sm.current_state() as i32, State::Locked as i32);
}

#[test]
fn test_when() {
    #[derive(PartialEq, Debug, Clone, Copy)]
    enum State {
        Unlocked = 0x01,
        Locked,
    }
    let called = Cell::new(false);
    let mut sm = StateMachine::new(State::Unlocked);
    sm.when(State::Locked, || {
        called.set(true);
        println!("Hello from Locked!");
    });
    assert_eq!(called.get(), false);
    sm.switch(State::Locked);
    assert_eq!(called.get(), true);
}

#[test]
fn test_defstates_macro() {
    #[allow(dead_code)]
    enum State {
        Woot,
        Wolf,
    }
    assert_eq!(State::Woot as i32, 0);
    assert_eq!(State::Wolf as i32, 1);
}

#[derive(PartialEq, Debug, Clone, Copy)]
enum Door {
    Locked,
    Unlocked,
    Moved,
    Wrong,
    Weird,
}

#[test]
fn ordinals_follow_declaration_order() {
    let all = [Door::Locked, Door::Unlocked, Door::Moved, Door::Wrong, Door::Weird];
    for (i, a) in all.iter().enumerate() {
        assert_eq!(*a as usize, i);
        for (j, b) in all.iter().enumerate() {
            assert_eq!(a == b, i == j);
        }
    }
}

#[test]
fn new_machine_holds_initial_state_and_fires_nothing() {
    let count = Cell::new(0u32);
    let mut sm = StateMachine::new(Door::Moved);
    assert_eq!(*sm.current_state(), Door::Moved);
    sm.when(Door::Moved, || count.set(count.get() + 1));
    assert_eq!(*sm.current_state(), Door::Moved);
    assert_eq!(count.get(), 0);
}

#[test]
fn callback_for_other_state_does_not_fire() {
    let count = Cell::new(0u32);
    let mut sm = StateMachine::new(Door::Locked);
    sm.when(Door::Wrong, || count.set(count.get() + 1));
    sm.switch(Door::Weird);
    sm.switch(Door::Unlocked);
    sm.switch(Door::Locked);
    assert_eq!(count.get(), 0);
    assert_eq!(*sm.current_state(), Door::Locked);
}

#[test]
fn callback_for_entered_state_fires_once() {
    let count = Cell::new(0u32);
    let mut sm = StateMachine::new(Door::Locked);
    sm.when(Door::Wrong, || count.set(count.get() + 1));
    sm.switch(Door::Wrong);
    assert_eq!(count.get(), 1);
}

#[test]
fn callbacks_fire_in_registration_order() {
    let order: RefCell<Vec<u32>> = RefCell::new(Vec::new());
    let mut sm: StateMachine<Door, Box<dyn FnMut() + '_>> = StateMachine::new(Door::Locked);
    sm.when(Door::Moved, Box::new(|| order.borrow_mut().push(1)));
    sm.when(Door::Weird, Box::new(|| order.borrow_mut().push(99)));
    sm.when(Door::Moved, Box::new(|| order.borrow_mut().push(2)));
    sm.when(Door::Moved, Box::new(|| order.borrow_mut().push(3)));
    sm.switch(Door::Moved);
    assert_eq!(*order.borrow(), vec![1, 2, 3]);
}

#[test]
fn every_transition_into_a_state_fires_again() {
    let count = Cell::new(0u32);
    let mut sm = StateMachine::new(Door::Locked);
    sm.when(Door::Unlocked, || count.set(count.get() + 1));
    sm.switch(Door::Unlocked);
    sm.switch(Door::Unlocked);
    assert_eq!(count.get(), 2);
    sm.switch(Door::Locked);
    sm.switch(Door::Unlocked);
    assert_eq!(count.get(), 3);
}

#[test]
fn self_transition_fires() {
    let count = Cell::new(0u32);
    let mut sm = StateMachine::new(Door::Locked);
    sm.when(Door::Locked, || count.set(count.get() + 1));
    sm.switch(Door::Locked);
    assert_eq!(count.get(), 1);
    assert_eq!(*sm.current_state(), Door::Locked);
}

#[test]
fn switch_without_bindings_only_changes_state() {
    let mut sm: StateMachine<Door, fn()> = StateMachine::new(Door::Locked);
    sm.switch(Door::Weird);
    assert_eq!(*sm.current_state(), Door::Weird);
}

#[test]
fn duplicate_bindings_each_fire() {
    let count = Cell::new(0u32);
    let mut sm: StateMachine<Door, Box<dyn FnMut() + '_>> = StateMachine::new(Door::Locked);
    sm.when(Door::Wrong, Box::new(|| count.set(count.get() + 1)));
    sm.when(Door::Wrong, Box::new(|| count.set(count.get() + 10)));
    sm.switch(Door::Wrong);
    assert_eq!(count.get(), 11);
}

#[test]
fn lock_scenario() {
    #[derive(PartialEq, Debug, Clone, Copy)]
    enum State {
        Unlocked,
        Locked,
    }
    assert_eq!(State::Unlocked as i32, 0);
    assert_eq!(State::Locked as i32, 1);
    let flag = Cell::new(false);
    let mut sm = StateMachine::new(State::Unlocked);
    assert_eq!(*sm.current_state(), State::Unlocked);
    sm.when(State::Locked, || flag.set(true));
    assert!(!flag.get());
    sm.switch(State::Locked);
    assert!(flag.get());
    assert_eq!(*sm.current_state(), State::Locked);
}
