use pfds::stack;
use pfds::stack_mut;

#[test]
fn stack_custom_stack_test() {
    let stack: stack::CustomStack<i32> = stack::CustomStack::empty();
    assert_eq!(stack.is_empty(), true);
    let stack2 = stack::CustomStack::empty().cons(1).cons(2);
    assert_eq!(stack2.is_empty(), false);
    assert_eq!(stack2.head(), Some(&2));
    assert_eq!(stack2.tail().unwrap().head(), Some(&1));
}

#[test]
fn stack_linked_list_stack_test() {
    let stack: stack::LinkedListStack<i32> = stack::LinkedListStack::empty();
    assert_eq!(stack.is_empty(), true);
    let stack2 = stack::LinkedListStack::empty().cons(1).cons(2);
    assert_eq!(stack2.is_empty(), false);
    assert_eq!(stack2.head(), Some(&2));
    assert_eq!(stack2.tail().unwrap().head(), Some(&1));
}

#[test]
fn lib_custom_stack_test() {
    let stack: stack_mut::CustomStack<i32> = stack_mut::CustomStack::empty();
    assert_eq!(stack.is_empty(), true);
    let mut stack2 = stack_mut::CustomStack::empty();
    stack2.cons(1);
    stack2.cons(2);
    assert_eq!(stack2.is_empty(), false);
    assert_eq!(stack2.head(), Some(&2));
    assert_eq!(stack2.tail(), true);
    assert_eq!(stack2.head(), Some(&1));
}

#[test]
fn lib_linked_list_stack_test() {
    let stack: stack_mut::LinkedListStack<i32> = stack_mut::LinkedListStack::empty();
    assert_eq!(stack.is_empty(), true);
    let mut stack2 = stack_mut::LinkedListStack::empty();
    stack2.cons(1);
    stack2.cons(2);
    assert_eq!(stack2.is_empty(), false);
    assert_eq!(stack2.head(), Some(&2));
    assert_eq!(stack2.tail(), true);
    assert_eq!(stack2.head(), Some(&1));
}

#[test]
fn stack_lifo_order() {
    let base = stack::CustomStack::empty().cons(10);
    let pushed = base.cons(20);
    assert_eq!(pushed.head(), Some(&20));
    let back = pushed.tail().unwrap();
    assert_eq!(back.head(), base.head());
    assert_eq!(back.tail().unwrap().head(), None);

    let vbase = stack::LinkedListStack::empty().cons(10);
    let vpushed = vbase.cons(20);
    assert_eq!(vpushed.head(), Some(&20));
    let vback = vpushed.tail().unwrap();
    assert_eq!(vback.head(), vbase.head());
    assert_eq!(vback.tail().unwrap().head(), None);
}

#[test]
fn stack_mut_tail_on_empty() {
    let mut stack: stack_mut::CustomStack<i32> = stack_mut::CustomStack::empty();
    assert_eq!(stack.tail(), false);
    assert_eq!(stack.head(), None);
    let mut vstack: stack_mut::LinkedListStack<i32> = stack_mut::LinkedListStack::empty();
    assert_eq!(vstack.tail(), false);
    assert_eq!(vstack.head(), None);
}
