use t9vm::Stack;
use t9vm::StackError;

#[test]
fn push_pop_is_lifo() {
    let mut st: Stack<u8> = Stack::new(4);
    assert_eq!(st.push(1), Ok(()));
    assert_eq!(st.push(2), Ok(()));
    assert_eq!(st.push(3), Ok(()));
    assert_eq!(st.pop(), Some(3));
    assert_eq!(st.pop(), Some(2));
    assert_eq!(st.pop(), Some(1));
    assert_eq!(st.pop(), None);
}

#[test]
fn peek_does_not_remove() {
    let mut st: Stack<u8> = Stack::new(4);
    assert_eq!(st.peek(), None);
    st.push(7).unwrap();
    assert_eq!(st.peek(), Some(&7));
    assert_eq!(st.peek(), Some(&7));
    assert_eq!(st.len(), 1);
}

#[test]
fn push_overflows_at_capacity() {
    let mut st: Stack<u8> = Stack::new(2);
    assert_eq!(st.push(1), Ok(()));
    assert_eq!(st.push(2), Ok(()));
    assert_eq!(st.push(3), Err(StackError::Overflow));
    // The failed push left the contents unchanged.
    assert_eq!(st.all(), &[1, 2]);
}

#[test]
fn drop_n_removes_exactly_n() {
    let mut st: Stack<u8> = Stack::new(8);
    st.push_n(&[1, 2, 3, 4, 5]).unwrap();
    assert_eq!(st.drop_n(2), Ok(()));
    assert_eq!(st.all(), &[1, 2, 3]);
    assert_eq!(st.drop_n(0), Ok(()));
    assert_eq!(st.all(), &[1, 2, 3]);
}

#[test]
fn drop_n_underflow_leaves_stack_unchanged() {
    let mut st: Stack<u8> = Stack::new(8);
    st.push_n(&[1, 2, 3]).unwrap();
    assert_eq!(st.drop_n(4), Err(StackError::Underflow));
    assert_eq!(st.all(), &[1, 2, 3]);
}

#[test]
fn push_n_appends_in_order() {
    let mut st: Stack<u8> = Stack::new(8);
    st.push(9).unwrap();
    assert_eq!(st.push_n(&[1, 2, 3]), Ok(()));
    assert_eq!(st.all(), &[9, 1, 2, 3]);
}

#[test]
fn push_n_overflow_leaves_stack_unchanged() {
    let mut st: Stack<u8> = Stack::new(3);
    st.push(9).unwrap();
    assert_eq!(st.push_n(&[1, 2, 3]), Err(StackError::Overflow));
    assert_eq!(st.all(), &[9]);
}

#[test]
fn clear_empties() {
    let mut st: Stack<u8> = Stack::new(4);
    st.push_n(&[1, 2, 3]).unwrap();
    st.clear();
    assert_eq!(st.len(), 0);
    assert_eq!(st.pop(), None);
    // Capacity survives a clear.
    st.push_n(&[4, 5, 6, 7]).unwrap();
    assert_eq!(st.all(), &[4, 5, 6, 7]);
}
