use lambda_calc::common::{Sink, Source};
use std::collections::VecDeque;

#[test]
fn vec_source_yields_front_first_then_runs_out() {
    let mut source: Vec<i32> = vec![1, 2, 3];
    assert_eq!(source.take(), Some(1));
    assert_eq!(source.take(), Some(2));
    assert_eq!(source.take(), Some(3));
    assert_eq!(source.take(), None);
    assert_eq!(source.take(), None);
}

#[test]
fn vec_sink_appends_in_order() {
    let mut sink: Vec<i32> = Vec::new();
    sink.put(1);
    sink.put(2);
    sink.put(3);
    assert_eq!(sink, vec![1, 2, 3]);
}

#[test]
fn vecdeque_source_and_sink_preserve_order() {
    let mut queue: VecDeque<char> = VecDeque::new();
    queue.put('a');
    queue.put('b');
    assert_eq!(queue.take(), Some('a'));
    queue.put('c');
    assert_eq!(queue.take(), Some('b'));
    assert_eq!(queue.take(), Some('c'));
    assert_eq!(queue.take(), None);
}
