use rlox::gc::{next_collection_at, references, trace_references, HeapObject, GC_HEAP_GROWTH_FACTOR};
use rlox::value::Value;

#[test]
fn marks_exactly_what_the_roots_reach() {
    // 0 -> 1 -> 2, 3 -> 0, 4 alone, 5 <-> 6 a cycle off the roots.
    let graph = vec![vec![1], vec![2], vec![], vec![0], vec![], vec![6], vec![5]];
    let marks = trace_references(&graph, &vec![0]);
    assert_eq!(marks, vec![true, true, true, false, false, false, false]);
    let marks = trace_references(&graph, &vec![3, 6]);
    assert_eq!(marks, vec![true, true, true, true, false, true, true]);
}

#[test]
fn no_roots_marks_nothing() {
    let graph = vec![vec![0, 1], vec![0]];
    assert_eq!(trace_references(&graph, &vec![]), vec![false, false]);
}

#[test]
fn cycles_and_repeated_roots_are_marked_once() {
    let graph = vec![vec![1, 1, 2], vec![0], vec![2]];
    assert_eq!(trace_references(&graph, &vec![2, 0, 0, 2]), vec![true, true, true]);
}

#[test]
fn an_empty_heap_has_no_marks() {
    assert_eq!(trace_references(&Vec::new(), &Vec::new()), Vec::<bool>::new());
}

#[test]
fn the_threshold_doubles_what_survived() {
    assert_eq!(GC_HEAP_GROWTH_FACTOR, 2);
    assert_eq!(next_collection_at(0), 0);
    assert_eq!(next_collection_at(1536), 3072);
    assert_eq!(next_collection_at(usize::MAX / 2), usize::MAX - 1);
}

#[test]
fn references_to_no_object_are_passed_over() {
    let graph = vec![vec![7, 1], vec![], vec![0]];
    assert_eq!(trace_references(&graph, &vec![9, 0]), vec![true, true, false]);
}

#[test]
fn references_follow_each_kind_of_object() {
    let obj = |h: u64| Value::from_obj(h);
    assert_eq!(references(&HeapObject::String), Vec::<u64>::new());
    assert_eq!(references(&HeapObject::Native), Vec::<u64>::new());
    assert_eq!(
        references(&HeapObject::Function { constants: vec![Value::nil(), obj(4), Value::from_bool(true), obj(2)] }),
        vec![4, 2]
    );
    assert_eq!(references(&HeapObject::Closure { function: 7, upvalues: vec![3, 5] }), vec![7, 3, 5]);
    assert_eq!(references(&HeapObject::UpValue { value: obj(9) }), vec![9]);
    assert_eq!(references(&HeapObject::UpValue { value: Value::nil() }), Vec::<u64>::new());
    assert_eq!(
        references(&HeapObject::Class { methods: vec![(1, obj(10)), (2, obj(11))] }),
        vec![1, 10, 2, 11]
    );
    assert_eq!(
        references(&HeapObject::Instance { class: 6, fields: vec![(1, Value::nil()), (2, obj(12))] }),
        vec![6, 1, 2, 12]
    );
    assert_eq!(references(&HeapObject::BoundMethod { receiver: obj(8), method: 13 }), vec![8, 13]);
    assert_eq!(references(&HeapObject::BoundMethod { receiver: Value::nil(), method: 13 }), vec![13]);
}
