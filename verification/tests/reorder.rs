use gitfilter::export_parser::dispatch::{collect_in_order, dispatch};
use gitfilter::export_parser::{
    default_parser_threads, parser_thread_count, parser_threads, queue_depth, through_workers,
    worker_for, ReorderBuffer, StructuredBlobObject,
    StructuredExportObject, StructuredObjectType,
};
use gitfilter::WaitObj;

fn blob(n: usize) -> StructuredExportObject {
    StructuredExportObject {
        has_reset: None,
        has_reset_from: None,
        has_feature_done: false,
        object_type: StructuredObjectType::Blob(StructuredBlobObject {
            mark: Some(format!(":{}", n + 1).into_bytes()),
            oid: None,
            data: vec![],
        }),
    }
}

fn place(obj: &StructuredExportObject) -> usize {
    match &obj.object_type {
        StructuredObjectType::Blob(b) => {
            let mark = String::from_utf8(b.mark.clone().unwrap()).unwrap();
            mark[1..].parse::<usize>().unwrap() - 1
        }
        _ => panic!("expected blob object"),
    }
}

fn places(objs: &[StructuredExportObject]) -> Vec<usize> {
    objs.iter().map(place).collect()
}

#[test]
fn expected_object_is_released_at_once() {
    let mut buffer = ReorderBuffer::new();
    assert_eq!(buffer.next_expected(), 0);
    assert_eq!(places(&buffer.accept(0, blob(0))), vec![0]);
    assert_eq!(places(&buffer.accept(1, blob(1))), vec![1]);
    assert_eq!(buffer.next_expected(), 2);
    assert_eq!(buffer.waiting(), 0);
}

#[test]
fn early_objects_wait_for_their_turn() {
    let mut buffer = ReorderBuffer::new();
    assert_eq!(places(&buffer.accept(2, blob(2))), Vec::<usize>::new());
    assert_eq!(places(&buffer.accept(4, blob(4))), Vec::<usize>::new());
    assert_eq!(places(&buffer.accept(1, blob(1))), Vec::<usize>::new());
    assert_eq!(buffer.waiting(), 3);
    assert_eq!(buffer.next_expected(), 0);
    assert_eq!(places(&buffer.accept(0, blob(0))), vec![0, 1, 2]);
    assert_eq!(buffer.waiting(), 1);
    assert_eq!(buffer.next_expected(), 3);
    assert_eq!(places(&buffer.accept(3, blob(3))), vec![3, 4]);
    assert_eq!(buffer.waiting(), 0);
    assert_eq!(buffer.next_expected(), 5);
}

#[test]
fn any_order_comes_out_in_stream_order() {
    let orders: [[usize; 5]; 5] =
        [[0, 1, 2, 3, 4], [4, 3, 2, 1, 0], [1, 0, 3, 2, 4], [2, 4, 0, 3, 1], [4, 0, 3, 1, 2]];
    for order in orders {
        let mut buffer = ReorderBuffer::new();
        let mut out = Vec::new();
        for i in order {
            out.extend(buffer.accept(i, blob(i)));
        }
        assert_eq!(places(&out), vec![0, 1, 2, 3, 4]);
        assert_eq!(buffer.waiting(), 0);
        assert_eq!(buffer.next_expected(), 5);
    }
}

#[test]
fn missing_object_holds_back_all_behind_it() {
    let mut buffer = ReorderBuffer::new();
    let mut out = Vec::new();
    for i in [0usize, 1, 3, 4, 5] {
        out.extend(buffer.accept(i, blob(i)));
    }
    assert_eq!(places(&out), vec![0, 1]);
    assert_eq!(buffer.waiting(), 3);
    assert_eq!(buffer.next_expected(), 2);
}

#[test]
fn object_that_comes_again_is_never_released() {
    let mut buffer = ReorderBuffer::new();
    let mut out = Vec::new();
    for i in [0usize, 0, 1, 2] {
        out.extend(buffer.accept(i, blob(i)));
    }
    assert_eq!(places(&out), vec![0, 1, 2]);
    assert_eq!(buffer.waiting(), 1);
}

#[test]
fn workers_take_objects_in_turn() {
    assert_eq!(worker_for(0, 4), 0);
    assert_eq!(worker_for(3, 4), 3);
    assert_eq!(worker_for(4, 4), 0);
    assert_eq!(worker_for(9, 4), 1);
    assert_eq!(worker_for(7, 1), 0);
    assert_eq!(worker_for(usize::MAX, 2), 1);
}

#[test]
fn two_processors_are_left_to_reader_and_coordinator() {
    assert_eq!(parser_thread_count(0), 1);
    assert_eq!(parser_thread_count(1), 1);
    assert_eq!(parser_thread_count(2), 1);
    assert_eq!(parser_thread_count(3), 1);
    assert_eq!(parser_thread_count(4), 2);
    assert_eq!(parser_thread_count(8), 6);
    assert_eq!(parser_thread_count(usize::MAX), usize::MAX - 2);
    assert!(default_parser_threads() >= 1);
    assert_eq!(parser_threads(Some(5)), 5);
    assert_eq!(parser_threads(Some(1)), 1);
    assert_eq!(parser_threads(Some(0)), 1);
    assert_eq!(parser_threads(None), default_parser_threads());
}

#[test]
fn dispatch_deals_round_robin() {
    let objects: Vec<StructuredExportObject> = (0..10).map(blob).collect();
    let queues = dispatch(objects, 4);
    assert_eq!(queues.len(), 4);
    let indices: Vec<Vec<usize>> =
        queues.iter().map(|q| q.iter().map(|w| w.index).collect()).collect();
    assert_eq!(indices, vec![vec![0, 4, 8], vec![1, 5, 9], vec![2, 6], vec![3, 7]]);
    for q in &queues {
        for w in q {
            assert_eq!(place(&w.obj), w.index);
        }
    }
    let queues = dispatch(Vec::new(), 3);
    assert_eq!(queues.len(), 3);
    assert!(queues.iter().all(|q| q.is_empty()));
}

#[test]
fn shares_come_back_in_stream_order() {
    for n in 1..=7 {
        let objects: Vec<StructuredExportObject> = (0..50).map(blob).collect();
        let (ordered, waiting) = collect_in_order(dispatch(objects, n));
        assert_eq!(places(&ordered), (0..50).collect::<Vec<usize>>());
        assert_eq!(waiting, 0);
    }
}

#[test]
fn queue_with_a_gap_leaves_objects_on_hold() {
    let queues = vec![
        vec![WaitObj { index: 0, obj: blob(0) }, WaitObj { index: 3, obj: blob(3) }],
        vec![WaitObj { index: 1, obj: blob(1) }, WaitObj { index: 4, obj: blob(4) }],
    ];
    let (ordered, waiting) = collect_in_order(queues);
    assert_eq!(places(&ordered), vec![0, 1]);
    assert_eq!(waiting, 2);
}

#[test]
fn waiting_objects_compare_by_place() {
    let a = WaitObj { index: 1, obj: blob(7) };
    let b = WaitObj { index: 1, obj: blob(8) };
    let c = WaitObj { index: 2, obj: blob(7) };
    assert!(a == b);
    assert!(a != c);
    assert!(a < c);
    assert!(c > b);
    assert!(a <= b);
    assert_eq!(a.partial_cmp(&c), Some(std::cmp::Ordering::Less));
    assert_eq!(c.partial_cmp(&a), Some(std::cmp::Ordering::Greater));
    assert_eq!(a.partial_cmp(&b), Some(std::cmp::Ordering::Equal));
}

#[test]
fn queues_hold_four_objects_for_each_worker() {
    assert_eq!(queue_depth(1), 4);
    assert_eq!(queue_depth(4), 16);
    assert_eq!(queue_depth(0), 0);
    assert_eq!(queue_depth(usize::MAX), usize::MAX);
    assert_eq!(queue_depth(usize::MAX / 4), usize::MAX - 3);
}

#[test]
fn objects_come_back_from_the_workers_in_their_order() {
    for n in [1usize, 2, 3, 8] {
        let objects: Vec<StructuredExportObject> = (0..100).map(blob).collect();
        let expected = objects.clone();
        assert_eq!(through_workers(objects, n), expected);
        assert_eq!(through_workers(Vec::new(), n), Vec::new());
    }
}
