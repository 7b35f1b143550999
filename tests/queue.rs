use mandel::queue::WorkQueue;
use std::sync::Mutex;

#[test]
fn queue_hands_out_each_item_once_in_order() {
    let mut q = WorkQueue::new(vec!['a', 'b', 'c']);
    assert_eq!(q.len(), 3);
    assert_eq!(q.pull(), Some((0, 'a')));
    assert_eq!(q.pull(), Some((1, 'b')));
    assert_eq!(q.len(), 1);
    assert_eq!(q.pull(), Some((2, 'c')));
    assert_eq!(q.pull(), None);
    assert_eq!(q.pull(), None);
    assert_eq!(q.len(), 0);
}

#[test]
fn empty_queue_is_exhausted() {
    let mut q: WorkQueue<u32> = WorkQueue::new(Vec::new());
    assert_eq!(q.pull(), None);
}

#[test]
fn shared_queue_drains_completely_across_workers() {

    let q = Mutex::new(WorkQueue::new((0..100u32).collect()));
    let mut taken: Vec<Vec<(usize, u32)>> = vec![Vec::new(); 4];
    // Workers take turns unevenly, as if their bands cost different amounts.
    let mut w = 0;
    loop {
        let next = q.lock().unwrap().pull();
        match next {
            Some(item) => taken[w].push(item),
            None => break,
        }
        w = (w * 7 + 3) % 4;
    }
    let mut all: Vec<(usize, u32)> = taken.into_iter().flatten().collect();
    all.sort();
    assert_eq!(all, (0..100).map(|i| (i as usize, i)).collect::<Vec<_>>());
}
