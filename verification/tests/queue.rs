// Ranks below order the entries' priorities at the time of the call; the
// comments give the priorities they stand for.
use attention::queue::{PriorityQueue, QueueEntry};

fn entry(id: &str) -> QueueEntry<u32> {
    QueueEntry { id: id.to_string(), item: 0 }
}

#[test]
fn test_pq_new() {
    let pq: PriorityQueue<u32> = PriorityQueue::new();
    assert!(pq.is_empty());
}

#[test]
fn test_pq_enqueue_dequeue() {
    let mut pq = PriorityQueue::new();
    pq.enqueue(entry("a"));
    assert_eq!(pq.len(), 1);
    let item = pq.dequeue(&vec![1]).unwrap();
    assert_eq!(item.id, "a");
    assert!(pq.is_empty());
}

#[test]
fn test_pq_priority_ordering() {
    let mut pq = PriorityQueue::new();
    pq.enqueue(entry("low")); // priority 1.0
    pq.enqueue(entry("high")); // priority 10.0
    let first = pq.dequeue(&vec![1, 10]).unwrap();
    assert_eq!(first.id, "high");
}

#[test]
fn test_pq_urgency_factor() {
    let mut pq = PriorityQueue::new();
    pq.enqueue(entry("a")); // 5.0 * 2.0 = 10.0
    pq.enqueue(entry("b")); // 5.0 * 1.0 = 5.0
    let first = pq.dequeue(&vec![10, 5]).unwrap();
    assert_eq!(first.id, "a");
}

#[test]
fn test_pq_deadline() {
    let mut pq = PriorityQueue::new();
    pq.enqueue(entry("urgent")); // 1 / (1 - 0 + 1) = 0.5
    pq.enqueue(entry("relaxed")); // 1 / (100 - 0 + 1) < 0.01
    let first = pq.dequeue(&vec![500, 9]).unwrap();
    assert_eq!(first.id, "urgent");
}

#[test]
fn test_pq_peek() {
    let mut pq = PriorityQueue::new();
    pq.enqueue(entry("x"));
    assert_eq!(pq.peek(&vec![5]).unwrap().id, "x");
    assert_eq!(pq.len(), 1);
}

#[test]
fn test_pq_remove() {
    let mut pq = PriorityQueue::new();
    pq.enqueue(entry("a"));
    let removed = pq.remove("a").unwrap();
    assert_eq!(removed.id, "a");
    assert!(pq.is_empty());
}

#[test]
fn test_pq_sorted() {
    let mut pq = PriorityQueue::new();
    pq.enqueue(entry("c")); // 1.0
    pq.enqueue(entry("a")); // 10.0
    pq.enqueue(entry("b")); // 5.0
    let sorted: Vec<&str> = pq.sorted(&vec![1, 10, 5]).iter().map(|e| e.id.as_str()).collect();
    assert_eq!(sorted, vec!["a", "b", "c"]);
}

#[test]
fn test_pq_default() {
    let pq: PriorityQueue<u32> = PriorityQueue::default();
    assert!(pq.is_empty());
}

#[test]
fn test_pq_empty_dequeue() {
    let mut pq: PriorityQueue<u32> = PriorityQueue::new();
    assert!(pq.dequeue(&vec![]).is_none());
}

#[test]
fn dequeue_takes_latest_of_equal_priorities() {
    let mut pq = PriorityQueue::new();
    pq.enqueue(entry("first"));
    pq.enqueue(entry("second"));
    pq.enqueue(entry("third"));
    let ranks = vec![7, 7, 3];
    assert_eq!(pq.peek(&ranks).unwrap().id, "second");
    assert_eq!(pq.dequeue(&ranks).unwrap().id, "second");
    let left: Vec<&str> = pq.sorted(&vec![7, 3]).iter().map(|e| e.id.as_str()).collect();
    assert_eq!(left, vec!["first", "third"]);
}

#[test]
fn sorted_keeps_enqueue_order_among_equals() {
    let mut pq = PriorityQueue::new();
    for id in ["p", "q", "r", "s"] {
        pq.enqueue(entry(id));
    }
    let ranks = vec![2, 8, 2, 8];
    let sorted: Vec<&str> = pq.sorted(&ranks).iter().map(|e| e.id.as_str()).collect();
    assert_eq!(sorted, vec!["q", "s", "p", "r"]);
    // the head of the sorted order ties with the entry peek shows
    assert_eq!(pq.peek(&ranks).unwrap().id, "s");
    assert_eq!(pq.len(), 4);
}

#[test]
fn remove_missing_id_leaves_queue() {
    let mut pq = PriorityQueue::new();
    pq.enqueue(entry("a"));
    assert!(pq.remove("b").is_none());
    assert_eq!(pq.len(), 1);
}

#[test]
fn remove_takes_first_entry_with_id() {
    let mut pq = PriorityQueue::new();
    pq.enqueue(QueueEntry { id: "x".to_string(), item: 1 });
    pq.enqueue(QueueEntry { id: "y".to_string(), item: 2 });
    pq.enqueue(QueueEntry { id: "x".to_string(), item: 3 });
    let removed = pq.remove("x").unwrap();
    assert_eq!(removed.item, 1);
    let rest: Vec<u32> = pq.sorted(&vec![0, 0]).iter().map(|e| e.item).collect();
    assert_eq!(rest, vec![2, 3]);
}

#[test]
fn remove_undoes_enqueue_of_fresh_id() {
    let mut pq = PriorityQueue::new();
    pq.enqueue(QueueEntry { id: "a".to_string(), item: 1 });
    pq.enqueue(QueueEntry { id: "b".to_string(), item: 2 });
    pq.remove("b");
    pq.enqueue(QueueEntry { id: "c".to_string(), item: 3 });
    let removed = pq.remove("c").unwrap();
    assert_eq!(removed.item, 3);
    assert_eq!(pq.len(), 1);
    assert_eq!(pq.peek(&vec![0]).unwrap().id, "a");
}
