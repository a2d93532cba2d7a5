use rank_index::RankChain;
use rank_index::Task;

#[test]
fn new_chain_is_empty() {
    let c = RankChain::new();
    assert_eq!(c.len(), 0);
    assert!(c.head().is_none());
    assert!(c.to_vec().is_empty());
}

#[test]
fn push_back_keeps_arrival_order_and_head() {
    let mut c = RankChain::new();
    c.push_back(Task::new(1, 4, 0));
    c.push_back(Task::new(2, 4, 1));
    c.push_back(Task::new(3, 4, 2));
    assert_eq!(c.len(), 3);
    let head = c.head().unwrap();
    assert_eq!(head.get_id(), 1);
    assert_eq!(head.get_rank(), 4);
    let ids: Vec<i32> = c.to_vec().iter().map(|t| t.get_id()).collect();
    assert_eq!(ids, vec![1, 2, 3]);
    assert_eq!(c.get(1).get_state(), 1);
}

#[test]
fn task_accessors_report_fields() {
    let t = Task::new(7, -2, 3);
    assert_eq!(t.get_id(), 7);
    assert_eq!(t.get_rank(), -2);
    assert_eq!(t.get_state(), 3);
    assert_eq!(t.id, 7);
    assert_eq!(t.rank, -2);
    assert_eq!(t.state, 3);
}
