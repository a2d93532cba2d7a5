use rank_index::AvlTree;
use rank_index::Task;
use rank_index::TaskorLink;

fn flatten(listing: &Vec<(i32, Vec<Task>)>) -> Vec<Task> {
    let mut out: Vec<Task> = Vec::new();
    for (_, tasks) in listing {
        for t in tasks {
            out.push(*t);
        }
    }
    out
}

#[test]
fn empty_tree_is_empty() {
    let t = AvlTree::new();
    assert!(t.is_empty());
    assert_eq!(t.height(), 0);
    assert!(t.min().is_none());
    assert!(t.max().is_none());
    assert_eq!(t.in_order().len(), 0);
}

#[test]
fn single_insert_populates_root() {
    let mut t = AvlTree::new();
    t.insert(Task::new(1, 42, 0));
    assert!(!t.is_empty());
    assert_eq!(t.height(), 1);
    let listing = t.in_order();
    assert_eq!(listing.len(), 1);
    assert_eq!(listing[0].0, 42);
    assert_eq!(listing[0].1.len(), 1);
    assert_eq!(listing[0].1[0].get_id(), 1);
}

#[test]
fn find_absent_rank_is_not_found() {
    let mut t = AvlTree::new();
    assert!(t.find(7).is_none());
    t.insert(Task::new(1, 3, 0));
    t.insert(Task::new(2, 5, 0));
    assert!(t.find(7).is_none());
    assert!(t.find(4).is_none());
    assert!(t.find(3).is_some());
    assert!(t.find(5).is_some());
}

#[test]
fn scenario_mixed_ranks_with_duplicates() {
    // ranks [3,2,1,5,4,4,4,0] with ids [1,2,3,4,5,6,7,8] in that order
    let ranks = [3, 2, 1, 5, 4, 4, 4, 0];
    let mut t = AvlTree::new();
    for (i, r) in ranks.iter().enumerate() {
        t.insert(Task::new((i + 1) as i32, *r, 0));
    }
    // the node for rank 4 holds the chain [id 5, id 6, id 7] in that order
    let v = t.find(4).expect("rank 4 present");
    let chain = v.tasks();
    let chain_ids: Vec<i32> = chain.iter().map(|x| x.get_id()).collect();
    assert_eq!(chain_ids, vec![5, 6, 7]);
    // flattened in-order ranks are [0,1,2,3,4,4,4,5]
    let listing = t.in_order();
    let flat = flatten(&listing);
    let flat_ranks: Vec<i32> = flat.iter().map(|x| x.get_rank()).collect();
    assert_eq!(flat_ranks, vec![0, 1, 2, 3, 4, 4, 4, 5]);
    let rank4_ids: Vec<i32> = flat
        .iter()
        .filter(|x| x.get_rank() == 4)
        .map(|x| x.get_id())
        .collect();
    assert_eq!(rank4_ids, vec![5, 6, 7]);
}

#[test]
fn scenario_increasing_ranks_stay_balanced() {
    // inserting ranks 1..1000 in strictly increasing order must give a final
    // height between 10 and 14, not 1000
    let mut t = AvlTree::new();
    for r in 1..1000 {
        t.insert(Task::new(r, r, 0));
    }
    let h = t.height();
    assert!(10 <= h && h <= 14, "height {} out of balanced range", h);
    assert_eq!(t.in_order().len(), 999);
}

#[test]
fn equal_ranks_build_one_chain_in_arrival_order() {
    let mut t = AvlTree::new();
    t.insert(Task::new(1, 9, 0));
    t.insert(Task::new(2, 9, 0));
    // exactly one node with a 2-element chain in arrival order
    let listing = t.in_order();
    assert_eq!(listing.len(), 1);
    let v = t.find(9).unwrap();
    assert!(matches!(v, TaskorLink::Link(_)));
    let ids: Vec<i32> = v.tasks().iter().map(|x| x.get_id()).collect();
    assert_eq!(ids, vec![1, 2]);
    // a third insert of that rank appends at the tail
    t.insert(Task::new(3, 9, 0));
    let v = t.find(9).unwrap();
    let ids: Vec<i32> = v.tasks().iter().map(|x| x.get_id()).collect();
    assert_eq!(ids, vec![1, 2, 3]);
    assert_eq!(t.in_order().len(), 1);
}

#[test]
fn in_order_ranks_never_decrease() {
    let ranks = [13, 2, 8, 2, 40, -5, 8, 0, 13, 7, 100, -5];
    let mut t = AvlTree::new();
    for (i, r) in ranks.iter().enumerate() {
        t.insert(Task::new(i as i32, *r, 0));
    }
    let flat = flatten(&t.in_order());
    for w in flat.windows(2) {
        assert!(w[0].get_rank() <= w[1].get_rank());
    }
    assert_eq!(flat.len(), ranks.len());
}

#[test]
fn find_returns_all_tasks_of_a_rank_despite_interleaving() {
    let mut t = AvlTree::new();
    t.insert(Task::new(1, 50, 0));
    t.insert(Task::new(2, 7, 0));
    t.insert(Task::new(3, 99, 0));
    t.insert(Task::new(4, 7, 0));
    t.insert(Task::new(5, 1, 0));
    t.insert(Task::new(6, 7, 0));
    t.insert(Task::new(7, 50, 0));
    let ids: Vec<i32> = t.find(7).unwrap().tasks().iter().map(|x| x.get_id()).collect();
    assert_eq!(ids, vec![2, 4, 6]);
    let ids50: Vec<i32> = t.find(50).unwrap().tasks().iter().map(|x| x.get_id()).collect();
    assert_eq!(ids50, vec![1, 7]);
}

#[test]
fn disjoint_rank_ranges_agree_with_sequential_run() {
    // two disjoint rank ranges, inserted block-wise and interleaved, give
    // identical listings and heights: no node lost or duplicated
    let mut blockwise = AvlTree::new();
    for r in 1..500 {
        blockwise.insert(Task::new(r, r, 0));
    }
    for r in 501..1000 {
        blockwise.insert(Task::new(r, r, 0));
    }
    let mut interleaved = AvlTree::new();
    for i in 0..499 {
        interleaved.insert(Task::new(501 + i, 501 + i, 0));
        interleaved.insert(Task::new(1 + i, 1 + i, 0));
    }
    let a = blockwise.in_order();
    let b = interleaved.in_order();
    assert_eq!(a.len(), b.len());
    for (x, y) in a.iter().zip(b.iter()) {
        assert_eq!(x.0, y.0);
        let xi: Vec<i32> = x.1.iter().map(|t| t.get_id()).collect();
        let yi: Vec<i32> = y.1.iter().map(|t| t.get_id()).collect();
        assert_eq!(xi, yi);
    }
    assert_eq!(blockwise.height(), interleaved.height());
}

#[test]
fn min_and_max_are_extreme_ranks() {
    let mut t = AvlTree::new();
    for (i, r) in [5, -3, 12, 0, 12, -3].iter().enumerate() {
        t.insert(Task::new(i as i32, *r, 0));
    }
    let mn = t.min().unwrap();
    assert_eq!(mn.rep_rank(), -3);
    let mn_ids: Vec<i32> = mn.tasks().iter().map(|x| x.get_id()).collect();
    assert_eq!(mn_ids, vec![1, 5]);
    let mx = t.max().unwrap();
    assert_eq!(mx.rep_rank(), 12);
    let mx_ids: Vec<i32> = mx.tasks().iter().map(|x| x.get_id()).collect();
    assert_eq!(mx_ids, vec![2, 4]);
}

#[test]
fn testing_driver_builds_the_sample_index() {
    let listing = rank_index::testing();
    let entry_ranks: Vec<i32> = listing.iter().map(|e| e.0).collect();
    assert_eq!(entry_ranks, vec![0, 1, 2, 3, 4, 5, 6, 10]);
    let ids_of = |rank: i32| -> Vec<i32> {
        listing
            .iter()
            .find(|e| e.0 == rank)
            .unwrap()
            .1
            .iter()
            .map(|x| x.get_id())
            .collect()
    };
    assert_eq!(ids_of(0), vec![7]);
    assert_eq!(ids_of(1), vec![9, 1]);
    assert_eq!(ids_of(2), vec![2, 11]);
    assert_eq!(ids_of(3), vec![3, 4]);
    assert_eq!(ids_of(4), vec![8, 7, 6]);
    assert_eq!(ids_of(5), vec![10, 5]);
    assert_eq!(ids_of(6), vec![12]);
    assert_eq!(ids_of(10), vec![13]);
}
