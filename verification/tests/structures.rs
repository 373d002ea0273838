use lld_rust::leaderboard::Leaderboard;
use lld_rust::linked_list::LinkedList;
use lld_rust::min_stack::MinStack;
use lld_rust::ordered_sequence::OrderedSequence;

#[test]
fn min_stack_demo() {
    let mut obj = MinStack::new();
    obj.push(2);
    assert_eq!(obj.pop(), Some(2));
    assert_eq!(obj.top(), None);
    assert_eq!(obj.get_min(), None);
}

#[test]
fn min_stack_tracks_minimum_through_pops() {
    let mut s = MinStack::new();
    s.push(3);
    s.push(1);
    s.push(2);
    assert_eq!(s.get_min(), Some(1));
    assert_eq!(s.top(), Some(2));
    assert_eq!(s.pop(), Some(2));
    assert_eq!(s.get_min(), Some(1));
    assert_eq!(s.pop(), Some(1));
    assert_eq!(s.get_min(), Some(3));
    assert_eq!(s.pop(), Some(3));
    assert_eq!(s.pop(), None);
}

#[test]
fn ordered_sequence_doc_example() {
    let mut seq = OrderedSequence::new();
    assert_eq!(seq.receive(2, "B"), Vec::<String>::new());
    assert_eq!(seq.receive(1, "A"), vec!["A".to_string(), "B".to_string()]);
    assert_eq!(seq.receive(4, "D"), Vec::<String>::new());
    assert_eq!(seq.receive(3, "C"), vec!["C".to_string(), "D".to_string()]);
    assert_eq!(seq.receive(2, "B"), Vec::<String>::new());
    assert_eq!(seq.receive(5, "E"), vec!["E".to_string()]);
}

#[test]
fn ordered_sequence_ignores_buffered_duplicate() {
    let mut seq = OrderedSequence::new();
    assert!(seq.receive(3, "C").is_empty());
    assert!(seq.receive(3, "X").is_empty());
    assert!(seq.receive(2, "B").is_empty());
    assert_eq!(
        seq.receive(1, "A"),
        vec!["A".to_string(), "B".to_string(), "C".to_string()]
    );
    assert!(seq.receive(0, "Z").is_empty());
    assert!(seq.receive(-4, "Z").is_empty());
}

#[test]
fn linked_list_reverse() {
    let mut list = LinkedList::new();
    assert_eq!(list.render(), "None");
    list.push_back(10);
    list.push_back(20);
    list.push_back(30);
    assert_eq!(list.render(), "10 -> 20 -> 30 -> None");
    list.reverse();
    assert_eq!(list.render(), "30 -> 20 -> 10 -> None");
    list.reverse();
    assert_eq!(list.render(), "10 -> 20 -> 30 -> None");
}

#[test]
fn linked_list_single_and_negative() {
    let mut list = LinkedList::new();
    list.reverse();
    assert_eq!(list.render(), "None");
    list.push_back(-7);
    list.reverse();
    assert_eq!(list.render(), "-7 -> None");
}

#[test]
fn leaderboard_demo() {
    let mut board = Leaderboard::new();
    board.add_score(1, 30);
    board.add_score(2, 70);
    board.add_score(3, 50);
    assert_eq!(board.current_state(), "[1:30][2:70][3:50]");
    assert_eq!(board.top_k(2), 120);
    board.remove(2);
    assert_eq!(board.top_k(2), 80);
    assert_eq!(board.current_state(), "[1:30][3:50]");
}

#[test]
fn leaderboard_accumulates_and_sums_all_when_k_is_large() {
    let mut board = Leaderboard::new();
    board.add_score(7, 5);
    board.add_score(8, 9);
    board.add_score(7, 6);
    assert_eq!(board.current_state(), "[7:11][8:9]");
    assert_eq!(board.top_k(1), 11);
    assert_eq!(board.top_k(100), 20);
    board.remove(42);
    assert_eq!(board.top_k(100), 20);
}

#[test]
fn leaderboard_top_k_keeps_equal_scores() {
    let mut board = Leaderboard::new();
    board.add_score(1, 10);
    board.add_score(2, 40);
    board.add_score(3, 40);
    board.add_score(4, 20);
    assert_eq!(board.top_k(2), 80);
    assert_eq!(board.top_k(3), 100);
}

#[test]
fn leaderboard_empty_top_k_is_zero() {
    let board = Leaderboard::new();
    assert_eq!(board.top_k(0), 0);
    assert_eq!(board.top_k(3), 0);
    assert_eq!(board.current_state(), "");
}
