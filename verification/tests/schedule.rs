use verseengine::document::DocumentId;
use verseengine::schedule::{split_due, MoveQueue, PlayerCraft, PlayerLoot, Scheduled, TaskQueue};

fn craft(user: u64, universe: u128, end: u64) -> PlayerCraft {
    PlayerCraft {
        _id: DocumentId { value: user as u128 },
        universe_id: DocumentId { value: universe },
        user_id: user,
        server_id: 1,
        recipe_id: DocumentId { value: 5 },
        start_timestamp: 0,
        end_timestamp: end,
        is_finished: false,
    }
}

fn travel(user: u64, end: Option<u64>) -> Scheduled<u64> {
    Scheduled { user_id: user, step_end: end, item: user * 10 }
}

#[test]
fn adding_a_task_gives_its_delay() {
    let mut q = TaskQueue::new();
    assert_eq!(q.add(craft(1, 1, 150), 100), 50);
    assert_eq!(q.add(craft(2, 1, 90), 100), 0);
    assert_eq!(q.tasks.len(), 2);
}

#[test]
fn wake_up_takes_out_ended_tasks_in_order() {
    let mut q = TaskQueue::new();
    q.add(craft(1, 1, 150), 0);
    q.add(craft(2, 1, 100), 0);
    q.add(craft(3, 1, 120), 0);
    q.add(craft(4, 1, 90), 0);
    let (done, next) = q.take_finished(100);
    let users: Vec<u64> = done.iter().map(|c| c.user_id).collect();
    assert_eq!(users, vec![2, 4]);
    let left: Vec<u64> = q.tasks.iter().map(|c| c.user_id).collect();
    assert_eq!(left, vec![1, 3]);
    assert_eq!(next, Some(20));
}

#[test]
fn wake_up_with_nothing_left_has_no_next() {
    let mut q = TaskQueue::new();
    q.add(craft(1, 1, 10), 0);
    let (done, next) = q.take_finished(10);
    assert_eq!(done.len(), 1);
    assert!(q.tasks.is_empty());
    assert_eq!(next, None);
}

#[test]
fn stopping_removes_the_first_task_of_the_player() {
    let mut q = TaskQueue::new();
    q.add(craft(1, 1, 10), 0);
    q.add(craft(2, 1, 20), 0);
    q.add(craft(2, 2, 30), 0);
    let r = q.remove_owned(DocumentId { value: 2 }, 2).unwrap();
    assert_eq!(r.end_timestamp, 30);
    assert_eq!(q.tasks.len(), 2);
    assert!(q.remove_owned(DocumentId { value: 3 }, 2).is_none());
    assert_eq!(q.tasks.len(), 2);
}

#[test]
fn loot_tasks_wait_too() {
    let mut q = TaskQueue::new();
    let l = PlayerLoot {
        _id: None,
        universe_id: DocumentId { value: 1 },
        user_id: 7,
        server_id: 3,
        items: vec!["or".to_string()],
        start_timestamp: 0,
        end_timestamp: 60,
        is_finished: false,
    };
    assert_eq!(q.add(l, 15), 45);
    let (done, next) = q.take_finished(59);
    assert!(done.is_empty());
    assert_eq!(next, Some(1));
}

#[test]
fn travels_are_kept_sorted_by_step_end() {
    let mut q = MoveQueue::new();
    assert_eq!(q.insert(travel(1, Some(50))), 0);
    assert_eq!(q.insert(travel(2, Some(30))), 0);
    assert_eq!(q.insert(travel(3, Some(50))), 1);
    assert_eq!(q.insert(travel(4, None)), 0);
    let users: Vec<u64> = q.entries.iter().map(|m| m.user_id).collect();
    assert_eq!(users, vec![4, 2, 3, 1]);
    assert_eq!(q.next_delay(10), None);
    let first = q.pop_first().unwrap();
    assert_eq!(first.user_id, 4);
    assert_eq!(q.next_delay(10), Some(20));
    assert_eq!(q.next_delay(40), Some(0));
}

#[test]
fn removing_a_travel_says_where_it_was() {
    let mut q = MoveQueue::new();
    q.insert(travel(1, Some(10)));
    q.insert(travel(2, Some(20)));
    q.insert(travel(3, Some(30)));
    let (i, m) = q.remove_user(2).unwrap();
    assert_eq!(i, 1);
    assert_eq!(m.item, 20);
    assert!(q.remove_user(9).is_none());
    assert_eq!(q.entries.len(), 2);
}

#[test]
fn recovered_travels_are_split_and_sorted_stably() {
    let all = vec![travel(1, Some(300)), travel(2, Some(100)), travel(3, None), travel(4, Some(200)), travel(5, Some(200)), travel(6, Some(150))];
    let (due, later) = split_due(all, 150);
    let d: Vec<u64> = due.iter().map(|m| m.user_id).collect();
    assert_eq!(d, vec![2, 3, 6]);
    let q = MoveQueue::from_travels(later);
    let users: Vec<u64> = q.entries.iter().map(|m| m.user_id).collect();
    assert_eq!(users, vec![4, 5, 1]);
}
