use std::collections::HashMap;
use std::ops::Deref;
use std::sync::Arc;

use rs_mitm::avail_list::{ArcIntoPtr, AvailabilityList, CursorAtKeyResult, InsertExistingResult};

fn order(list: &mut AvailabilityList<u64>) -> Vec<usize> {
    let mut keys = Vec::new();
    let mut cursor = list.cursor_front();
    while let Some(key) = cursor.key() {
        keys.push(key);
        cursor.move_next();
    }
    keys
}

#[test]
fn derp() {
    let mut list: AvailabilityList<u64> = AvailabilityList::new();
    let mut map: HashMap<u64, Arc<u64>> = HashMap::new();

    for i in 0u64..64 {
        let arc = Arc::new(i);
        list.push_back_new(Arc::clone(&arc));
        map.insert(i, arc);
    }

    let mut cursor = list.cursor_front();
    assert_eq!(cursor.get().unwrap().deref(), &0);
    cursor.move_next();
    assert_eq!(cursor.get().unwrap().deref(), &1);
    assert_eq!(
        Arc::as_ptr(cursor.get().unwrap()),
        Arc::as_ptr(map.get(&1).unwrap())
    );
}

#[test]
fn a_new_list_is_empty() {
    let mut list: AvailabilityList<u64> = AvailabilityList::new();
    assert!(list.is_empty());
    assert_eq!(list.len(), 0);
    assert_eq!(list.available(), 0);
    assert!(list.pop_front_full().is_none());
    assert!(list.pop_back_full().is_none());
    assert!(list.cursor_front().is_null());
    assert!(list.cursor_back().is_null());
}

#[test]
fn pops_come_in_reverse_order_of_front_pushes() {
    let mut list: AvailabilityList<&str> = AvailabilityList::new();
    list.insert_front(1, Arc::new("first"));
    list.insert_front(2, Arc::new("second"));
    list.insert_front(3, Arc::new("third"));
    assert_eq!(*list.pop_front_full().unwrap(), "third");
    assert_eq!(*list.pop_front_full().unwrap(), "second");
    assert_eq!(*list.pop_front_full().unwrap(), "first");
    assert!(list.pop_front_full().is_none());
    assert!(list.is_empty());
}

#[test]
fn back_pushes_queue_up_behind_front_pushes() {
    let mut list: AvailabilityList<u64> = AvailabilityList::new();
    list.insert_back(1, Arc::new(10));
    list.insert_front(2, Arc::new(20));
    list.insert_back(3, Arc::new(30));
    assert_eq!(order(&mut list), vec![2, 1, 3]);
    assert_eq!(*list.pop_back_full().unwrap(), 30);
    assert_eq!(*list.pop_back_full().unwrap(), 10);
    assert_eq!(*list.pop_back_full().unwrap(), 20);
    assert!(list.pop_back_full().is_none());
}

#[test]
fn whatever_is_in_the_order_is_in_the_index() {
    let mut list: AvailabilityList<u64> = AvailabilityList::new();
    for key in 1..=8usize {
        list.insert_front(key, Arc::new(key as u64));
    }
    for key in [2usize, 5, 7] {
        match list.cursor_at(key) {
            CursorAtKeyResult::InList(mut cursor) => assert!(cursor.remove_list()),
            _ => panic!("the worker stands in the order"),
        }
    }
    assert!(list.remove(3).is_some());
    assert_eq!(list.admit_back(5), InsertExistingResult::Inserted);
    let listed = order(&mut list);
    assert_eq!(listed, vec![8, 6, 4, 1, 5]);
    for key in listed {
        assert!(list.contains(key));
        assert!(list.get(key).is_some());
    }
    assert_eq!(list.len(), 7);
    assert_eq!(list.available(), 5);
}

#[test]
fn a_removed_worker_is_gone_from_order_and_index() {
    let mut list: AvailabilityList<u64> = AvailabilityList::new();
    for key in 1..=4usize {
        list.insert_back(key, Arc::new(10 * key as u64));
    }
    assert_eq!(*list.pop_front_full().unwrap(), 10);
    assert!(!list.contains(1));
    assert!(matches!(list.cursor_at(1), CursorAtKeyResult::NoMatch));
    assert!(list.remove(1).is_none());

    assert_eq!(*list.pop_back_full().unwrap(), 40);
    assert!(!list.contains(4));
    assert!(list.remove(4).is_none());

    assert_eq!(*list.remove(2).unwrap(), 20);
    assert!(!list.contains(2));
    assert!(list.remove(2).is_none());
    assert_eq!(list.admit_front(2), InsertExistingResult::NoMatch);

    assert_eq!(order(&mut list), vec![3]);
    assert_eq!(list.len(), 1);
}

#[test]
fn remove_by_key_takes_a_worker_that_is_not_in_the_order() {
    let mut list: AvailabilityList<u64> = AvailabilityList::new();
    list.insert_front(1, Arc::new(10));
    list.insert_front(2, Arc::new(20));
    assert!(list.cursor_front().remove_list());
    assert_eq!(order(&mut list), vec![1]);
    assert_eq!(*list.remove(2).unwrap(), 20);
    assert_eq!(list.len(), 1);
    assert_eq!(order(&mut list), vec![1]);
}

#[test]
fn partial_removal_round_trip() {
    let mut list: AvailabilityList<u64> = AvailabilityList::new();
    list.insert_front(7, Arc::new(70));
    list.insert_front(8, Arc::new(80));
    let before = Arc::as_ptr(list.get(7).unwrap());
    match list.cursor_at(7) {
        CursorAtKeyResult::InList(mut cursor) => assert!(cursor.remove_list()),
        _ => panic!("worker 7 stands in the order"),
    }
    assert!(list.contains(7));
    assert_eq!(list.available(), 1);
    assert!(matches!(list.cursor_at(7), CursorAtKeyResult::NotInList));
    assert_eq!(list.admit_front(7), InsertExistingResult::Inserted);
    assert_eq!(list.len(), 2);
    assert_eq!(order(&mut list), vec![7, 8]);
    assert_eq!(Arc::as_ptr(list.get(7).unwrap()), before);
    assert_eq!(*list.pop_front_full().unwrap(), 70);
}

#[test]
fn readmission_of_a_listed_worker_changes_nothing() {
    let mut list: AvailabilityList<u64> = AvailabilityList::new();
    list.insert_front(1, Arc::new(10));
    list.insert_front(2, Arc::new(20));
    assert_eq!(list.admit_front(1), InsertExistingResult::AlreadyInList);
    assert_eq!(list.admit_back(2), InsertExistingResult::AlreadyInList);
    assert_eq!(order(&mut list), vec![2, 1]);
    assert_eq!(list.len(), 2);
}

#[test]
fn readmission_of_an_unknown_worker_finds_no_match() {
    let mut list: AvailabilityList<u64> = AvailabilityList::new();
    list.insert_front(1, Arc::new(10));
    assert_eq!(list.admit_front(9), InsertExistingResult::NoMatch);
    assert_eq!(list.admit_back(9), InsertExistingResult::NoMatch);
    assert_eq!(order(&mut list), vec![1]);
    assert_eq!(list.len(), 1);
}

#[test]
fn cursor_walks_both_ways_and_wraps_through_the_null_position() {
    let mut list: AvailabilityList<u64> = AvailabilityList::new();
    for key in 1..=3usize {
        list.insert_back(key, Arc::new(key as u64));
    }
    let mut cursor = list.cursor_front();
    assert_eq!(cursor.key(), Some(1));
    cursor.move_prev();
    assert!(cursor.is_null());
    assert!(cursor.get().is_none());
    assert_eq!(cursor.key(), None);
    cursor.move_prev();
    assert_eq!(cursor.key(), Some(3));
    cursor.move_prev();
    assert_eq!(cursor.key(), Some(2));
    cursor.move_next();
    cursor.move_next();
    assert!(cursor.is_null());
    cursor.move_next();
    assert_eq!(cursor.key(), Some(1));

    let mut cursor = list.cursor_back();
    assert_eq!(cursor.key(), Some(3));
    assert_eq!(**cursor.get().unwrap(), 3);
}

#[test]
fn cursor_removal_moves_to_the_next_element() {
    let mut list: AvailabilityList<u64> = AvailabilityList::new();
    for key in 1..=4usize {
        list.insert_back(key, Arc::new(10 * key as u64));
    }
    let mut cursor = list.cursor_front();
    cursor.move_next();
    assert_eq!(*cursor.remove_full().unwrap(), 20);
    assert_eq!(cursor.key(), Some(3));
    assert!(cursor.remove_list());
    assert_eq!(cursor.key(), Some(4));
    assert_eq!(*cursor.remove_full().unwrap(), 40);
    assert!(cursor.is_null());
    assert!(cursor.remove_full().is_none());
    assert!(!cursor.remove_list());
    assert_eq!(order(&mut list), vec![1]);
    assert!(!list.contains(2));
    assert!(list.contains(3));
    assert!(!list.contains(4));
    assert_eq!(list.len(), 2);
}

#[test]
fn cursor_at_key_points_at_the_worker() {
    let mut list: AvailabilityList<u64> = AvailabilityList::new();
    for key in 1..=3usize {
        list.insert_back(key, Arc::new(10 * key as u64));
    }
    match list.cursor_at(2) {
        CursorAtKeyResult::InList(mut cursor) => {
            assert_eq!(cursor.position, 1);
            assert_eq!(cursor.key(), Some(2));
            assert_eq!(**cursor.get().unwrap(), 20);
            cursor.move_next();
            assert_eq!(cursor.key(), Some(3));
        }
        _ => panic!("worker 2 stands in the order"),
    }
    assert!(matches!(list.cursor_at(5), CursorAtKeyResult::NoMatch));
}

#[test]
fn a_handle_names_its_worker_by_its_address() {
    let first = Arc::new(7u64);
    let second = Arc::new(7u64);
    let again = Arc::clone(&first);
    assert_eq!(ArcIntoPtr::into_ptr(&first), Arc::as_ptr(&first) as usize);
    assert_eq!(ArcIntoPtr::into_ptr(&first), ArcIntoPtr::into_ptr(&again));
    assert_ne!(ArcIntoPtr::into_ptr(&first), ArcIntoPtr::into_ptr(&second));
}

#[test]
fn workers_are_found_by_their_handles() {
    let mut list: AvailabilityList<u64> = AvailabilityList::new();
    let first = Arc::new(1u64);
    let second = Arc::new(2u64);
    let stranger = Arc::new(1u64);
    list.push_front_new(Arc::clone(&first));
    list.push_back_new(Arc::clone(&second));
    assert_eq!(list.len(), 2);
    assert_eq!(list.cursor_front().get().map(Arc::as_ptr), Some(Arc::as_ptr(&first)));

    assert_eq!(list.push_front_existing(&second), InsertExistingResult::AlreadyInList);
    assert_eq!(list.push_back_existing(&stranger), InsertExistingResult::NoMatch);
    assert!(matches!(list.cursor_at_key(&stranger), CursorAtKeyResult::NoMatch));
    match list.cursor_at_key(&second) {
        CursorAtKeyResult::InList(mut cursor) => {
            assert_eq!(cursor.position, 1);
            assert!(cursor.remove_list());
        }
        _ => panic!("the second worker stands in the order"),
    }
    assert!(matches!(list.cursor_at_key(&second), CursorAtKeyResult::NotInList));
    assert_eq!(list.push_front_existing(&second), InsertExistingResult::Inserted);
    assert_eq!(list.cursor_front().get().map(Arc::as_ptr), Some(Arc::as_ptr(&second)));

    assert!(list.remove_by_key(&stranger).is_none());
    let removed = list.remove_by_key(&first).unwrap();
    assert!(Arc::ptr_eq(&removed, &first));
    assert!(list.remove_by_key(&first).is_none());
    assert_eq!(list.len(), 1);
}

#[test]
fn a_handle_that_is_tracked_already_is_not_tracked_twice() {
    let mut list: AvailabilityList<u64> = AvailabilityList::new();
    let worker = Arc::new(1u64);
    list.push_front_new(Arc::clone(&worker));
    list.push_front_new(Arc::clone(&worker));
    list.push_back_new(Arc::clone(&worker));
    assert_eq!(list.len(), 1);
    assert_eq!(list.available(), 1);
    assert!(list.pop_front_full().is_some());
    assert!(list.is_empty());
}

struct Stub {
    name: usize,
}

impl ArcIntoPtr<u64> for Stub {
    fn into_ptr(this: &Self) -> usize {
        this.name
    }
}

#[test]
fn a_caller_may_name_workers_in_its_own_way() {
    let mut list: AvailabilityList<u64> = AvailabilityList::new();
    list.insert_front(5, Arc::new(50));
    assert_eq!(
        list.push_front_existing(&Stub { name: 5 }),
        InsertExistingResult::AlreadyInList
    );
    assert_eq!(list.push_front_existing(&Stub { name: 6 }), InsertExistingResult::NoMatch);
    assert_eq!(*list.remove_by_key(&Stub { name: 5 }).unwrap(), 50);
}


#[test]
fn unlisting_every_worker_empties_the_order_and_keeps_the_index() {
    let mut list: AvailabilityList<u64> = AvailabilityList::new();
    for key in 1..=3usize {
        list.insert_back(key, Arc::new(key as u64));
    }
    list.unlist_all();
    assert_eq!(list.available(), 0);
    assert_eq!(list.len(), 3);
    assert!(!list.is_empty());
    assert!(list.pop_front_full().is_none());
    assert!(matches!(list.cursor_at(2), CursorAtKeyResult::NotInList));
    assert_eq!(list.admit_back(2), InsertExistingResult::Inserted);
    assert_eq!(list.admit_front(3), InsertExistingResult::Inserted);
    assert_eq!(order(&mut list), vec![3, 2]);
    list.unlist_all();
    list.unlist_all();
    assert_eq!(list.available(), 0);
    assert_eq!(*list.remove(1).unwrap(), 1);
}
