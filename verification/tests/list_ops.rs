use indexlist::{Entry, Index, IndexList, OccupiedEntry};
use std::marker::PhantomData;

#[test]
fn create_index() {
    let index: Index<i32> = Index::new(1, 2);

    assert_eq!(index.index, 1);
    assert_eq!(index.generation, 2);
}

#[test]
fn create_list() {
    let _list: IndexList<i32> = IndexList::new();
}

#[test]
fn insert() {
    let mut list = IndexList::new();

    list.push_back(5);

    assert_eq!(
        list.contents[0],
        Entry::Occupied(OccupiedEntry {
            item: 5,
            next: None,
            prev: None,
            generation: 0,
        })
    );
}

#[test]
fn contains() {
    let mut list = IndexList::new();

    list.push_back(5);

    assert!(list.contains(&5));
}

#[test]
fn get() {
    let mut list = IndexList::new();

    let five = list.push_back(5);

    let entry = list.get(five);

    assert!(entry.is_some());

    assert_eq!(entry.unwrap(), &5);
}

#[test]
fn get_mut() {
    let mut list = IndexList::new();

    let five = list.push_back(5);

    let entry = list.get_mut(five);

    assert!(entry.is_some());

    assert_eq!(entry.unwrap(), &mut 5);
}

#[test]
fn next_index() {
    let mut list = IndexList::new();

    let five = list.push_back(5);
    let _ten = list.push_back(10);

    let ten_index = list.next_index(five).unwrap();

    let ten_value = list.get(ten_index);

    assert_eq!(ten_value.unwrap(), &10);
    assert_eq!(None, list.next_index(ten_index));
}

#[test]
fn prev_index() {
    let mut list = IndexList::new();

    let _five = list.push_back(5);
    let ten = list.push_back(10);

    let five_index = list.prev_index(ten).unwrap();

    let five_value = list.get(five_index);

    assert_eq!(five_value.unwrap(), &5);
    assert_eq!(None, list.prev_index(five_index));
}

#[test]
fn index() {
    let mut list = IndexList::new();

    let five = list.push_back(5);

    let entry = *list.get(five).unwrap();

    assert_eq!(entry, 5);
}

#[test]
fn index_mut() {
    let mut list = IndexList::new();

    let five = list.push_back(5);

    let mut entry = *list.get_mut(five).unwrap();

    entry += 1;

    let six = list.push_back(entry);

    let new_entry = *list.get(six).unwrap();

    assert_eq!(new_entry, 6);
}

#[test]
fn insert_thrice() {
    let mut list = IndexList::new();

    list.push_back(5);
    list.push_back(10);
    list.push_back(15);

    assert_eq!(
        list.contents[0],
        Entry::Occupied(OccupiedEntry {
            item: 5,
            next: Some(1),
            prev: None,
            generation: 0,
        })
    );

    assert_eq!(
        list.contents[1],
        Entry::Occupied(OccupiedEntry {
            item: 10,
            next: Some(2),
            prev: Some(0),
            generation: 0,
        })
    );

    assert_eq!(
        list.contents[2],
        Entry::Occupied(OccupiedEntry {
            item: 15,
            next: None,
            prev: Some(1),
            generation: 0,
        })
    );
}

#[test]
fn remove_middle() {
    let mut list = IndexList::new();

    list.push_back(5);
    let ten = list.push_back(10);
    list.push_back(15);

    let removed = list.remove(ten).unwrap();

    assert_eq!(removed, 10);

    assert_eq!(
        list.contents,
        vec![
            Entry::Occupied(OccupiedEntry {
                item: 5,
                next: Some(2),
                prev: None,
                generation: 0,
            }),
            Entry::Free { next_free: None },
            Entry::Occupied(OccupiedEntry {
                item: 15,
                next: None,
                prev: Some(0),
                generation: 0,
            }),
        ]
    );
    assert_eq!(list.generation, 1);
    assert_eq!(list.next_free, Some(1));
    assert_eq!(list.head, Some(0));
    assert_eq!(list.tail, Some(2));
}

#[test]
fn remove_head() {
    let mut list = IndexList::new();

    let five = list.push_back(5);
    list.push_back(10);
    list.push_back(15);

    let removed = list.remove(five).unwrap();

    assert_eq!(removed, 5);

    assert_eq!(
        list.contents,
        vec![
            Entry::Free { next_free: None },
            Entry::Occupied(OccupiedEntry {
                item: 10,
                next: Some(2),
                prev: None,
                generation: 0,
            }),
            Entry::Occupied(OccupiedEntry {
                item: 15,
                next: None,
                prev: Some(1),
                generation: 0,
            }),
        ]
    );
    assert_eq!(list.generation, 1);
    assert_eq!(list.next_free, Some(0));
    assert_eq!(list.head, Some(1));
    assert_eq!(list.tail, Some(2));
}

#[test]
fn remove_tail() {
    let mut list = IndexList::new();

    list.push_back(5);
    list.push_back(10);
    let fifteen = list.push_back(15);

    let removed = list.remove(fifteen).unwrap();

    assert_eq!(removed, 15);

    assert_eq!(
        list.contents,
        vec![
            Entry::Occupied(OccupiedEntry {
                item: 5,
                next: Some(1),
                prev: None,
                generation: 0,
            }),
            Entry::Occupied(OccupiedEntry {
                item: 10,
                next: None,
                prev: Some(0),
                generation: 0,
            }),
            Entry::Free { next_free: None },
        ]
    );
    assert_eq!(list.generation, 1);
    assert_eq!(list.next_free, Some(2));
    assert_eq!(list.head, Some(0));
    assert_eq!(list.tail, Some(1));
}

#[test]
fn remove_only() {
    let mut list = IndexList::new();

    let five = list.push_back(5);

    let removed = list.remove(five).unwrap();

    assert_eq!(removed, 5);

    assert_eq!(list.contents, vec![Entry::Free { next_free: None }]);
    assert_eq!(list.generation, 1);
    assert_eq!(list.next_free, Some(0));
    assert_eq!(list.head, None);
    assert_eq!(list.tail, None);
}

#[test]
fn remove_returns_none_when_not_there() {
    let mut list = IndexList::new();

    let five_index = list.push_back(5);

    let five_entry = list.remove(five_index).unwrap();

    assert_eq!(list.contents[0], Entry::Free { next_free: None });

    assert_eq!(five_entry, 5);

    assert!(list.remove(five_index).is_none());
}

#[test]
fn into_iter() {
    let mut list = IndexList::new();

    list.push_back(5);
    let ten = list.push_back(10);
    list.push_back(15);

    list.remove(ten);

    let mut iter = list.into_iter();

    assert_eq!(iter.next().unwrap(), 5);
    assert_eq!(iter.next().unwrap(), 15);

    assert!(iter.next().is_none());
}

#[test]
fn iter() {
    let mut list = IndexList::new();

    list.push_back(5);
    let ten = list.push_back(10);
    list.push_back(15);

    list.remove(ten);

    let items = list.iter();

    assert_eq!(items[0], &5);
    assert_eq!(items[1], &15);

    assert!(items.len() == 2);
}

#[test]
fn reallocation() {
    let mut list = IndexList::new();

    list.push_back(5);
    let ten = list.push_back(10);
    list.push_back(15);

    let ten = list.remove(ten).unwrap();

    assert_eq!(ten, 10);

    list.push_back(20);

    assert_eq!(
        list.contents[0],
        Entry::Occupied(OccupiedEntry {
            item: 5,
            next: Some(2),
            prev: None,
            generation: 0,
        })
    );

    assert_eq!(
        list.contents[1],
        Entry::Occupied(OccupiedEntry {
            item: 20,
            next: None,
            prev: Some(2),
            generation: 1,
        })
    );

    assert_eq!(
        list.contents[2],
        Entry::Occupied(OccupiedEntry {
            item: 15,
            next: Some(1),
            prev: Some(0),
            generation: 0,
        })
    );
}

#[test]
fn generations() {
    let mut list = IndexList::new();

    let five = list.push_back(5);
    let ten = list.push_back(10);
    list.push_back(15);

    list.remove(ten);

    let twenty = list.push_back(20);

    // the reused slot carries a newer generation, so the old handle is dead
    assert!(list.get(ten).is_none());

    // but five is still fine
    assert!(list.get(five).is_some());

    // and so is twenty
    assert!(list.get(twenty).is_some());
}

#[test]
fn head() {
    let mut list = IndexList::new();

    assert!(list.head().is_none());

    let five = list.push_back(5);

    assert_eq!(list.head().unwrap(), &5);

    list.push_back(10);

    list.remove(five);

    assert_eq!(list.head().unwrap(), &10);

    assert_eq!(list.contents[0], Entry::Free { next_free: None });

    assert_eq!(list.head, Some(1));

    assert_eq!(
        list.contents[1],
        Entry::Occupied(OccupiedEntry {
            item: 10,
            next: None,
            prev: None,
            generation: 0,
        })
    );
}

#[test]
fn head_mut() {
    let mut list = IndexList::new();

    assert!(list.head_mut().is_none());

    let five = list.push_back(5);

    assert_eq!(list.head_mut().unwrap(), &mut 5);

    list.push_back(10);

    list.remove(five);

    assert_eq!(list.head_mut().unwrap(), &mut 10);

    assert_eq!(list.contents[0], Entry::Free { next_free: None });

    assert_eq!(list.head, Some(1));

    assert_eq!(
        list.contents[1],
        Entry::Occupied(OccupiedEntry {
            item: 10,
            next: None,
            prev: None,
            generation: 0,
        })
    );
}

#[test]
fn head_index() {
    let mut list = IndexList::new();

    assert!(list.head_index().is_none());

    let five = list.push_back(5);

    assert_eq!(list.head_index().unwrap(), five);
}

#[test]
fn tail_index() {
    let mut list = IndexList::new();

    assert!(list.tail_index().is_none());

    let _five = list.push_back(5);
    let ten = list.push_back(10);

    assert_eq!(list.tail_index().unwrap(), ten);
}

#[test]
fn push_front() {
    let mut list = IndexList::new();

    list.push_front(5);
    list.push_front(10);
    list.push_front(15);

    assert_eq!(
        list.contents[0],
        Entry::Occupied(OccupiedEntry {
            item: 5,
            next: None,
            prev: Some(1),
            generation: 0,
        })
    );

    assert_eq!(
        list.contents[1],
        Entry::Occupied(OccupiedEntry {
            item: 10,
            next: Some(0),
            prev: Some(2),
            generation: 0,
        })
    );

    assert_eq!(
        list.contents[2],
        Entry::Occupied(OccupiedEntry {
            item: 15,
            next: Some(1),
            prev: None,
            generation: 0,
        })
    );
}

#[test]
fn index_of() {
    let mut list = IndexList::new();

    list.push_back(5);
    list.push_back(10);
    list.push_back(15);

    assert_eq!(list.index_of(&10).unwrap(), Index::new(1, 0));

    assert!(list.index_of(&20).is_none());
}

#[test]
fn index_of_get_correct_generation() {
    let mut list = IndexList::new();

    list.push_back(5);
    let ten = list.push_back(10);
    list.remove(ten);
    list.push_back(15);

    assert_eq!(
        list.index_of(&5).unwrap(),
        Index {
            index: 0,
            generation: 0,
            _marker: PhantomData
        }
    );
}

#[test]
fn index_of_get_first_occurrence() {
    let mut list = IndexList::new();

    list.push_back(3);
    let six = list.push_back(6);
    let first_nine = list.push_back(9);
    list.push_back(12);

    list.remove(six);

    let _second_nine = list.push_back(9);

    assert_eq!(list.index_of(&9).unwrap(), first_nine);
}

#[test]
fn pop_front() {
    let mut list = IndexList::new();

    list.push_back(5);
    list.push_back(10);
    list.push_back(15);

    assert_eq!(list.pop_front().unwrap(), 5);
    assert_eq!(list.pop_front().unwrap(), 10);
    assert_eq!(list.pop_front().unwrap(), 15);

    assert_eq!(
        list.contents,
        vec![
            Entry::Free { next_free: None },
            Entry::Free { next_free: Some(0) },
            Entry::Free { next_free: Some(1) },
        ]
    );
    assert_eq!(list.generation, 3);
    assert_eq!(list.next_free, Some(2));
    assert_eq!(list.head, None);
    assert_eq!(list.tail, None);
}

#[test]
fn push_and_pop() {
    let mut list = IndexList::new();

    list.push_back(5);
    list.push_back(10);
    list.push_back(15);

    assert_eq!(list.pop_front().unwrap(), 5);
    assert_eq!(list.pop_front().unwrap(), 10);
    assert_eq!(list.pop_front().unwrap(), 15);

    list.push_back(5);
    list.push_back(10);
    list.push_back(15);

    assert_eq!(list.pop_front().unwrap(), 5);
    assert_eq!(list.pop_front().unwrap(), 10);
    assert_eq!(list.pop_front().unwrap(), 15);

    assert_eq!(
        list.contents,
        vec![
            Entry::Free { next_free: Some(1) },
            Entry::Free { next_free: Some(2) },
            Entry::Free { next_free: None },
        ]
    );
    assert_eq!(list.generation, 6);
    assert_eq!(list.next_free, Some(0));
    assert_eq!(list.head, None);
    assert_eq!(list.tail, None);
}

#[test]
fn push_front_next_free() {
    let mut list = IndexList::new();

    list.push_front(0);
    list.push_front(73);
    list.pop_front();

    list.push_front(1);
    list.push_front(2);

    assert_eq!(
        list.contents,
        vec![
            Entry::Occupied(OccupiedEntry {
                item: 0,
                next: None,
                prev: Some(1),
                generation: 0
            }),
            Entry::Occupied(OccupiedEntry {
                item: 1,
                next: Some(0),
                prev: Some(2),
                generation: 1
            }),
            Entry::Occupied(OccupiedEntry {
                item: 2,
                next: Some(1),
                prev: None,
                generation: 1
            }),
        ]
    );
    assert_eq!(list.generation, 1);
    assert_eq!(list.next_free, None);
    assert_eq!(list.head, Some(2));
    assert_eq!(list.tail, Some(0));
}

#[test]
fn insert_before() {
    let mut list = IndexList::new();

    let index = list.push_front(2);
    list.insert_before(index, 0);

    let items: Vec<usize> = list.iter().into_iter().copied().collect();
    assert_eq!(items, vec![0, 2]);
    assert_eq!(*list.get(list.prev_index(index).unwrap()).unwrap(), 0);

    list.insert_before(index, 1);

    let items: Vec<usize> = list.iter().into_iter().copied().collect();
    assert_eq!(items, vec![0, 1, 2]);
    assert_eq!(*list.get(list.prev_index(index).unwrap()).unwrap(), 1);
}

#[test]
fn insert_after() {
    let mut list = IndexList::new();

    let index = list.push_front(0);
    list.insert_after(index, 2);

    let items: Vec<usize> = list.iter().into_iter().copied().collect();
    assert_eq!(items, vec![0, 2]);
    assert_eq!(*list.get(list.next_index(index).unwrap()).unwrap(), 2);

    list.insert_after(index, 1);

    let items: Vec<usize> = list.iter().into_iter().copied().collect();
    assert_eq!(items, vec![0, 1, 2]);
    assert_eq!(*list.get(list.next_index(index).unwrap()).unwrap(), 1);
}
