use pge::Arena;
use pge::ArenaId;
use pge::ArenaIntoIterator;
use std::collections::HashMap;

#[derive(Debug, PartialEq)]
struct Person {
    name: String,
}

#[derive(Debug, PartialEq)]
struct Car {
    model: String,
}

#[test]
fn test_insert_and_get_person() {
    let mut arena = Arena::new();
    let person_id = arena.insert(Person { name: "Alice".to_string() });

    let person = arena.get(&person_id).unwrap();
    assert_eq!(person, &Person { name: "Alice".to_string() });
}

#[test]
fn test_insert_and_get_car() {
    let mut arena = Arena::new();
    let car_id = arena.insert(Car { model: "Tesla Model 3".to_string() });

    let car = arena.get(&car_id).unwrap();
    assert_eq!(car, &Car { model: "Tesla Model 3".to_string() });
}

#[test]
fn test_remove_person() {
    let mut arena = Arena::new();
    let person_id = arena.insert(Person { name: "Alice".to_string() });

    let removed_person = arena.remove(&person_id).unwrap();
    assert_eq!(removed_person, Person { name: "Alice".to_string() });
    assert!(arena.get(&person_id).is_none());
}

#[test]
fn test_remove_car() {
    let mut arena = Arena::new();
    let car_id = arena.insert(Car { model: "Tesla Model 3".to_string() });

    let removed_car = arena.remove(&car_id).unwrap();
    assert_eq!(removed_car, Car { model: "Tesla Model 3".to_string() });
    assert!(arena.get(&car_id).is_none());
}

#[test]
fn test_reuse_slots_person() {
    let mut arena = Arena::new();
    let person_id1 = arena.insert(Person { name: "Alice".to_string() });
    arena.remove(&person_id1);

    let person_id2 = arena.insert(Person { name: "Bob".to_string() });
    let person = arena.get(&person_id2).unwrap();

    assert_eq!(person, &Person { name: "Bob".to_string() });
    assert_eq!(person_id1.index, person_id2.index); // Ensure the slot was reused
}

#[test]
fn test_reuse_slots_car() {
    let mut arena = Arena::new();
    let car_id1 = arena.insert(Car { model: "Tesla Model 3".to_string() });
    arena.remove(&car_id1);

    let car_id2 = arena.insert(Car { model: "Ford Mustang".to_string() });
    let car = arena.get(&car_id2).unwrap();

    assert_eq!(car, &Car { model: "Ford Mustang".to_string() });
    assert_eq!(car_id1.index, car_id2.index); // Ensure the slot was reused
}

#[test]
fn test_get_mut_person() {
    let mut arena = Arena::new();
    let person_id = arena.insert(Person { name: "Alice".to_string() });

    if let Some(person) = arena.get_mut(&person_id) {
        person.name = "Bob".to_string();
    }

    let person = arena.get(&person_id).unwrap();
    assert_eq!(person, &Person { name: "Bob".to_string() });
}

#[test]
fn test_get_mut_car() {
    let mut arena = Arena::new();
    let car_id = arena.insert(Car { model: "Tesla Model 3".to_string() });

    if let Some(car) = arena.get_mut(&car_id) {
        car.model = "Ford Mustang".to_string();
    }

    let car = arena.get(&car_id).unwrap();
    assert_eq!(car, &Car { model: "Ford Mustang".to_string() });
}

#[test]
fn test_iter_person() {
    let mut arena = Arena::new();
    arena.insert(Person { name: "Alice".to_string() });
    arena.insert(Person { name: "Bob".to_string() });

    let mut iter = arena.iter();
    assert_eq!(iter.next(), Some((ArenaId::new(0), &Person { name: "Alice".to_string() })));
    assert_eq!(iter.next(), Some((ArenaId::new(1), &Person { name: "Bob".to_string() })));
    assert_eq!(iter.next(), None);
}

#[test]
fn test_iter_car() {
    let mut arena = Arena::new();
    arena.insert(Car { model: "Tesla Model 3".to_string() });
    arena.insert(Car { model: "Ford Mustang".to_string() });

    let mut iter = arena.iter();
    assert_eq!(iter.next(), Some((ArenaId::new(0), &Car { model: "Tesla Model 3".to_string() })));
    assert_eq!(iter.next(), Some((ArenaId::new(1), &Car { model: "Ford Mustang".to_string() })));
    assert_eq!(iter.next(), None);
}

#[test]
fn test_into_iter_person() {
    let mut arena = Arena::new();
    arena.insert(Person { name: "Alice".to_string() });
    arena.insert(Person { name: "Bob".to_string() });

    let iter: ArenaIntoIterator<_> = arena.into_iter();
    let results: Vec<_> = iter.collect();
    assert_eq!(results, vec![
        (ArenaId::new(0), Person { name: "Alice".to_string() }),
        (ArenaId::new(1), Person { name: "Bob".to_string() }),
    ]);
}

#[test]
fn test_iter_mut_person() {
    let mut arena = Arena::new();
    arena.insert(Person { name: "Alice".to_string() });
    arena.insert(Person { name: "Bob".to_string() });

    let mut iter = arena.iter_mut();
    if let Some((_, person)) = iter.next() {
        person.name = "Charlie".to_string();
    }

    let results: Vec<_> = arena.iter().collect();
    assert_eq!(results, vec![
        (ArenaId::new(0), &Person { name: "Charlie".to_string() }),
        (ArenaId::new(1), &Person { name: "Bob".to_string() }),
    ]);
}

#[test]
fn test_arena_id_as_hashmap_key() {
    let mut map = HashMap::new();
    let id1 = ArenaId::<i32>::new(1);
    let id2 = ArenaId::<i32>::new(1);
    let id3 = ArenaId::<i32>::new(2);

    map.insert(id1, "value1");
    assert_eq!(map.get(&id2), Some(&"value1"));
    assert_eq!(map.get(&id3), None);

    assert_eq!(map.entry(id2).or_insert("value2"), &"value1");
    assert_eq!(map.len(), 1);

    assert_eq!(map.entry(id3).or_insert("value3"), &"value3");
    assert_eq!(map.len(), 2);
}

    #[derive(Debug, PartialEq)]
struct TestStruct {
    name: String,
    value: i32,
}

#[test]
fn test_arena_with_struct() {
    let mut arena = Arena::new();
    let mut id_map = HashMap::new();

    // Insert items into the arena and store their IDs in the HashMap
    let id1 = arena.insert(TestStruct { name: "Item 1".to_string(), value: 10 });
    let id2 = arena.insert(TestStruct { name: "Item 2".to_string(), value: 20 });
    let id3 = arena.insert(TestStruct { name: "Item 3".to_string(), value: 30 });

    id_map.insert(id1, "First");
    id_map.insert(id2, "Second");
    id_map.insert(id3, "Third");

    // Test retrieving items from the arena
    assert_eq!(arena.get(&id1), Some(&TestStruct { name: "Item 1".to_string(), value: 10 }));
    assert_eq!(arena.get(&id2), Some(&TestStruct { name: "Item 2".to_string(), value: 20 }));
    assert_eq!(arena.get(&id3), Some(&TestStruct { name: "Item 3".to_string(), value: 30 }));

    // Test using ArenaId as HashMap key
    assert_eq!(id_map.get(&id1), Some(&"First"));
    assert_eq!(id_map.get(&id2), Some(&"Second"));
    assert_eq!(id_map.get(&id3), Some(&"Third"));

    // Test modifying an item in the arena
    if let Some(item) = arena.get_mut(&id2) {
        item.value = 25;
    }
    assert_eq!(arena.get(&id2), Some(&TestStruct { name: "Item 2".to_string(), value: 25 }));

    // Test that ArenaId with the same index works correctly as a key
    let same_as_id2 = ArenaId::<TestStruct>::new(id2.index());
    assert_eq!(id_map.get(&same_as_id2), Some(&"Second"));

    // Test entry API of HashMap with ArenaId
    assert_eq!(id_map.entry(id2.clone()).or_insert("New"), &"Second");
    assert_eq!(id_map.entry(ArenaId::<TestStruct>::new(100)).or_insert("New"), &"New");

    assert_eq!(id_map.len(), 4);
}
