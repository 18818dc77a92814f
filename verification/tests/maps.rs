use zhang::latest_map::LatestMap;
use zhang::multi_value_map::MultiValueMap;

#[test]
fn latest_map_should_insert() {
    let mut map: LatestMap<i32, i32> = LatestMap::default();
    map.insert(1, 2);
    assert!(map.contains_key(&1));
    assert_eq!(map.get(&1), Some(&2));
}

#[test]
fn should_contains_key() {
    let mut map: LatestMap<i32, i32> = LatestMap::default();
    map.insert(1, 2);
    assert!(map.contains_key(&1));
    assert!(!map.contains_key(&2));
}

#[test]
fn should_get_mut() {
    let mut map: LatestMap<i32, i32> = LatestMap::default();
    map.insert(1, 2);
    let value = map.get_mut(&1).unwrap();
    *value = 3;

    assert_eq!(map.get(&1), Some(&3));
}

#[test]
fn should_get_latest() {
    let mut map: LatestMap<i32, i32> = LatestMap::default();
    map.insert(1, 2);
    map.insert(10, 20);
    map.insert(20, 40);
    map.insert(50, 100);

    assert_eq!(map.get_latest(&0), None);
    assert_eq!(map.get_latest(&1), Some(&2));
    assert_eq!(map.get_latest(&3), Some(&2));
    assert_eq!(map.get_latest(&20), Some(&40));
    assert_eq!(map.get_latest(&24), Some(&40));
    assert_eq!(map.get_latest(&1000), Some(&100));
}

#[test]
fn should_work_given_map_is_empty() {
    let map: LatestMap<i32, i32> = LatestMap::default();
    assert_eq!(map.get_latest(&0), None);
    assert_eq!(map.get_latest(&1), None);
    assert_eq!(map.get_latest(&3), None);
}

#[test]
fn latest_map_should_get_last_entry() {
    let mut map: LatestMap<i32, i32> = LatestMap::default();
    assert_eq!(map.get_last(), None);
    map.insert(10, 1);
    map.insert(5, 2);
    assert_eq!(map.get_last(), Some(&1));
    assert_eq!(map.get_last_with_key(), Some((&10, &1)));
}

#[test]
fn latest_map_should_replace_value_of_same_key() {
    let mut map: LatestMap<i32, i32> = LatestMap::default();
    map.insert(3, 1);
    map.insert(3, 7);
    assert_eq!(map.get_latest(&4), Some(&7));
    assert_eq!(map.get(&3), Some(&7));
}

#[test]
fn multi_value_map_should_insert() {
    let mut map: MultiValueMap<i32, i32> = MultiValueMap::default();
    map.insert(1, 2);
    assert_eq!(map.get_all(&1), vec![&2i32]);
}

#[test]
fn should_insert_multiple_value() {
    let mut map: MultiValueMap<i32, i32> = MultiValueMap::default();
    map.insert(1, 2);
    map.insert(1, 3);
    assert_eq!(map.get_all(&1i32), vec![&2i32, &3i32]);
}

#[test]
fn should_get_none_given_empty() {
    let map: MultiValueMap<i32, i32> = MultiValueMap::default();
    assert_eq!(map.get_one(&1i32), None);
    let vec1: Vec<&i32> = vec![];
    assert_eq!(map.get_all(&1i32), vec1);
}

#[test]
fn should_get_correct_value() {
    let mut map: MultiValueMap<i32, i32> = MultiValueMap::default();
    map.insert(1, 2);
    map.insert(1, 3);
    assert_eq!(map.get_one(&1i32), Some(&2));
    assert_eq!(map.get_all(&1i32), vec![&2, &3]);
}

#[test]
fn multi_value_map_should_flatten_in_insertion_order() {
    let mut map: MultiValueMap<i32, i32> = MultiValueMap::default();
    map.insert(2, 20);
    map.insert(1, 10);
    map.insert(2, 21);
    assert_eq!(map.pairs(), vec![(&2, &20), (&2, &21), (&1, &10)]);
    assert_eq!(map.get_flatten(), vec![(2, 20), (2, 21), (1, 10)]);
}

#[test]
fn multi_value_map_flatten_gives_each_key_its_values() {
    let mut map: MultiValueMap<i32, i32> = MultiValueMap::default();
    map.insert(3, 30);
    map.insert(4, 40);
    map.insert(3, 31);
    map.insert(4, 41);
    map.insert(3, 32);
    let all_three: Vec<i32> = map.get_all(&3).into_iter().copied().collect();
    let all_four: Vec<i32> = map.get_all(&4).into_iter().copied().collect();
    let flat = map.get_flatten();
    let of_three: Vec<i32> = flat.iter().filter(|p| p.0 == 3).map(|p| p.1).collect();
    let of_four: Vec<i32> = flat.iter().filter(|p| p.0 == 4).map(|p| p.1).collect();
    assert_eq!(of_three, all_three);
    assert_eq!(of_four, all_four);
    assert_eq!(of_three, vec![30, 31, 32]);
    assert!(flat.iter().all(|p| p.0 == 3 || p.0 == 4));
}
