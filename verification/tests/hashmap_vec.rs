use hashmap_vec::HashMapVec;
use hashmap_vec::PadDefault;
use hashmap_vec::SeriesKey;

#[test]
fn insert() {
    let mut hmv = HashMapVec::new();
    hmv.insert('a', 1);
    assert_eq!(Some(&vec![1]), hmv.get(&'a'));
    hmv.insert('a', 10);
    assert_eq!(Some(&vec![1, 10]), hmv.get(&'a'));
    hmv.insert('b', 8);
    assert_eq!(Some(&vec![1, 10, 0]), hmv.get(&'a'));
    assert_eq!(Some(&vec![0, 0, 8]), hmv.get(&'b'));
}

#[test]
fn add() {
    let mut hmv = HashMapVec::new();
    hmv.insert('a', 1);
    assert_eq!(Some(&vec![1]), hmv.get(&'a'));

    let mut hm = Vec::new();
    hm.push(('a', 1));
    hm.push(('b', 2));
    hmv.add(hm);
    assert_eq!(Some(&vec![1, 1]), hmv.get(&'a'));
    assert_eq!(Some(&vec![0, 2]), hmv.get(&'b'));

    let mut hm = Vec::new();
    hm.push(('b', 22));
    hm.push(('c', 33));
    hmv.add(hm);
    assert_eq!(Some(&vec![1, 1, 0]), hmv.get(&'a'));
    assert_eq!(Some(&vec![0, 2, 22]), hmv.get(&'b'));
    assert_eq!(Some(&vec![0, 0, 33]), hmv.get(&'c'));
}

#[test]
fn lengths_stay_in_sync() {
    let mut hmv = HashMapVec::new();
    hmv.insert('a', 1u64);
    hmv.insert('b', 2);
    let mut step = Vec::new();
    step.push(('c', 3));
    step.push(('a', 4));
    hmv.add(step);
    hmv.insert('d', 5);
    assert_eq!(4, hmv.nb_elements());
    for series in hmv.values() {
        assert_eq!(4, series.len());
    }
    assert_eq!(4, hmv.len());
}

#[test]
fn new_key_catches_up() {
    let mut hmv = HashMapVec::new();
    hmv.insert(1u32, 7i64);
    hmv.insert(1u32, 8);
    hmv.insert(1u32, 9);
    let before = hmv.nb_elements();
    hmv.insert(2u32, 5);
    let series = hmv.get(&2u32).unwrap();
    assert_eq!(before + 1, series.len());
    for i in 0..before {
        assert_eq!(0, series[i]);
    }
    assert_eq!(5, series[before]);
}

#[test]
fn emptiness() {
    let mut hmv: HashMapVec<char, i32> = HashMapVec::new();
    assert!(hmv.is_empty());
    assert_eq!(0, hmv.len());
    assert_eq!(0, hmv.nb_elements());
    hmv.insert('x', 3);
    assert!(!hmv.is_empty());
    assert_eq!(1, hmv.len());
    hmv.clear();
    assert!(hmv.is_empty());
    assert_eq!(0, hmv.len());
    assert_eq!(0, hmv.nb_elements());
}

#[test]
fn default_is_empty() {
    let hmv: HashMapVec<char, i32> = HashMapVec::default();
    assert!(hmv.is_empty());
    assert_eq!(0, hmv.nb_elements());
}

#[test]
fn with_capacity_is_empty() {
    let mut hmv: HashMapVec<char, i32> = HashMapVec::with_capacity(16);
    assert!(hmv.is_empty());
    hmv.insert('a', 1);
    assert_eq!(Some(&vec![1]), hmv.get(&'a'));
}

#[test]
fn capacity_hints() {
    let mut hmv: HashMapVec<char, i32> = HashMapVec::new();
    hmv.insert('a', 1);
    hmv.insert('b', 2);
    hmv.reserve(100);
    assert!(hmv.capacity() >= hmv.len());
    assert_eq!(Some(&vec![1, 0]), hmv.get(&'a'));
    hmv.shrink_to_fit();
    assert!(hmv.capacity() >= hmv.len());
    assert_eq!(Some(&vec![0, 2]), hmv.get(&'b'));
    assert_eq!(2, hmv.nb_elements());
}

#[test]
fn get_absent() {
    let mut hmv: HashMapVec<char, i32> = HashMapVec::new();
    assert_eq!(None, hmv.get(&'a'));
    hmv.insert('a', 1);
    assert_eq!(None, hmv.get(&'b'));
}

#[test]
fn get_key_value_pairs() {
    let mut hmv = HashMapVec::new();
    hmv.insert('a', 1);
    hmv.insert('b', 2);
    let (k, v) = hmv.get_key_value(&'b').unwrap();
    assert_eq!(&'b', k);
    assert_eq!(&vec![0, 2], v);
    assert!(hmv.get_key_value(&'c').is_none());
}

#[test]
fn removal_keeps_other_series() {
    let mut hmv = HashMapVec::new();
    hmv.insert('a', 1);
    hmv.insert('b', 2);
    hmv.insert('c', 3);
    let taken = hmv.remove(&'b');
    assert_eq!(Some(vec![0, 2, 0]), taken);
    assert_eq!(2, hmv.len());
    assert_eq!(Some(&vec![1, 0, 0]), hmv.get(&'a'));
    assert_eq!(Some(&vec![0, 0, 3]), hmv.get(&'c'));
    assert_eq!(3, hmv.nb_elements());
    assert_eq!(None, hmv.remove(&'b'));
    assert_eq!(2, hmv.len());
}

#[test]
fn drain_takes_everything_once() {
    let mut hmv = HashMapVec::new();
    hmv.insert('a', 1);
    hmv.insert('b', 2);
    let drained = hmv.drain();
    assert_eq!(2, drained.len());
    assert!(drained.contains(&('a', vec![1, 0])));
    assert!(drained.contains(&('b', vec![0, 2])));
    assert!(hmv.is_empty());
    assert_eq!(0, hmv.nb_elements());
    let drained_again = hmv.drain();
    assert!(drained_again.is_empty());
}

#[test]
fn retain_with_true_is_identity() {
    let mut hmv = HashMapVec::new();
    hmv.insert('a', 1);
    hmv.insert('b', 2);
    hmv.retain(|_k: &char, _v: &Vec<i32>| true);
    assert_eq!(2, hmv.len());
    assert_eq!(2, hmv.nb_elements());
    assert_eq!(Some(&vec![1, 0]), hmv.get(&'a'));
    assert_eq!(Some(&vec![0, 2]), hmv.get(&'b'));
}

#[test]
fn retain_filters_entries() {
    let mut hmv = HashMapVec::new();
    hmv.insert('a', 1);
    hmv.insert('b', 2);
    hmv.insert('c', 3);
    hmv.retain(|k: &char, _v: &Vec<i32>| *k != 'b');
    assert_eq!(2, hmv.len());
    assert_eq!(Some(&vec![1, 0, 0]), hmv.get(&'a'));
    assert_eq!(None, hmv.get(&'b'));
    assert_eq!(Some(&vec![0, 0, 3]), hmv.get(&'c'));
}

#[test]
fn keys_and_iter_cover_all_entries() {
    let mut hmv = HashMapVec::new();
    hmv.insert('a', 1);
    hmv.insert('b', 2);
    let keys = hmv.keys();
    assert_eq!(2, keys.len());
    assert!(keys.contains(&&'a'));
    assert!(keys.contains(&&'b'));
    let pairs = hmv.iter();
    assert_eq!(2, pairs.len());
    assert!(pairs.contains(&(&'a', &vec![1, 0])));
    assert!(pairs.contains(&(&'b', &vec![0, 2])));
    let values = hmv.values();
    assert_eq!(2, values.len());
    assert!(values.contains(&&vec![1, 0]));
    assert!(values.contains(&&vec![0, 2]));
}

#[test]
fn add_on_empty_map() {
    let mut hmv: HashMapVec<char, i32> = HashMapVec::new();
    let mut hm = Vec::new();
    hm.push(('a', 4));
    hmv.add(hm);
    assert_eq!(Some(&vec![4]), hmv.get(&'a'));
    assert_eq!(1, hmv.nb_elements());
}

#[test]
fn add_empty_assignment_pads_everyone() {
    let mut hmv = HashMapVec::new();
    hmv.insert('a', 1);
    hmv.insert('b', 2);
    hmv.add(Vec::new());
    assert_eq!(3, hmv.nb_elements());
    assert_eq!(Some(&vec![1, 0, 0]), hmv.get(&'a'));
    assert_eq!(Some(&vec![0, 2, 0]), hmv.get(&'b'));
}

#[test]
fn add_empty_on_empty_stays_empty() {
    let mut hmv: HashMapVec<char, i32> = HashMapVec::new();
    hmv.add(Vec::new());
    assert!(hmv.is_empty());
    assert_eq!(0, hmv.nb_elements());
}

#[test]
fn key_capabilities() {
    assert!('a'.key_eq(&'a'));
    assert!(!'a'.key_eq(&'b'));
    assert_eq!('z', 'z'.key_dup());
    assert!(7u64.key_eq(&7u64));
    assert!(!(-1i64).key_eq(&1i64));
    assert_eq!(42usize, 42usize.key_dup());
}

#[test]
fn padding_values_are_zeroes() {
    assert_eq!(0u8, u8::default_value());
    assert_eq!(0u64, u64::default_value());
    assert_eq!(0i32, i32::default_value());
    assert_eq!(0i64, i64::default_value());
    assert_eq!(false, bool::default_value());
}
