use order_book::positive::NotPositive;
use order_book::positive::Positive;
use order_book::util::BTreeMapExt;
use order_book::util::NonEmpty;
use std::collections::BTreeMap;
use std::iter::FromIterator;

#[test]
fn test() {
    let mut map = BTreeMap::from_iter([(3, ()), (4, ()), (1, ()), (2, ())]);
    assert!(matches!(map.min_key_value_mut(), Some((1, _))));
    assert!(matches!(map.max_key_value_mut(), Some((4, _))));
    assert!(matches!(
        BTreeMap::<(), ()>::new().max_key_value_mut(),
        None
    ));
}

#[test]
fn least_and_greatest_key() {
    let map = BTreeMap::from_iter([(30u64, 'c'), (10u64, 'a'), (20u64, 'b')]);
    assert_eq!(BTreeMapExt::min(&map), Some(&10));
    assert_eq!(BTreeMapExt::max(&map), Some(&30));
    let empty = BTreeMap::<u64, char>::new();
    assert_eq!(BTreeMapExt::min(&empty), None);
    assert_eq!(BTreeMapExt::max(&empty), None);
}

#[test]
fn value_of_least_key_can_be_changed() {
    let mut map = BTreeMap::from_iter([(3u64, 30u64), (1u64, 10u64), (2u64, 20u64)]);
    match map.min_key_value_mut() {
        Some((key, value)) => {
            assert_eq!(*key, 1);
            assert_eq!(*value, 10);
            *value = 11;
        }
        None => panic!("the map holds three entries"),
    }
    match map.max_key_value_mut() {
        Some((key, value)) => {
            assert_eq!(*key, 3);
            *value += 3;
        }
        None => panic!("the map holds three entries"),
    }
    assert_eq!(
        map.into_iter().collect::<Vec<_>>(),
        vec![(1, 11), (2, 20), (3, 33)]
    );
}

#[test]
fn insert_uncontended_adds_the_entry() {
    let mut map = BTreeMap::from_iter([(1u64, "one")]);
    map.insert_uncontended(2, "two");
    assert_eq!(map.get(&2), Some(&"two"));
    assert_eq!(map.get(&1), Some(&"one"));
    assert_eq!(map.len(), 2);
}

#[test]
fn vector_of_one_grows_and_shrinks() {
    let mut v = NonEmpty::vec(1u32);
    assert_eq!(v.len(), 1);
    v.push(2);
    v.push(3);
    assert_eq!(v.len(), 3);
    assert_eq!(v.iter().copied().collect::<Vec<_>>(), vec![1, 2, 3]);
    let (rest, last) = v.pop();
    assert_eq!(last, 3);
    let (rest, last) = rest.unwrap().pop();
    assert_eq!(last, 2);
    let (rest, last) = rest.unwrap().pop();
    assert_eq!(last, 1);
    assert!(rest.is_none());
}

#[test]
fn vector_new_holds_its_element() {
    let v = NonEmpty::<Vec<&str>>::new("only");
    assert_eq!(v.len(), 1);
    assert_eq!(v.iter().collect::<Vec<_>>(), vec![&"only"]);
}

#[test]
fn queue_keeps_arrival_order() {
    let mut q = NonEmpty::vecdeque(2u32);
    q.push_back(3);
    q.push_front(1);
    assert_eq!(q.len(), 3);
    assert_eq!(*q.front(), 1);
    assert_eq!(*q.back(), 3);
    assert_eq!(q.iter().copied().collect::<Vec<_>>(), vec![1, 2, 3]);
    let (rest, first) = q.pop_front();
    assert_eq!(first, 1);
    let rest = rest.unwrap();
    assert_eq!(*rest.front(), 2);
    let (rest, last) = rest.pop_back();
    assert_eq!(last, 3);
    let rest = rest.unwrap();
    assert_eq!(rest.len(), 1);
    let (rest, only) = rest.pop_front();
    assert_eq!(only, 2);
    assert!(rest.is_none());
}

#[test]
fn queue_of_one_is_exhausted_by_either_end() {
    let (rest, value) = NonEmpty::<std::collections::VecDeque<u8>>::new(7).pop_back();
    assert_eq!(value, 7);
    assert!(rest.is_none());
    let (rest, value) = NonEmpty::vecdeque(8u8).pop_front();
    assert_eq!(value, 8);
    assert!(rest.is_none());
}

#[test]
fn pop_once_by_takes_the_first_that_fits() {
    let mut q = NonEmpty::vecdeque((1u8, 'a'));
    q.push_back((2, 'b'));
    q.push_back((3, 'c'));
    q.push_back((2, 'd'));
    let (rest, taken) = q.pop_once_by(|entry| entry.0 == 2);
    assert_eq!(taken, (2, 'b'));
    assert_eq!(
        rest.unwrap().iter().copied().collect::<Vec<_>>(),
        vec![(1, 'a'), (3, 'c'), (2, 'd')]
    );
}

#[test]
fn pop_once_by_exhausts_a_queue_of_one() {
    let (rest, taken) = NonEmpty::vecdeque(5u8).pop_once_by(|entry| *entry == 5);
    assert_eq!(taken, 5);
    assert!(rest.is_none());
}

#[test]
fn zero_is_not_positive() {
    assert_eq!(Positive::new(0), Err(NotPositive(0)));
}

#[test]
fn positive_keeps_its_value() {
    assert_eq!(Positive::new(1).unwrap().into_inner(), 1);
    assert_eq!(Positive::new(42).unwrap().into_inner(), 42);
    assert_eq!(Positive::new(u64::MAX).unwrap().into_inner(), u64::MAX);
    assert_eq!(Positive::one().into_inner(), 1);
    assert_eq!(Positive::one(), Positive::new(1).unwrap());
    assert!(Positive::new(2).unwrap() > Positive::one());
}
