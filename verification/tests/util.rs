use stateright::actor::Id;
use stateright::util::{Choice, ChoiceText, DenseNatMap, Never, VectorClock};
use stateright::util::text::u64_decimal;
use std::cmp::Ordering::{Equal, Greater, Less};
use std::collections::hash_map::DefaultHasher;
use std::collections::BTreeSet;
use std::hash::{Hash, Hasher};

type U8OrChar = Choice<u8, Choice<char, Never>>;

#[test]
fn can_compare() {
    let c1: U8OrChar = Choice::new(1);
    let c2: U8OrChar = Choice::new(2);
    let c3: U8OrChar = Choice::new('1').or();
    let c4: U8OrChar = Choice::new('2').or();

    assert!(c1 < c2);
    assert!(c2 < c3); // leftmost element is considered smallest
    assert!(c3 < c4);

    assert_eq!(c1, Choice::new(1));
    assert_eq!(c2, Choice::new(2));
    assert_eq!(c3, Choice::new('1').or());
    assert_eq!(c4, Choice::new('2').or());

    // Elements with unmatched positions are never equal, even if the values are equal.
    let c1: Choice<u8, Choice<u8, Never>> = Choice::new(1);
    let c2: Choice<u8, Choice<u8, Never>> = Choice::new(1).or();
    assert_ne!(c1, c2);
}

#[test]
fn can_debug() {
    let c1: U8OrChar = Choice::new(1);
    let c2: U8OrChar = Choice::new('2').or();
    assert_eq!(c1.debug_text(), "1");
    assert_eq!(c2.debug_text(), "'2'");
}

#[test]
fn choice_can_display() {
    let c1: U8OrChar = Choice::new(1);
    let c2: U8OrChar = Choice::new('2').or();
    assert_eq!(c1.display_text(), "1");
    assert_eq!(c2.display_text(), "2");
}

#[test]
fn can_destructure() {
    let c1: U8OrChar = Choice::new(1);
    if let Choice::L(v) = c1 {
        assert_eq!(v, 1);
    } else {
        panic!("Expected match.");
    }
    if let Choice::R(Choice::L(_v)) = c1 {
        panic!("Unexpected match.");
    }

    let c2: U8OrChar = Choice::new('2').or();
    match c2 {
        Choice::L(_v) => {
            panic!("Unexpected match.");
        }
        Choice::R(Choice::L(v)) => {
            assert_eq!(v, '2');
        }
        Choice::R(Choice::R(_)) => {
            unreachable!();
        }
    }
}

#[test]
fn smoke_test() {
    type Four = Choice<u8, Choice<char, Choice<&'static str, Choice<String, Never>>>>;
    let choices: Vec<Four> = vec![
        Choice::new(1),
        Choice::new('2').or(),
        Choice::new("3").or().or(),
        Choice::new("4".to_string()).or().or().or(),
    ];
    let texts: Vec<String> = choices.iter().map(|c| c.debug_text()).collect();
    assert_eq!(format!("[{}]", texts.join(", ")), r#"[1, '2', "3", "4"]"#);
    assert_eq!(choices, vec![
        Choice::new(1),
        Choice::new('2').or(),
        Choice::new("3").or().or(),
        Choice::new("4".to_string()).or().or().or(),
    ]);
    assert_ne!(choices, vec![
        Choice::new(1),
        Choice::new('2').or(),
        Choice::new("three").or().or(),
        Choice::new("4".to_string()).or().or().or(),
    ]);
}

#[test]
fn choice_get_returns_the_only_value() {
    let c: Choice<u8, Never> = Choice::new(7);
    assert_eq!(*c.get(), 7);
}

#[test]
fn can_construct_and_insert() {
    let mut m = DenseNatMap::new();
    m.insert(Id::from(0), "first");
    m.insert(Id::from(1), "second");
    assert_eq!(m.into_pairs().into_iter().collect::<BTreeSet<_>>(), vec![
        (Id::from(1), "second"), // out of order is fine here
        (Id::from(0), "first"),
    ].into_iter().collect());
}

#[test]
fn densenatmap_get_insert_and_iterate() {
    let mut m: DenseNatMap<Id, char> = DenseNatMap::new();
    assert_eq!(m.len(), 0);
    assert_eq!(m.insert(Id::from(0), 'a'), None);
    assert_eq!(m.insert(Id::from(1), 'b'), None);
    assert_eq!(m.insert(Id::from(0), 'c'), Some('a'));
    assert_eq!(m.get(Id::from(0)), Some(&'c'));
    assert_eq!(m.get(Id::from(1)), Some(&'b'));
    assert_eq!(m.get(Id::from(2)), None);
    assert_eq!(m.len(), 2);
    assert_eq!(m.values(), &['c', 'b']);
    assert_eq!(m.iter(), vec![(Id::from(0), &'c'), (Id::from(1), &'b')]);
    let rebuilt = DenseNatMap::from_pairs(vec![(Id::from(1), 'b'), (Id::from(0), 'c')]);
    assert_eq!(rebuilt, m);
    assert_eq!(DenseNatMap::<Id, char>::from(vec!['c', 'b']), m);
}

#[test]
fn vector_clock_can_display() {
    assert_eq!(
        VectorClock::from(vec![1, 2, 3, 4]).display_text(),
        "<1, 2, 3, 4, ...>");

    // Notably equal vectors don't necessarily display the same.
    assert_eq!(
        VectorClock::from(vec![]).display_text(),
        "<...>");
    assert_eq!(
        VectorClock::from(vec![0]).display_text(),
        "<0, ...>");
}

#[test]
fn can_equate() {
    assert_eq!(
        VectorClock::new(),
        VectorClock::new());
    assert_eq!(
        VectorClock::from(vec![0]),
        VectorClock::from(vec![]));
    assert_eq!(
        VectorClock::from(vec![]),
        VectorClock::from(vec![0]));

    assert_ne!(
        VectorClock::from(vec![]),
        VectorClock::from(vec![1]));
    assert_ne!(
        VectorClock::from(vec![1]),
        VectorClock::from(vec![]));
}

fn hash_of(c: &VectorClock) -> u64 {
    let mut h = DefaultHasher::new();
    c.hash(&mut h);
    h.finish()
}

#[test]
fn can_hash() {
    // same hash if equal
    assert_eq!(hash_of(&VectorClock::new()), hash_of(&VectorClock::new()));
    assert_eq!(
        hash_of(&VectorClock::from(vec![])),
        hash_of(&VectorClock::from(vec![0, 0])));
    assert_eq!(
        hash_of(&VectorClock::from(vec![1])),
        hash_of(&VectorClock::from(vec![1, 0])));

    // otherwise hash varies w/ high probability
    assert_ne!(
        hash_of(&VectorClock::from(vec![])),
        hash_of(&VectorClock::from(vec![1])));
    assert_ne!(
        hash_of(&VectorClock::from(vec![1])),
        hash_of(&VectorClock::from(vec![])));
}

#[test]
fn can_increment() {
    assert_eq!(
        VectorClock::new().incremented(2),
        VectorClock::from(vec![0, 0, 1]));
    assert_eq!(
        VectorClock::new().incremented(2).incremented(0).incremented(2),
        VectorClock::from(vec![1, 0, 2]));
}

#[test]
fn can_merge() {
    assert_eq!(
        VectorClock::merge_max(
            &VectorClock::from(vec![1, 2, 3, 4]),
            &VectorClock::from(vec![5, 6, 0])),
        VectorClock::from(vec![5, 6, 3, 4]));
    assert_eq!(
        VectorClock::merge_max(
            &VectorClock::from(vec![1, 0, 2]),
            &VectorClock::from(vec![3, 1, 0, 4])),
        VectorClock::from(vec![3, 1, 2, 4]));
}

#[test]
fn can_order_partially() {

    // Clocks with matching elements are equal. Missing elements are implicitly zero.
    assert_eq!(
        Some(Equal),
        VectorClock::from(vec![]).partial_cmp(&vec![].into()));
    assert_eq!(
        Some(Equal),
        VectorClock::from(vec![]).partial_cmp(&vec![0, 0].into()));
    assert_eq!(
        Some(Equal),
        VectorClock::from(vec![0, 0]).partial_cmp(&vec![].into()));
    assert_eq!(
        Some(Equal),
        VectorClock::from(vec![1, 2, 0]).partial_cmp(&vec![1, 2].into()));

    // A clock is less if at least one element is less and the rest are
    // less-than-or-equal.
    assert_eq!(
        Some(Less),
        VectorClock::from(vec![]).partial_cmp(&vec![1].into()));
    assert_eq!(
        Some(Less),
        VectorClock::from(vec![1, 2, 3]).partial_cmp(&vec![1, 3, 4].into()));
    assert_eq!(
        Some(Less),
        VectorClock::from(vec![1, 2, 3]).partial_cmp(&vec![1, 3, 3].into()));
    assert_eq!(
        Some(Less),
        VectorClock::from(vec![1, 2, 3]).partial_cmp(&vec![2, 3, 3].into()));

    // A clock is greater if at least one element is greater and the rest are
    // greater-than-or-equal.
    assert_eq!(
        Some(Greater),
        VectorClock::from(vec![1]).partial_cmp(&vec![].into()));
    assert_eq!(
        Some(Greater),
        VectorClock::from(vec![1, 2, 3]).partial_cmp(&vec![1, 1, 2].into()));
    assert_eq!(
        Some(Greater),
        VectorClock::from(vec![1, 2, 3]).partial_cmp(&vec![1, 1, 3].into()));
    assert_eq!(
        Some(Greater),
        VectorClock::from(vec![1, 2, 4]).partial_cmp(&vec![0, 1, 3].into()));

    // If one element is greater while another is less, then the vectors are incomparable.
    assert_eq!(
        None,
        VectorClock::from(vec![1, 2, 3]).partial_cmp(&vec![1, 3, 2].into()));
    assert_eq!(
        None,
        VectorClock::from(vec![1, 2, 3]).partial_cmp(&vec![3, 2, 1].into()));
    assert_eq!(
        None,
        VectorClock::from(vec![1, 2, 2]).partial_cmp(&vec![2, 1, 2].into()));
}

// Merging is commutative and idempotent, and the merge dominates both clocks.
#[test]
fn merge_laws_hold_on_examples() {
    let a = VectorClock::from(vec![3, 0, 2]);
    let b = VectorClock::from(vec![1, 4]);
    let ab = VectorClock::merge_max(&a, &b);
    assert_eq!(ab, VectorClock::merge_max(&b, &a));
    assert_eq!(VectorClock::merge_max(&a, &a), a);
    assert!(a <= ab && b <= ab);
    assert_eq!(ab, VectorClock::from(vec![3, 4, 2]));
}

// Incrementing a component makes the clock strictly later.
#[test]
fn increment_advances() {
    let a = VectorClock::from(vec![1, 1]);
    assert!(a < a.clone().incremented(1));
    assert!(a < a.clone().incremented(5));
}

#[test]
fn decimal_text_of_numbers() {
    assert_eq!(u64_decimal(0), "0");
    assert_eq!(u64_decimal(7), "7");
    assert_eq!(u64_decimal(10), "10");
    assert_eq!(u64_decimal(1234567890), "1234567890");
    assert_eq!(u64_decimal(u64::MAX), u64::MAX.to_string());
}
