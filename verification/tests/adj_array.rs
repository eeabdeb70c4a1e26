use planetary_dynamics::adjacency::AdjArray;
use rand::rngs::StdRng;
use rand::Rng;
use rand::SeedableRng;

fn drain(array: &AdjArray) -> Vec<usize> {
    let mut iter = array.iter();
    let mut out = Vec::new();
    while let Some(value) = iter.next() {
        out.push(value);
    }
    out
}

#[test]
fn default() {
    let adj_array = AdjArray::default();
    assert_eq!(0, drain(&adj_array).len());
}

#[test]
fn from_iter() {
    let iter = (0usize..4).into_iter();

    let microvec = AdjArray::from_iter(iter.collect());

    assert_eq!(4, microvec.len());
    assert_eq!(vec![0usize, 1, 2, 3], drain(&microvec));
}

#[test]
fn display_empty() {
    assert_eq!("[]", AdjArray::from_iter(vec![]).to_string());
}

#[test]
fn display_values() {
    assert_eq!("[1, 2, 3]", AdjArray::from_iter(vec![1, 2, 3]).to_string());
}

#[test]
fn display_wide_values() {
    assert_eq!(
        "[0, 10, 907, 65535]",
        AdjArray::from_iter(vec![0, 10, 907, 65535]).to_string()
    );
}

#[test]
fn push_appends_in_order() {
    let mut array = AdjArray::default();
    assert!(array.is_empty());
    array.push(9);
    array.push(3);
    array.push(65535);
    assert!(!array.is_empty());
    assert_eq!(3, array.len());
    assert_eq!(vec![9usize, 3, 65535], array.to_vec());
    assert_eq!(3, array.get(1));
}

#[test]
fn push_fills_to_capacity() {
    let mut array = AdjArray::default();
    for value in 0..8usize {
        array.push(value * 2);
    }
    assert_eq!(8, array.len());
    assert_eq!(vec![0usize, 2, 4, 6, 8, 10, 12, 14], array.to_vec());
    assert_eq!(array, AdjArray::from_iter(vec![0, 2, 4, 6, 8, 10, 12, 14]));
}

#[test]
fn contains_scans_the_stored_values_only() {
    let array = AdjArray::from_iter(vec![4, 7, 1]);
    assert!(array.contains(4));
    assert!(array.contains(7));
    assert!(array.contains(1));
    assert!(!array.contains(0));
    assert!(!array.contains(3));
    assert!(!AdjArray::default().contains(0));
}

#[test]
fn iter_hands_out_each_value_once() {
    let array = AdjArray::from_iter(vec![5, 6]);
    let mut iter = array.iter();
    assert_eq!(Some(5), iter.next());
    assert_eq!(Some(6), iter.next());
    assert_eq!(None, iter.next());
    assert_eq!(None, iter.next());
    assert_eq!(vec![5usize, 6], drain(&array));
}

#[test]
fn and_keeps_common_values_in_left_order() {
    let left = AdjArray::from_iter(vec![8, 1, 5, 3]);
    let right = AdjArray::from_iter(vec![3, 4, 8, 9, 10]);
    assert_eq!(vec![8usize, 3], left.and(right).to_vec());
    assert_eq!(vec![3usize, 8], right.and(left).to_vec());
    assert_eq!(AdjArray::default(), left.and(AdjArray::default()));
    assert_eq!(AdjArray::default(), AdjArray::default().and(left));
    assert_eq!(left, left.and(left));
}

fn distinct_values(rng: &mut StdRng) -> Vec<usize> {
    let wanted = rng.gen_range(0..=8usize);
    let mut values: Vec<usize> = Vec::new();
    while values.len() < wanted {
        let value = rng.gen_range(0..24usize);
        if !values.contains(&value) {
            values.push(value);
        }
    }
    values
}

#[test]
fn and_fuzz() {
    let mut rng = StdRng::seed_from_u64(0x5eed);
    for _ in 0..2000 {
        let a = distinct_values(&mut rng);
        let b = distinct_values(&mut rng);
        let both = AdjArray::from_iter(a.clone())
            .and(AdjArray::from_iter(b.clone()))
            .to_vec();
        let expected: Vec<usize> = a.iter().copied().filter(|v| b.contains(v)).collect();
        assert_eq!(expected, both);
        for (k, value) in both.iter().enumerate() {
            assert!(a.contains(value) && b.contains(value));
            assert!(!both[..k].contains(value));
        }
        for value in 0..24usize {
            assert_eq!(
                a.contains(&value) && b.contains(&value),
                both.contains(&value)
            );
        }
    }
}
