use limited_binary_heap::LimitedBinaryHeap;
use std::cmp::Ordering;

#[derive(Debug)]
pub struct RawResponseRecord {
    pub price: u32,
    pub product_name: String,
}

impl Ord for RawResponseRecord {
    fn cmp(&self, other: &Self) -> Ordering {
        self.price.cmp(&other.price)
    }
}

impl Eq for RawResponseRecord {}

impl PartialOrd for RawResponseRecord {
    fn partial_cmp(&self, other: &Self) -> Option<Ordering> {
        self.price.partial_cmp(&other.price)
    }
}

impl PartialEq for RawResponseRecord {
    fn eq(&self, other: &Self) -> bool {
        self.price == other.price
    }
}

fn drained(limit: usize, values: &[u64]) -> Vec<u64> {
    let mut heap: LimitedBinaryHeap<u64> = LimitedBinaryHeap::new(limit);
    for v in values {
        heap.insert(*v);
    }
    heap.into_sorted_vec()
}

fn smallest(limit: usize, values: &[u64]) -> Vec<u64> {
    let mut all = values.to_vec();
    all.sort();
    all.truncate(limit);
    all
}

fn sample_stream(n: usize, seed: u64) -> Vec<u64> {
    let mut x = seed;
    let mut out = Vec::new();
    for _ in 0..n {
        x = x.wrapping_mul(6364136223846793005).wrapping_add(1442695040888963407);
        out.push((x >> 33) % 50);
    }
    out
}

#[test]
fn test_limit() {
    let mut limited_binary_heap: LimitedBinaryHeap<RawResponseRecord> =
        LimitedBinaryHeap::new(3);
    limited_binary_heap.insert(RawResponseRecord {
        price: 10,
        product_name: "Seal".to_owned(),
    });
    limited_binary_heap.insert(RawResponseRecord {
        price: 20,
        product_name: "Sugar".to_owned(),
    });
    limited_binary_heap.insert(RawResponseRecord {
        price: 30,
        product_name: "Pepper".to_owned(),
    });
    limited_binary_heap.insert(RawResponseRecord {
        price: 5,
        product_name: "Potato".to_owned(),
    });
    limited_binary_heap.insert(RawResponseRecord {
        price: 40,
        product_name: "Milk".to_owned(),
    });
    limited_binary_heap.insert(RawResponseRecord {
        price: 15,
        product_name: "Nut".to_owned(),
    });
    assert_eq!(
        limited_binary_heap.into_sorted_vec(),
        vec![
            RawResponseRecord {
                price: 5,
                product_name: "Potato".to_owned(),
            },
            RawResponseRecord {
                price: 10,
                product_name: "Seal".to_owned()
            },
            RawResponseRecord {
                price: 15,
                product_name: "Nut".to_owned(),
            },
        ]
    );
}

#[test]
fn limit_keeps_names_of_smallest_records() {
    let mut heap: LimitedBinaryHeap<RawResponseRecord> = LimitedBinaryHeap::new(3);
    for (price, name) in [(10, "Seal"), (20, "Sugar"), (30, "Pepper"), (5, "Potato"), (40, "Milk"), (15, "Nut")] {
        heap.insert(RawResponseRecord { price, product_name: name.to_owned() });
    }
    let names: Vec<String> = heap.into_sorted_vec().into_iter().map(|r| r.product_name).collect();
    assert_eq!(names, vec!["Potato".to_owned(), "Seal".to_owned(), "Nut".to_owned()]);
}

#[test]
fn three_of_six_prices() {
    assert_eq!(drained(3, &[10, 20, 30, 5, 40, 15]), vec![5, 10, 15]);
}

#[test]
fn fewer_values_than_limit() {
    assert_eq!(drained(5, &[7, 2, 9]), vec![2, 7, 9]);
}

#[test]
fn equal_to_maximum_is_rejected() {
    assert_eq!(drained(2, &[4, 4, 4]), vec![4, 4]);
}

#[test]
fn equal_to_maximum_keeps_earlier_arrivals() {
    let mut heap: LimitedBinaryHeap<RawResponseRecord> = LimitedBinaryHeap::new(2);
    for name in ["first", "second", "third"] {
        heap.insert(RawResponseRecord { price: 4, product_name: name.to_owned() });
    }
    let mut names: Vec<String> = heap.into_sorted_vec().into_iter().map(|r| r.product_name).collect();
    names.sort();
    assert_eq!(names, vec!["first".to_owned(), "second".to_owned()]);
}

#[test]
fn empty_heap_drains_empty() {
    assert_eq!(drained(4, &[]), Vec::<u64>::new());
}

#[test]
fn limit_one_keeps_minimum() {
    assert_eq!(drained(1, &[8, 3, 9, 3, 1, 7]), vec![1]);
}

#[test]
fn held_count_is_min_of_inserted_and_limit() {
    for limit in 1..8usize {
        for n in 0..20usize {
            let values = sample_stream(n, 7 + n as u64);
            assert_eq!(drained(limit, &values).len(), n.min(limit));
        }
    }
}

#[test]
fn keeps_the_smallest_values() {
    for limit in 1..10usize {
        for seed in 0..20u64 {
            let values = sample_stream(30, seed);
            assert_eq!(drained(limit, &values), smallest(limit, &values));
        }
    }
}

#[test]
fn drain_is_non_decreasing() {
    let values = sample_stream(200, 99);
    let out = drained(37, &values);
    for w in out.windows(2) {
        assert!(w[0] <= w[1]);
    }
}

#[test]
fn full_heap_stays_full() {
    let values = sample_stream(25, 3);
    let limit = 6usize;
    let mut reached = false;
    for n in 0..=values.len() {
        let count = drained(limit, &values[..n]).len();
        if reached {
            assert_eq!(count, limit);
        }
        if count == limit {
            reached = true;
        }
    }
    assert!(reached);
}

#[test]
fn not_below_maximum_leaves_heap_unchanged() {
    let base = [12u64, 3, 8, 20, 5];
    let before = drained(3, &base);
    assert_eq!(before, vec![3, 5, 8]);
    let mut with_max = base.to_vec();
    with_max.push(8);
    assert_eq!(drained(3, &with_max), before);
    let mut with_larger = base.to_vec();
    with_larger.push(100);
    assert_eq!(drained(3, &with_larger), before);
}

#[test]
fn below_limit_order_does_not_matter() {
    let orders: [[u64; 4]; 4] = [[9, 1, 5, 1], [1, 1, 5, 9], [5, 9, 1, 1], [1, 9, 1, 5]];
    for order in orders.iter() {
        assert_eq!(drained(4, order), vec![1, 1, 5, 9]);
        assert_eq!(drained(6, order), vec![1, 1, 5, 9]);
    }
}

#[test]
fn largest_values_near_type_bound() {
    assert_eq!(drained(2, &[u64::MAX, 0, u64::MAX - 1, 1]), vec![0, 1]);
}
