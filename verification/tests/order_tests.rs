use polyphase::epsilon::Rate;
use polyphase::order::stable_order;
use polyphase::order::Desc;
use polyphase::order::Ranked;

#[test]
fn greater_keys_come_first() {
    let keys = vec![Desc { key: 3 }, Desc { key: 9 }, Desc { key: -4 }, Desc { key: 7 }];
    assert_eq!(stable_order(&keys), vec![1, 3, 0, 2]);
}

#[test]
fn equal_keys_keep_their_order() {
    let keys = vec![
        Desc { key: 5 },
        Desc { key: 8 },
        Desc { key: 5 },
        Desc { key: 8 },
        Desc { key: 5 },
        Desc { key: 1 },
    ];
    assert_eq!(stable_order(&keys), vec![1, 3, 0, 2, 4, 5]);
}

#[test]
fn order_of_nothing_is_empty() {
    let keys: Vec<Desc> = Vec::new();
    assert!(stable_order(&keys).is_empty());
}

#[test]
fn order_lists_every_index_once() {
    let mut keys = Vec::new();
    for i in 0..50i128 {
        keys.push(Desc { key: (i * 37) % 11 });
    }
    let order = stable_order(&keys);
    let mut seen = order.clone();
    seen.sort();
    assert_eq!(seen, (0..50usize).collect::<Vec<usize>>());
    for w in order.windows(2) {
        let (a, b) = (w[0], w[1]);
        assert!(keys[a].key > keys[b].key || (keys[a].key == keys[b].key && a < b));
    }
}

#[test]
fn rates_rank_ascending_by_quotient() {
    let rates = vec![
        Rate { errors: 1, total: 2 },
        Rate { errors: 1, total: 10 },
        Rate { errors: 2, total: 4 },
        Rate { errors: 0, total: 7 },
        Rate { errors: 3, total: 4 },
    ];
    assert_eq!(stable_order(&rates), vec![3, 1, 0, 2, 4]);
    assert!(rates[1].precedes(&rates[0]));
    assert!(!rates[0].precedes(&rates[2]));
    assert!(!rates[2].precedes(&rates[0]));
}

#[test]
fn rates_compare_without_overflow() {
    let big = usize::MAX;
    let a = Rate { errors: big - 1, total: big };
    let b = Rate { errors: big, total: big };
    assert!(a.precedes(&b));
    assert!(!b.precedes(&a));
}
