use nanvm_lib::range_map::{from_one, from_range, merge, merge_list, Entry, RangeMap, State};

#[test]
fn test_get() {
    let list = vec![
        Entry { key: 10, value: 'a' },
        Entry { key: 20, value: 'b' },
        Entry { key: 30, value: 'c' },
    ];
    let rm = RangeMap { list };
    let result = rm.get(5);
    assert_eq!(result, &'a');
    let result = rm.get(10);
    assert_eq!(result, &'a');
    let result = rm.get(15);
    assert_eq!(result, &'b');
    let result = rm.get(20);
    assert_eq!(result, &'b');
    let result = rm.get(25);
    assert_eq!(result, &'c');
    let result = rm.get(30);
    assert_eq!(result, &'c');
    let result = rm.get(35);
    assert_eq!(*result, 0 as char);
}

#[test]
fn test_get_from_empty() {
    let list = Vec::new();
    let rm: RangeMap<i32, char> = RangeMap { list };
    let result = rm.get(10);
    assert_eq!(*result, 0 as char);
}

#[test]
fn test_merge() {
    let a = RangeMap { list: vec![Entry { key: 10, value: State { value: Some('a') } }] };
    let b = RangeMap { list: Vec::new() };
    let result = merge(a, b);
    assert_eq!(result.list.len(), 1);
    assert_eq!(result.list[0].key, 10);
    assert_eq!(result.list[0].value, State { value: Some('a') });

    let a = RangeMap { list: Vec::new() };
    let b = RangeMap { list: vec![Entry { key: 10, value: State { value: Some('a') } }] };
    let result = merge(a, b);
    assert_eq!(result.list.len(), 1);
    assert_eq!(result.list[0].key, 10);
    assert_eq!(result.list[0].value, State { value: Some('a') });

    let a = RangeMap {
        list: vec![
            Entry { key: 10, value: State { value: Some('a') } },
            Entry { key: 20, value: State { value: Some('b') } },
            Entry { key: 30, value: State { value: Some('c') } },
            Entry { key: 40, value: State { value: None } },
        ],
    };
    let b = RangeMap {
        list: vec![
            Entry { key: 10, value: State { value: Some('a') } },
            Entry { key: 20, value: State { value: None } },
            Entry { key: 30, value: State { value: Some('c') } },
            Entry { key: 40, value: State { value: None } },
            Entry { key: 50, value: State { value: Some('d') } },
        ],
    };
    let result = merge(a, b);
    assert_eq!(result.list.len(), 5);
    assert_eq!(result.list[0].key, 10);
    assert_eq!(result.list[0].value, State { value: Some('a') });
    assert_eq!(result.list[1].key, 20);
    assert_eq!(result.list[1].value, State { value: Some('b') });
    assert_eq!(result.list[2].key, 30);
    assert_eq!(result.list[2].value, State { value: Some('c') });
    assert_eq!(result.list[3].key, 40);
    assert_eq!(result.list[3].value, State { value: None });
    assert_eq!(result.list[4].key, 50);
    assert_eq!(result.list[4].value, State { value: Some('d') });
}

#[test]
fn test_merge_list() {
    let result: RangeMap<i32, State<char>> = merge_list(Vec::new());
    assert_eq!(result.list.len(), 0);

    let result: RangeMap<i32, State<char>> = merge_list(vec![
        RangeMap { list: vec![Entry { key: 10, value: State { value: Some('a') } }] },
        RangeMap {
            list: vec![
                Entry { key: 10, value: State { value: None } },
                Entry { key: 20, value: State { value: Some('b') } },
            ],
        },
        RangeMap {
            list: vec![
                Entry { key: 20, value: State { value: None } },
                Entry { key: 30, value: State { value: Some('c') } },
            ],
        },
    ]);
    assert_eq!(result.list.len(), 3);
    assert_eq!(result.list[0].key, 10);
    assert_eq!(result.list[0].value, State { value: Some('a') });
    assert_eq!(result.list[1].key, 20);
    assert_eq!(result.list[1].value, State { value: Some('b') });
    assert_eq!(result.list[2].key, 30);
    assert_eq!(result.list[2].value, State { value: Some('c') });
}

#[test]
fn test_from_range() {
    let state = 'A';
    let range = 'b'..='d';
    let rm = from_range(range, state);
    assert_eq!(rm.get('a'), &State { value: None });
    assert_eq!(rm.get('b'), &State { value: Some('A') });
    assert_eq!(rm.get('c'), &State { value: Some('A') });
    assert_eq!(rm.get('d'), &State { value: Some('A') });
    assert_eq!(rm.get('e'), &State { value: None });
}

#[test]
fn test_from_one() {
    let state = 'A';
    let rm = from_one('b', state);
    assert_eq!(rm.get('a'), &State { value: None });
    assert_eq!(rm.get('b'), &State { value: Some('A') });
}

#[test]
fn from_one_after_a_surrogate_gap() {
    // the code point before U+E000 is a surrogate: the map has one entry
    let rm = from_one('\u{E000}', 1);
    assert_eq!(rm.list.len(), 1);
    assert_eq!(rm.get('\u{E000}'), &State { value: Some(1) });
    assert_eq!(rm.get('a'), &State { value: Some(1) });
    assert_eq!(rm.get('\u{E001}'), &State { value: None });
}

#[test]
fn merge_of_disjoint_ranges() {
    let rm = merge_list(vec![from_range('a'..='c', 'x'), from_one('e', 'y'), from_range('0'..='9', 'z')]);
    assert_eq!(rm.get('b'), &State { value: Some('x') });
    assert_eq!(rm.get('d'), &State { value: None });
    assert_eq!(rm.get('e'), &State { value: Some('y') });
    assert_eq!(rm.get('5'), &State { value: Some('z') });
    assert_eq!(rm.get('f'), &State { value: None });
}
