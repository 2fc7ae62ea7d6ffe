use iter_zip_sort::priority_sort_iterator::PrioritySortIterator;

#[derive(Debug, Clone)]
pub struct TimeStampNoCopy<T> {
    pub time: u64,
    pub data: T,
}

impl<T> Ord for TimeStampNoCopy<T> {
    fn cmp(&self, other: &Self) -> std::cmp::Ordering {
        self.time.cmp(&other.time)
    }
}

impl<T> PartialEq for TimeStampNoCopy<T> {
    fn eq(&self, other: &Self) -> bool {
        self.time == other.time
    }
}

impl<T> PartialOrd for TimeStampNoCopy<T> {
    fn partial_cmp(&self, other: &Self) -> Option<std::cmp::Ordering> {
        Some(self.time.cmp(&other.time))
    }
}

impl<T> Eq for TimeStampNoCopy<T> {}

#[test]
fn test_priority_sort_iterator() {
    let a = vec![
        TimeStampNoCopy { time: 0, data: "h" },
        TimeStampNoCopy { time: 2, data: "l" },
    ];
    let b = vec![
        TimeStampNoCopy { time: 1, data: "e" },
        TimeStampNoCopy { time: 2, data: "l" },
    ];
    let c = vec![TimeStampNoCopy { time: 8, data: "o" }];

    let d = vec![
        TimeStampNoCopy { time: 9, data: " " },
        TimeStampNoCopy {
            time: 10,
            data: "world",
        },
    ];

    let mut zip = PrioritySortIterator::new(vec![&a[..], &b[..], &c[..], &d[..]].as_mut_slice());
    assert_eq!(zip.next().map(|x| x.data), Some("h"));
    assert_eq!(zip.next().map(|x| x.data), Some("e"));
    assert_eq!(zip.next().map(|x| x.data), Some("l"));
    assert_eq!(zip.next().map(|x| x.data), Some("l"));
    assert_eq!(zip.next().map(|x| x.data), Some("o"));
    assert_eq!(zip.next().map(|x| x.data), Some(" "));
    assert_eq!(zip.next().map(|x| x.data), Some("world"));
    assert_eq!(zip.next(), None);
}

#[test]
fn test_priority_sort_integers_iterator() {
    let a = vec![1, 3, 5];
    let b = vec![2, 4];

    let mut zip = PrioritySortIterator::new(vec![&a[..], &b[..]].as_mut_slice());
    assert_eq!(zip.next(), Some(&1));
    assert_eq!(zip.next(), Some(&2));
    assert_eq!(zip.next(), Some(&3));
    assert_eq!(zip.next(), Some(&4));
    assert_eq!(zip.next(), Some(&5));
    assert_eq!(zip.next(), None);
}

#[test]
fn benchmark() {
    let mut a = vec![];
    let mut b = vec![];
    let mut c = vec![];

    for i in 0..1000000 {
        a.push(i);
    }
    for i in 0..1000000 {
        b.push(i);
    }
    for i in 0..1000000 {
        c.push(i);
    }
    let mut zip = PrioritySortIterator::new(vec![&a[..], &b[..], &c[..]].as_mut_slice());

    let before = std::time::Instant::now();
    while zip.next().is_some() {
        zip.next();
    }
    let dur = before.elapsed();
    println!("{:?}", dur);

    let before = std::time::Instant::now();
    let mut x = 0;
    for i in 0..3000000 {
        x += i % 3 * 3 * 2;
    }
    let dur = before.elapsed();
    println!("{:?} {}", dur, x);
}

#[test]
fn priority_keys_of_four_sources_come_out_in_order() {
    let a = vec![0, 2];
    let b = vec![1, 2];
    let c = vec![8];
    let d = vec![9, 10];

    let out = PrioritySortIterator::new(&[&a[..], &b[..], &c[..], &d[..]]).collect();
    assert_eq!(out, vec![&0, &1, &2, &2, &8, &9, &10]);
}

#[test]
fn priority_of_no_sources_yields_nothing() {
    let none: Vec<&[u32]> = vec![];

    let mut merge = PrioritySortIterator::new(&none);
    assert_eq!(merge.next(), None);
    assert_eq!(merge.next(), None);
    assert!(PrioritySortIterator::new(&none).collect().is_empty());
}

#[test]
fn priority_of_empty_sources_yields_nothing() {
    let a: Vec<u32> = vec![];
    let b: Vec<u32> = vec![];
    let c: Vec<u32> = vec![];

    let mut merge = PrioritySortIterator::new(&[&a[..], &b[..], &c[..]]);
    assert_eq!(merge.next(), None);
    assert_eq!(merge.next(), None);
    assert!(PrioritySortIterator::new(&[&a[..]]).collect().is_empty());
}

#[test]
fn priority_skips_an_empty_source() {
    let a = vec![1, 4, 7];
    let empty: Vec<i32> = vec![];
    let b = vec![2, 5, 8];
    let c = vec![3, 6, 9];

    let with_empty = PrioritySortIterator::new(&[&a[..], &empty[..], &b[..], &c[..]]).collect();
    let without = PrioritySortIterator::new(&[&a[..], &b[..], &c[..]]).collect();
    assert_eq!(with_empty, vec![&1, &2, &3, &4, &5, &6, &7, &8, &9]);
    assert_eq!(with_empty, without);

    let first = PrioritySortIterator::new(&[&empty[..], &a[..], &b[..], &c[..]]).collect();
    let last = PrioritySortIterator::new(&[&a[..], &b[..], &c[..], &empty[..]]).collect();
    assert_eq!(first, without);
    assert_eq!(last, without);
}

#[test]
fn priority_stays_exhausted() {
    let a = vec![2];
    let b = vec![1];

    let mut merge = PrioritySortIterator::new(&[&a[..], &b[..]]);
    assert_eq!(merge.next(), Some(&1));
    assert_eq!(merge.next(), Some(&2));
    for _ in 0..5 {
        assert_eq!(merge.next(), None);
    }
}

#[test]
fn priority_keeps_equal_elements_of_different_sources() {
    let a = vec![4, 4, 6];
    let b = vec![4];
    let c = vec![1, 4, 4, 4];
    let d = vec![4, 5];

    let out = PrioritySortIterator::new(&[&a[..], &b[..], &c[..], &d[..]]).collect();
    assert_eq!(out, vec![&1, &4, &4, &4, &4, &4, &4, &4, &5, &6]);
    assert_eq!(out.iter().filter(|v| ***v == 4).count(), 7);
}

#[test]
fn priority_hands_out_each_tied_element_once() {
    let a = vec![
        TimeStampNoCopy { time: 3, data: "a0" },
        TimeStampNoCopy { time: 3, data: "a1" },
    ];
    let b = vec![TimeStampNoCopy { time: 3, data: "b0" }];
    let c = vec![
        TimeStampNoCopy { time: 3, data: "c0" },
        TimeStampNoCopy { time: 3, data: "c1" },
    ];

    let out: Vec<&str> = PrioritySortIterator::new(&[&a[..], &b[..], &c[..]])
        .collect()
        .into_iter()
        .map(|x| x.data)
        .collect();
    assert_eq!(out.len(), 5);
    let place = |name: &str| out.iter().position(|x| *x == name).unwrap();
    assert!(place("a0") < place("a1"));
    assert!(place("c0") < place("c1"));
    let mut names = out.clone();
    names.sort();
    assert_eq!(names, vec!["a0", "a1", "b0", "c0", "c1"]);
}

#[test]
fn priority_of_one_source_yields_it_unchanged() {
    let a = vec![1, 1, 2, 3, 5, 8];

    let out = PrioritySortIterator::new(&[&a[..]]).collect();
    assert_eq!(out, vec![&1, &1, &2, &3, &5, &8]);
}

#[test]
fn priority_collect_after_some_steps_gives_the_rest() {
    let a = vec![1, 3, 5];
    let b = vec![2, 4];

    let mut merge = PrioritySortIterator::new(&[&a[..], &b[..]]);
    assert_eq!(merge.next(), Some(&1));
    assert_eq!(merge.next(), Some(&2));
    assert_eq!(merge.collect(), vec![&3, &4, &5]);
}

#[test]
fn priority_keeps_every_element_of_unsorted_input() {
    let a = vec![5, 1, 4];
    let b = vec![3, 9, 0];
    let c = vec![2, 2];

    let out = PrioritySortIterator::new(&[&a[..], &b[..], &c[..]]).collect();
    assert_eq!(out.len(), 8);
    let mut got: Vec<i32> = out.into_iter().copied().collect();
    got.sort();
    assert_eq!(got, vec![0, 1, 2, 2, 3, 4, 5, 9]);
}

#[test]
fn priority_hands_out_references_into_the_inputs() {
    let a = vec![TimeStampNoCopy { time: 1, data: String::from("first") }];
    let b = vec![TimeStampNoCopy { time: 2, data: String::from("second") }];

    let mut merge = PrioritySortIterator::new(&[&b[..], &a[..]]);
    let first = merge.next().unwrap();
    let second = merge.next().unwrap();
    assert!(std::ptr::eq(first, &a[0]));
    assert!(std::ptr::eq(second, &b[0]));
    assert_eq!(merge.next(), None);
}

#[test]
fn priority_output_is_sorted_and_complete() {
    let mut seed: u64 = 0x9e37_79b9_7f4a_7c15;
    let mut sources: Vec<Vec<u32>> = Vec::new();
    for s in 0..37u32 {
        let mut source: Vec<u32> = Vec::new();
        seed = seed.wrapping_mul(6364136223846793005).wrapping_add(1442695040888963407);
        let len = (seed >> 35) % 60;
        let mut value = s % 5;
        for _ in 0..len {
            seed = seed.wrapping_mul(6364136223846793005).wrapping_add(1442695040888963407);
            value += ((seed >> 37) % 4) as u32;
            source.push(value);
        }
        sources.push(source);
    }
    let slices: Vec<&[u32]> = sources.iter().map(|s| s.as_slice()).collect();

    let out = PrioritySortIterator::new(&slices).collect();
    let total: usize = sources.iter().map(|s| s.len()).sum();
    assert_eq!(out.len(), total);
    assert!(out.windows(2).all(|w| w[0] <= w[1]));
    let mut expected: Vec<u32> = sources.iter().flatten().copied().collect();
    expected.sort();
    let got: Vec<u32> = out.into_iter().copied().collect();
    assert_eq!(got, expected);
}

#[test]
fn priority_step_by_step_matches_collect() {
    let a = vec![1, 10, 100];
    let b = vec![2, 20, 200];
    let c = vec![3, 30, 300];
    let d = vec![4, 40, 400];
    let e = vec![5, 50, 500];
    let inputs = [&a[..], &b[..], &c[..], &d[..], &e[..]];

    let mut merge = PrioritySortIterator::new(&inputs);
    let mut stepped = Vec::new();
    while let Some(v) = merge.next() {
        stepped.push(v);
    }
    assert_eq!(stepped, PrioritySortIterator::new(&inputs).collect());
    assert_eq!(
        stepped,
        vec![&1, &2, &3, &4, &5, &10, &20, &30, &40, &50, &100, &200, &300, &400, &500]
    );
}
