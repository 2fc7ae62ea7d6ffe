use iter_zip_sort::source::SliceSource;
use iter_zip_sort::ZipSortIterator;

#[derive(Debug, Copy, Clone)]
pub struct TimeStamp<T> {
    pub time: u64,
    pub data: T,
}

impl<T> PartialEq for TimeStamp<T> {
    fn eq(&self, other: &Self) -> bool {
        self.time == other.time
    }
}

impl<T> PartialOrd for TimeStamp<T> {
    fn partial_cmp(&self, other: &Self) -> Option<std::cmp::Ordering> {
        Some(self.time.cmp(&other.time))
    }
}

#[derive(Debug, Clone)]
pub struct TimeStampNoCopy<T> {
    pub time: u64,
    pub data: T,
}

impl<T> PartialEq for TimeStampNoCopy<T> {
    fn eq(&self, other: &Self) -> bool {
        self.time == other.time
    }
}

impl<T> PartialOrd for TimeStampNoCopy<T> {
    fn partial_cmp(&self, other: &Self) -> Option<std::cmp::Ordering> {
        Some(self.time.cmp(&other.time))
    }
}

#[test]
fn it_works() {
    let a = vec![1, 3, 5];
    let b = vec![2, 4];

    let mut zip = ZipSortIterator::new(&a, &b);
    assert_eq!(zip.next(), Some(&1));
    assert_eq!(zip.next(), Some(&2));
    assert_eq!(zip.next(), Some(&3));
    assert_eq!(zip.next(), Some(&4));
    assert_eq!(zip.next(), Some(&5));
    assert_eq!(zip.next(), None);
}

#[test]
fn it_works_doupes() {
    let a = vec![1, 3, 4, 5];
    let b = vec![2, 4, 4, 4, 4];

    let mut zip = ZipSortIterator::new(&a, &b);
    assert_eq!(zip.next(), Some(&1));
    assert_eq!(zip.next(), Some(&2));
    assert_eq!(zip.next(), Some(&3));
    assert_eq!(zip.next(), Some(&4));
    assert_eq!(zip.next(), Some(&4));
    assert_eq!(zip.next(), Some(&4));
    assert_eq!(zip.next(), Some(&4));
    assert_eq!(zip.next(), Some(&4));
    assert_eq!(zip.next(), Some(&5));
    assert_eq!(zip.next(), None);
}

#[test]
fn it_works_times() {
    let a = vec![
        TimeStamp { time: 0, data: "h" },
        TimeStamp { time: 2, data: "l" },
    ];
    let b = vec![
        TimeStamp { time: 1, data: "e" },
        TimeStamp { time: 2, data: "l" },
    ];

    let mut zip = ZipSortIterator::new(&a, &b);
    assert_eq!(zip.next().map(|x| x.data), Some("h"));
    assert_eq!(zip.next().map(|x| x.data), Some("e"));
    assert_eq!(zip.next().map(|x| x.data), Some("l"));
    assert_eq!(zip.next().map(|x| x.data), Some("l"));
    assert_eq!(zip.next(), None);
}

#[test]
fn it_works_times_no_copy() {
    let a = vec![
        TimeStampNoCopy { time: 0, data: "h" },
        TimeStampNoCopy { time: 2, data: "l" },
    ];
    let b = vec![
        TimeStampNoCopy { time: 1, data: "e" },
        TimeStampNoCopy { time: 2, data: "l" },
    ];

    let mut zip = ZipSortIterator::new(&a, &b);
    assert_eq!(zip.next().map(|x| x.data), Some("h"));
    assert_eq!(zip.next().map(|x| x.data), Some("e"));
    assert_eq!(zip.next().map(|x| x.data), Some("l"));
    assert_eq!(zip.next().map(|x| x.data), Some("l"));
    assert_eq!(zip.next(), None);
}

#[test]
fn zip_ties_take_the_left_side_first() {
    let a = vec![
        TimeStamp { time: 1, data: "a1" },
        TimeStamp { time: 2, data: "a2" },
        TimeStamp { time: 2, data: "a3" },
    ];
    let b = vec![
        TimeStamp { time: 1, data: "b1" },
        TimeStamp { time: 2, data: "b2" },
    ];

    let out: Vec<&str> = ZipSortIterator::new(&a, &b)
        .collect()
        .into_iter()
        .map(|x| x.data)
        .collect();
    assert_eq!(out, vec!["a1", "b1", "a2", "a3", "b2"]);
}

#[test]
fn zip_stays_exhausted() {
    let a = vec![7];
    let b = vec![3];

    let mut zip = ZipSortIterator::new(&a, &b);
    assert_eq!(zip.next(), Some(&3));
    assert_eq!(zip.next(), Some(&7));
    for _ in 0..5 {
        assert_eq!(zip.next(), None);
    }
}

#[test]
fn zip_of_two_empty_slices_yields_nothing() {
    let a: Vec<u32> = vec![];
    let b: Vec<u32> = vec![];

    let mut zip = ZipSortIterator::new(&a, &b);
    assert_eq!(zip.next(), None);
    assert_eq!(zip.next(), None);
    assert!(ZipSortIterator::new(&a, &b).collect().is_empty());
}

#[test]
fn zip_with_one_empty_side_yields_the_other() {
    let a: Vec<u32> = vec![];
    let b: Vec<u32> = vec![1, 2, 2, 9];

    assert_eq!(ZipSortIterator::new(&a, &b).collect(), vec![&1, &2, &2, &9]);
    assert_eq!(ZipSortIterator::new(&b, &a).collect(), vec![&1, &2, &2, &9]);

    let mut zip = ZipSortIterator::new(&b, &a);
    assert_eq!(zip.next(), Some(&1));
    assert_eq!(zip.next(), Some(&2));
    assert_eq!(zip.next(), Some(&2));
    assert_eq!(zip.next(), Some(&9));
    assert_eq!(zip.next(), None);
}

#[test]
fn zip_collect_gives_the_whole_merge() {
    let a = vec![1, 3, 4, 5];
    let b = vec![2, 4, 4, 4, 4];

    let out = ZipSortIterator::new(&a, &b).collect();
    assert_eq!(out, vec![&1, &2, &3, &4, &4, &4, &4, &4, &5]);
    assert_eq!(out.iter().filter(|v| ***v == 4).count(), 5);
}

#[test]
fn zip_collect_after_some_steps_gives_the_rest() {
    let a = vec![1, 3, 5];
    let b = vec![2, 4];

    let mut zip = ZipSortIterator::new(&a, &b);
    assert_eq!(zip.next(), Some(&1));
    assert_eq!(zip.next(), Some(&2));
    assert_eq!(zip.collect(), vec![&3, &4, &5]);
}

#[test]
fn zip_keeps_every_element_of_unsorted_input() {
    let a = vec![5, 1, 4];
    let b = vec![3, 9, 0];

    let out = ZipSortIterator::new(&a, &b).collect();
    assert_eq!(out, vec![&3, &5, &1, &4, &9, &0]);
    let mut got: Vec<i32> = out.into_iter().copied().collect();
    got.sort();
    assert_eq!(got, vec![0, 1, 3, 4, 5, 9]);
}

#[test]
fn zip_hands_out_references_into_the_inputs() {
    let a = vec![TimeStampNoCopy { time: 4, data: String::from("left") }];
    let b = vec![TimeStampNoCopy { time: 4, data: String::from("right") }];

    let mut zip = ZipSortIterator::new(&a, &b);
    let first = zip.next().unwrap();
    let second = zip.next().unwrap();
    assert!(std::ptr::eq(first, &a[0]));
    assert!(std::ptr::eq(second, &b[0]));
    assert_eq!(zip.next(), None);
}

#[test]
fn zip_output_is_sorted_and_complete() {
    let mut seed: u64 = 0x2545_f491_4f6c_dd1d;
    let mut a: Vec<u64> = Vec::new();
    let mut b: Vec<u64> = Vec::new();
    for i in 0..500u64 {
        seed = seed.wrapping_mul(6364136223846793005).wrapping_add(1442695040888963407);
        if (seed >> 33) % 3 == 0 {
            a.push(i / 4);
        } else {
            b.push(i / 4);
        }
        if (seed >> 40) % 5 == 0 {
            a.push(i / 4);
        }
    }

    let out = ZipSortIterator::new(&a, &b).collect();
    assert_eq!(out.len(), a.len() + b.len());
    assert!(out.windows(2).all(|w| w[0] <= w[1]));
    let mut expected: Vec<u64> = a.iter().chain(b.iter()).copied().collect();
    expected.sort();
    let got: Vec<u64> = out.into_iter().copied().collect();
    assert_eq!(got, expected);
}

#[test]
fn slice_source_yields_its_slice_front_to_back() {
    let items = vec![10, 20, 30];

    let mut source = SliceSource::new(&items);
    assert_eq!(source.next(), Some(&10));
    assert_eq!(source.next(), Some(&20));
    assert_eq!(source.next(), Some(&30));
    assert_eq!(source.next(), None);
    assert_eq!(source.next(), None);
}

#[test]
fn slice_source_over_nothing_yields_nothing() {
    let items: Vec<u8> = vec![];

    let mut source = SliceSource::new(&items);
    assert_eq!(source.next(), None);
}
