use binary::Binary;
use bls12_381::Scalar;
use ff::Field;
use rand::distributions::{Alphanumeric, Distribution, Standard};
use rand::thread_rng;
use std::collections::{BTreeMap, BTreeSet, BinaryHeap, HashMap, HashSet, LinkedList, VecDeque};

#[test]
fn test_string_binary() {
    let mut rng = thread_rng();
    let samples = 10000;
    for _i in 0..samples {
        let length: usize = Standard.sample(&mut rng);
        let length = length % 100;
        let s: String = Alphanumeric
            .sample_iter(&mut rng)
            .take(length)
            .map(char::from)
            .collect();
        assert_eq!(s, String::from_bytes(&s.to_bytes()).unwrap());
    }
}

#[test]
fn test_vec_binary() {
    let mut rng = thread_rng();
    let samples = 10000;
    for _i in 0..samples {
        let length: usize = Standard.sample(&mut rng);
        let length = length % 100;
        let v: Vec<u8> = Standard.sample_iter(&mut rng).take(length).collect();
        assert_eq!(v, <Vec<u8> as Binary>::from_bytes(&v.to_bytes()).unwrap());
    }
}

#[test]
fn test_heap_binary() {
    let mut rng = thread_rng();
    let samples = 10000;
    for _i in 0..samples {
        let length: usize = Standard.sample(&mut rng);
        let length = length % 100;
        let v: BinaryHeap<u8> = Standard.sample_iter(&mut rng).take(length).collect();
        let items: Vec<u8> = v.iter().copied().collect();
        let back: BinaryHeap<u8> = <Vec<u8> as Binary>::from_bytes(&items.to_bytes())
            .unwrap()
            .into_iter()
            .collect();
        assert_eq!(
            v.iter().collect::<Vec<_>>(),
            back.iter().collect::<Vec<_>>()
        );
    }
}

#[test]
fn test_btreeset_binary() {
    let mut rng = thread_rng();
    let samples = 10000;
    for _i in 0..samples {
        let length: usize = Standard.sample(&mut rng);
        let length = length % 100;
        let v: BTreeSet<i32> = Standard.sample_iter(&mut rng).take(length).collect();
        assert_eq!(
            v,
            <BTreeSet<i32> as Binary>::from_bytes(&v.to_bytes()).unwrap()
        );
    }
}

#[test]
fn test_hashset_binary() {
    let mut rng = thread_rng();
    let samples = 10000;
    for _i in 0..samples {
        let length: usize = Standard.sample(&mut rng);
        let length = length % 100;
        let v: HashSet<i32> = Standard.sample_iter(&mut rng).take(length).collect();
        assert_eq!(
            v,
            <HashSet<i32> as Binary>::from_bytes(&v.to_bytes()).unwrap()
        );
    }
}

#[test]
fn test_btreemap_binary() {
    let mut rng = thread_rng();
    let samples = 10000;
    for _i in 0..samples {
        let length: usize = Standard.sample(&mut rng);
        let length = length % 100;
        let keys: Vec<u64> = Standard.sample_iter(&mut rng).take(length).collect();
        let v: BTreeMap<u64, u128> = keys
            .iter()
            .copied()
            .zip(Standard.sample_iter(&mut rng))
            .take(length)
            .collect();
        assert_eq!(
            v,
            <BTreeMap<u64, u128> as Binary>::from_bytes(&v.to_bytes()).unwrap()
        );
    }
}

#[test]
fn test_hashmap_binary() {
    let mut rng = thread_rng();
    let samples = 10000;
    for _i in 0..samples {
        let length: usize = Standard.sample(&mut rng);
        let length = length % 100;
        let keys: Vec<u64> = Standard.sample_iter(&mut rng).take(length).collect();
        let v: HashMap<u64, u128> = keys
            .iter()
            .copied()
            .zip(Standard.sample_iter(&mut rng))
            .take(length)
            .collect();
        assert_eq!(
            v,
            <HashMap<u64, u128> as Binary>::from_bytes(&v.to_bytes()).unwrap()
        );
    }
}

#[test]
fn test_linkedlist_binary() {
    let mut rng = thread_rng();
    let samples = 10000;
    for _i in 0..samples {
        let length: usize = Standard.sample(&mut rng);
        let length = length % 100;
        let v: LinkedList<i32> = Standard.sample_iter(&mut rng).take(length).collect();
        let items: Vec<i32> = v.iter().copied().collect();
        let back: LinkedList<i32> = <Vec<i32> as Binary>::from_bytes(&items.to_bytes())
            .unwrap()
            .into_iter()
            .collect();
        assert_eq!(v, back);
    }
}

#[test]
fn test_vecdeque_binary() {
    let mut rng = thread_rng();
    let samples = 10000;
    for _i in 0..samples {
        let length: usize = Standard.sample(&mut rng);
        let length = length % 100;
        let v: VecDeque<i32> = Standard.sample_iter(&mut rng).take(length).collect();
        assert_eq!(
            v,
            <VecDeque<i32> as Binary>::from_bytes(&v.to_bytes()).unwrap()
        );
    }
}

#[test]
fn test_array() {
    let mut rng = thread_rng();
    let samples = 1000;
    for _i in 0..samples {
        let array = {
            let mut array = [0u64; 1000];
            for i in 0..1000 {
                array[i] = Standard.sample(&mut rng);
            }
            array
        };
        assert_eq!(
            array,
            <[u64; 1000] as Binary>::from_bytes(&array.to_bytes()).unwrap()
        );
    }
}

#[test]
fn test_tuple() {
    let mut rng = thread_rng();
    let samples = 10000;
    for _i in 0..samples {
        let t: (u128, char) = (Standard.sample(&mut rng), Standard.sample(&mut rng));
        assert_eq!(
            t,
            <(u128, char) as Binary>::from_bytes(&t.to_bytes()).unwrap()
        );
        let x: i128 = Standard.sample(&mut rng);
        let t = (t.0, t.1, x);
        assert_eq!(
            t,
            <(u128, char, i128) as Binary>::from_bytes(&t.to_bytes()).unwrap()
        );
    }
}

#[test]
fn test_nested() {
    let mut rng = thread_rng();
    let samples = 100;
    for _i in 0..samples {
        let mut m = BTreeMap::new();
        for _j in 0..100 {
            let n: u64 = Standard.sample(&mut rng);
            let n = n % 100;
            m.insert(n, Scalar::random(&mut rng));
        }
        let n: BTreeMap<u64, Scalar> = m;
        assert_eq!(
            n,
            <BTreeMap<u64, Scalar> as Binary>::from_bytes(&n.to_bytes()).unwrap()
        );
    }
}

#[test]
fn string_is_count_and_utf8() {
    let s = String::from("ab");
    let bytes = s.to_bytes();
    assert_eq!(bytes, vec![2u8, 0, 0, 0, 0, 0, 0, 0, 0x61, 0x62]);
    assert_eq!(String::from_bytes(&bytes), Some(s));
    assert_eq!(String::from_bytes(&bytes[..9]), None);
    assert!(String::parse(&bytes[..9]).is_none());
    assert!(String::parse(&bytes[..7]).is_none());
    assert_eq!(String::from("").to_bytes(), vec![0u8; 8]);
    assert_eq!(String::from_bytes(&[0u8; 8]), Some(String::new()));
    let e = String::from("é€");
    let bytes = e.to_bytes();
    assert_eq!(bytes, vec![5u8, 0, 0, 0, 0, 0, 0, 0, 0xc3, 0xa9, 0xe2, 0x82, 0xac]);
    assert_eq!(String::from_bytes(&bytes), Some(e));
}

#[test]
fn invalid_utf8_is_rejected() {
    let bytes = [2u8, 0, 0, 0, 0, 0, 0, 0, 0xff, 0xfe];
    assert_eq!(<Vec<u8> as Binary>::from_bytes(&bytes), Some(vec![0xff, 0xfe]));
    assert_eq!(String::from_bytes(&bytes), None);
    assert!(String::parse(&bytes).is_none());
    let cut = [1u8, 0, 0, 0, 0, 0, 0, 0, 0xc3, 0xa9];
    assert!(String::parse(&cut).is_none());
    let surrogate = [3u8, 0, 0, 0, 0, 0, 0, 0, 0xed, 0xa0, 0x80];
    assert!(String::parse(&surrogate).is_none());
    let overlong = [2u8, 0, 0, 0, 0, 0, 0, 0, 0xc0, 0x80];
    assert!(String::parse(&overlong).is_none());
}

#[test]
fn string_leaves_what_follows() {
    let bytes = [1u8, 0, 0, 0, 0, 0, 0, 0, 0x61, 0x62];
    let (s, rest) = String::parse(&bytes).unwrap();
    assert_eq!(s, "a");
    assert_eq!(rest, &[0x62u8]);
    assert_eq!(String::from_bytes(&bytes), None);
}

#[test]
fn vector_is_count_and_elements() {
    let v = vec![1u8, 2u8];
    let bytes = v.to_bytes();
    assert_eq!(bytes, vec![2u8, 0, 0, 0, 0, 0, 0, 0, 1, 2]);
    let (back, rest) = <Vec<u8> as Binary>::parse(&bytes).unwrap();
    assert_eq!(back, v);
    assert!(rest.is_empty());
    let w = vec![0x0102u16, 0x0304];
    assert_eq!(w.to_bytes(), vec![2u8, 0, 0, 0, 0, 0, 0, 0, 2, 1, 4, 3]);
    assert_eq!(Vec::<u32>::new().to_bytes(), vec![0u8; 8]);
    assert_eq!(<Vec<u32> as Binary>::from_bytes(&[0u8; 8]), Some(vec![]));
}

#[test]
fn vector_with_too_few_elements_fails() {
    assert!(<Vec<u8> as Binary>::parse(&[3u8, 0, 0, 0, 0, 0, 0, 0, 1, 2]).is_none());
    assert!(<Vec<u16> as Binary>::parse(&[1u8, 0, 0, 0, 0, 0, 0, 0, 1]).is_none());
    assert!(<Vec<u8> as Binary>::parse(&[0xffu8; 8]).is_none());
    assert!(<Vec<u8> as Binary>::parse(&[0u8; 7]).is_none());
    assert!(<Vec<bool> as Binary>::parse(&[2u8, 0, 0, 0, 0, 0, 0, 0, 1, 2]).is_none());
    assert_eq!(
        <Vec<bool> as Binary>::from_bytes(&[2u8, 0, 0, 0, 0, 0, 0, 0, 1, 0]),
        Some(vec![true, false])
    );
}

#[test]
fn nested_vectors_round_trip() {
    let v: Vec<Vec<String>> = vec![
        vec![],
        vec![String::from("a"), String::from("")],
        vec![String::from("xyz")],
    ];
    let bytes = v.to_bytes();
    assert_eq!(<Vec<Vec<String>> as Binary>::from_bytes(&bytes), Some(v));
    for len in 0..bytes.len() {
        assert!(<Vec<Vec<String>> as Binary>::from_bytes(&bytes[..len]).is_none());
    }
}

#[test]
fn array_has_no_count() {
    let a = [0x0102u16, 0x0304, 0x0506];
    assert_eq!(a.to_bytes(), vec![2u8, 1, 4, 3, 6, 5]);
    assert_eq!(<[u16; 3] as Binary>::from_bytes(&[2, 1, 4, 3, 6, 5]), Some(a));
    assert_eq!(<[u16; 3] as Binary>::from_bytes(&[2, 1, 4, 3, 6]), None);
    assert_eq!(<[u16; 3] as Binary>::from_bytes(&[2, 1, 4, 3, 6, 5, 0]), None);
    let (b, rest) = <[u16; 2] as Binary>::parse(&[2, 1, 4, 3, 6, 5]).unwrap();
    assert_eq!(b, [0x0102, 0x0304]);
    assert_eq!(rest, &[6u8, 5]);
    let none: [u64; 0] = [];
    assert_eq!(none.to_bytes(), Vec::<u8>::new());
    assert_eq!(<[u64; 0] as Binary>::from_bytes(&[]), Some(none));
    assert_eq!(<[bool; 2] as Binary>::from_bytes(&[1, 2]), None);
}

#[test]
fn tuple_is_its_components() {
    let t = (0x0102u16, true);
    assert_eq!(t.to_bytes(), vec![2u8, 1, 1]);
    assert_eq!(<(u16, bool) as Binary>::from_bytes(&[2, 1, 1]), Some(t));
    assert_eq!(<(u16, bool) as Binary>::from_bytes(&[2, 1, 2]), None);
    assert_eq!(<(u16, bool) as Binary>::from_bytes(&[2, 1]), None);
    let t3 = (1u8, String::from("a"), -1i16);
    assert_eq!(
        t3.to_bytes(),
        vec![1u8, 1, 0, 0, 0, 0, 0, 0, 0, 0x61, 0xff, 0xff]
    );
    assert_eq!(
        <(u8, String, i16) as Binary>::from_bytes(&t3.to_bytes()),
        Some(t3)
    );
    assert_eq!(().to_bytes(), Vec::<u8>::new());
    assert_eq!(<() as Binary>::from_bytes(&[]), Some(()));
    assert_eq!(<() as Binary>::from_bytes(&[0]), None);
    let (_, rest) = <() as Binary>::parse(&[7]).unwrap();
    assert_eq!(rest, &[7u8]);
}

#[test]
fn deque_is_written_front_to_back() {
    let mut d: VecDeque<u8> = VecDeque::new();
    d.push_back(2);
    d.push_back(3);
    d.push_front(1);
    assert_eq!(d.to_bytes(), vec![3u8, 0, 0, 0, 0, 0, 0, 0, 1, 2, 3]);
    assert_eq!(d.to_bytes(), vec![1u8, 2, 3].to_bytes());
    let back = <VecDeque<u8> as Binary>::from_bytes(&d.to_bytes()).unwrap();
    assert_eq!(back, d);
    assert!(<VecDeque<u8> as Binary>::parse(&[2u8, 0, 0, 0, 0, 0, 0, 0, 1]).is_none());
}

#[test]
fn ordered_containers_are_written_in_order() {
    let s: BTreeSet<u8> = [3u8, 1, 2].into_iter().collect();
    assert_eq!(s.to_bytes(), vec![3u8, 0, 0, 0, 0, 0, 0, 0, 1, 2, 3]);
    let m: BTreeMap<u8, u16> = [(2u8, 0x0202u16), (1, 0x0101)].into_iter().collect();
    assert_eq!(
        m.to_bytes(),
        vec![2u8, 0, 0, 0, 0, 0, 0, 0, 1, 1, 1, 2, 2, 2]
    );
}

#[test]
fn sets_and_maps_take_what_is_read_in_any_order() {
    let bytes = [3u8, 0, 0, 0, 0, 0, 0, 0, 3, 1, 3];
    let s = <BTreeSet<u8> as Binary>::from_bytes(&bytes).unwrap();
    assert_eq!(s, [1u8, 3].into_iter().collect());
    let h = <HashSet<u8> as Binary>::from_bytes(&bytes).unwrap();
    assert_eq!(h, [1u8, 3].into_iter().collect());
    let entries = [2u8, 0, 0, 0, 0, 0, 0, 0, 7, 1, 7, 2];
    let m = <BTreeMap<u8, u8> as Binary>::from_bytes(&entries).unwrap();
    assert_eq!(m, [(7u8, 2u8)].into_iter().collect());
    let h = <HashMap<u8, u8> as Binary>::from_bytes(&entries).unwrap();
    assert_eq!(h, [(7u8, 2u8)].into_iter().collect());
    assert!(<HashMap<u8, u8> as Binary>::from_bytes(&entries[..11]).is_none());
    assert!(<BTreeMap<u8, bool> as Binary>::from_bytes(&entries).is_none());
    assert!(<HashSet<u16> as Binary>::from_bytes(&bytes).is_none());
}

#[test]
fn hashed_containers_write_each_element_once() {
    let s: HashSet<u16> = [3u16, 1, 2, 3].into_iter().collect();
    let bytes = s.to_bytes();
    assert_eq!(bytes.len(), 8 + 3 * 2);
    assert_eq!(&bytes[..8], &[3u8, 0, 0, 0, 0, 0, 0, 0]);
    let listed = <Vec<u16> as Binary>::from_bytes(&bytes).unwrap();
    let again: HashSet<u16> = listed.iter().copied().collect();
    assert_eq!(listed.len(), 3);
    assert_eq!(again, s);
    let m: HashMap<u8, String> = [(1u8, String::from("a")), (2, String::from("bc"))]
        .into_iter()
        .collect();
    let bytes = m.to_bytes();
    let listed = <Vec<(u8, String)> as Binary>::from_bytes(&bytes).unwrap();
    assert_eq!(listed.len(), 2);
    assert_eq!(listed.into_iter().collect::<HashMap<u8, String>>(), m);
    assert_eq!(<HashMap<u8, String> as Binary>::from_bytes(&bytes), Some(m));
}

fn every_cut_fails<T: Binary>(value: &T) {
    let bytes = value.to_bytes();
    assert!(T::from_bytes(&bytes).is_some());
    for len in 0..bytes.len() {
        assert!(T::parse(&bytes[..len]).is_none());
        assert!(T::from_bytes(&bytes[..len]).is_none());
    }
    let mut longer = bytes.clone();
    longer.push(0);
    assert!(T::from_bytes(&longer).is_none());
    let (_, rest) = T::parse(&longer).unwrap();
    assert_eq!(rest, &[0u8]);
}

#[test]
fn no_proper_prefix_of_an_encoding_decodes() {
    every_cut_fails(&0x0102030405060708u64);
    every_cut_fails(&-3i128);
    every_cut_fails(&true);
    every_cut_fails(&'x');
    every_cut_fails(&String::from("héllo"));
    every_cut_fails(&(1u8, String::from("ab"), vec![1u16, 2, 3]));
    every_cut_fails(&[(1u8, true), (2, false)]);
    every_cut_fails(&vec![vec![1u32], vec![], vec![2, 3]]);
    every_cut_fails(&[1u8, 2].into_iter().collect::<VecDeque<u8>>());
    every_cut_fails(&[1u8, 2].into_iter().collect::<HashSet<u8>>());
    every_cut_fails(&[1u8, 2].into_iter().collect::<BTreeSet<u8>>());
    every_cut_fails(&[(1u8, 2u16)].into_iter().collect::<HashMap<u8, u16>>());
    every_cut_fails(&[(1u8, 2u16)].into_iter().collect::<BTreeMap<u8, u16>>());
    every_cut_fails(&blake3::hash(b"abc"));
    every_cut_fails(&Scalar::from(7u64));
}
