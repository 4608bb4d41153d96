use badger_core::errors::Error;
use badger_core::skl::SkipList;
use badger_core::value::ValueStruct;

const ARENA_SIZE: usize = 1 << 20;

fn new_value(v: usize) -> String {
    format!("{:05}", v)
}

fn val(bytes: &[u8]) -> ValueStruct {
    ValueStruct::new(bytes.to_vec(), 0, 0, 0)
}

#[test]
fn t_empty() {
    let key = b"aaa";
    let mut st = SkipList::new(1024);
    let v = st.get(key);
    assert!(v.is_none());

    for (_, less) in vec![(true, false)] {
        for (_, allow_equal) in vec![(true, false)] {
            let node = st.find_near(key, less, allow_equal);
            assert!(node.0.is_none());
            assert_eq!(node.1, false);
        }
    }

    let mut cursor = st.new_cursor();
    assert!(!cursor.valid());

    cursor.seek_for_first(&st);
    assert!(!cursor.valid());

    cursor.seek_for_last(&st);
    assert!(!cursor.valid());

    assert!(cursor.seek(&st, key).is_none());

    st.decr_ref();
    assert!(st.valid());

    cursor.close(&mut st);
    assert!(!cursor.valid());
}

#[test]
fn t_() {
    let st = SkipList::new(1000 * 1024);
    assert!(st.valid());
}

#[test]
fn t_basic() {
    let mut st = SkipList::new(ARENA_SIZE);
    let val1 = new_value(42).as_bytes().to_vec();
    st.put(b"key1", ValueStruct::new(val1, 55, 0, 60000)).unwrap();
    let got = st.get(b"key1").unwrap();
    assert_eq!(got.value, new_value(42).as_bytes().to_vec());
    assert_eq!(got.meta, 55);
    assert_eq!(got.user_meta, 0);
    assert_eq!(got.cas_counter, 60000);
}

#[test]
fn get_after_put_same_thread() {
    let mut st = SkipList::new(ARENA_SIZE);
    for i in 0..100usize {
        let k = format!("k{:04}", i);
        let v = format!("v{:04}", i);
        st.put(k.as_bytes(), val(v.as_bytes())).unwrap();
        let got = st.get(k.as_bytes()).unwrap();
        assert_eq!(got.value, v.as_bytes().to_vec());
    }
}

#[test]
fn overwrite_returns_latest() {
    let mut st = SkipList::new(ARENA_SIZE);
    st.put(b"k", val(b"v1")).unwrap();
    st.put(b"k", val(b"v2")).unwrap();
    let got = st.get(b"k").unwrap();
    assert_eq!(got.value, b"v2".to_vec());
    assert!(!st.empty());
}

#[test]
fn cursor_scenario() {
    let mut st = SkipList::new(ARENA_SIZE);
    st.put(b"key1", val(b"v1")).unwrap();
    st.put(b"key3", val(b"v3")).unwrap();
    st.put(b"key2", val(b"v2")).unwrap();

    let mut cursor = st.new_cursor();
    cursor.seek_for_first(&st);
    assert!(cursor.valid());
    assert_eq!(cursor.key(&st), b"key1".to_vec());
    assert_eq!(cursor.value(&st).value, b"v1".to_vec());
    cursor.next(&st);
    assert_eq!(cursor.key(&st), b"key2".to_vec());
    assert_eq!(cursor.value(&st).value, b"v2".to_vec());
    cursor.next(&st);
    assert_eq!(cursor.key(&st), b"key3".to_vec());
    assert_eq!(cursor.value(&st).value, b"v3".to_vec());
    cursor.next(&st);
    assert!(!cursor.valid());

    let sought = cursor.seek(&st, b"key2").unwrap();
    assert_eq!(sought.value, b"v2".to_vec());

    let prev = cursor.seek_for_prev(&st, b"key2\xff").unwrap();
    assert_eq!(prev.value, b"v2".to_vec());
    assert_eq!(cursor.key(&st), b"key2".to_vec());

    cursor.prev(&st);
    assert_eq!(cursor.key(&st), b"key1".to_vec());
    cursor.prev(&st);
    assert!(!cursor.valid());

    cursor.seek_for_last(&st);
    assert_eq!(cursor.key(&st), b"key3".to_vec());

    cursor.close(&mut st);
}

#[test]
fn ordered_iteration_over_interleaved_ranges() {
    // a sequential shape of the concurrent-writers scenario: several
    // disjoint key ranges inserted interleaved, reads seeing each put at
    // once, and the final cursor walk in global order
    let mut st = SkipList::new(ARENA_SIZE);
    let writers = 8usize;
    let per_writer = 100usize;
    for i in 0..per_writer {
        for w in 0..writers {
            let k = format!("w{}k{:04}", w, i);
            let v = format!("val-{}-{}", w, i);
            st.put(k.as_bytes(), val(v.as_bytes())).unwrap();
            let got = st.get(k.as_bytes()).unwrap();
            assert_eq!(got.value, v.as_bytes().to_vec());
        }
    }
    let mut cursor = st.new_cursor();
    cursor.seek_for_first(&st);
    let mut count = 0usize;
    let mut last: Vec<u8> = Vec::new();
    while cursor.valid() {
        let k = cursor.key(&st);
        assert!(last < k);
        last = k;
        count += 1;
        cursor.next(&st);
    }
    assert_eq!(count, writers * per_writer);
    cursor.close(&mut st);
}

#[test]
fn capacity_exhausted_propagates() {
    let mut st = SkipList::new(128);
    let before = st.mem_size();
    let r = st.put(b"key", val(b"value"));
    assert_eq!(r, Err(Error::CapacityExhausted));
    assert_eq!(st.mem_size(), before);
    assert!(st.get(b"key").is_none());
    assert!(st.empty());
}

#[test]
fn mem_size_grows_and_find_near_bounds() {
    let mut st = SkipList::new(ARENA_SIZE);
    let before = st.mem_size();
    st.put(b"b", val(b"1")).unwrap();
    assert!(st.mem_size() > before);

    st.put(b"d", val(b"2")).unwrap();
    // leftmost node at or above the key
    let (n, exact) = st.find_near(b"c", false, true);
    assert!(n.is_some());
    assert!(!exact);
    let (n2, exact2) = st.find_near(b"d", false, true);
    assert!(n2.is_some());
    assert!(exact2);
    // rightmost node strictly below the key
    let (n3, exact3) = st.find_near(b"c", true, false);
    assert!(n3.is_some());
    assert!(!exact3);
    let (n4, _) = st.find_near(b"a", true, false);
    assert!(n4.is_none());
}
