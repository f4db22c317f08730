use osmpbf::StringTable;

#[test]
fn test_simple_insert_push() {
    let mut st = StringTable::new();
    assert_eq!(st.push("hello"), 0);
    assert_eq!(st.insert("world"), 6);
    assert_eq!(st.insert("world"), 6);
    assert_eq!(st.push("!"), 6 + 6);
    assert_eq!(st.insert("!"), 6 + 6);
    assert_eq!(st.insert("!"), 6 + 6);

    let bytes = st.into_bytes();
    println!("{}", ::std::str::from_utf8(&bytes).unwrap());
    assert_eq!(bytes, b"hello\0world\0!\0");
}

#[test]
fn empty_table_has_no_bytes() {
    let st = StringTable::new();
    assert_eq!(st.next_index(), 0);
    assert_eq!(st.into_bytes(), Vec::<u8>::new());
}

#[test]
fn simple_interleave_gives_fourteen_bytes() {
    let mut st = StringTable::new();
    assert_eq!(st.push("hello"), 0);
    assert_eq!(st.insert("world"), 6);
    assert_eq!(st.insert("world"), 6);
    assert_eq!(st.push("!"), 12);
    assert_eq!(st.insert("!"), 12);
    assert_eq!(st.next_index(), 14);
    let bytes = st.into_bytes();
    assert_eq!(bytes.len(), 14);
    assert_eq!(bytes, b"hello\0world\0!\0".to_vec());
}

#[test]
fn insert_twice_returns_same_index() {
    let mut st = StringTable::new();
    st.insert("a");
    let first = st.insert("highway");
    let size = st.next_index();
    let second = st.insert("highway");
    assert_eq!(first, 2);
    assert_eq!(first, second);
    assert_eq!(st.next_index(), size);
}

#[test]
fn push_always_appends() {
    let mut st = StringTable::new();
    assert_eq!(st.push("k"), 0);
    assert_eq!(st.push("k"), 2);
    assert_eq!(st.push("k"), 4);
    assert_eq!(st.insert("k"), 0);
    assert_eq!(st.into_bytes(), b"k\0k\0k\0".to_vec());
}

#[test]
fn push_sequence_is_contiguous() {
    let words = ["name", "", "amenity", "cafe", "name"];
    let mut st = StringTable::new();
    let mut index: u32 = 0;
    let mut expected: Vec<u8> = Vec::new();
    for w in words.iter() {
        assert_eq!(st.push(w), index);
        index += w.len() as u32 + 1;
        expected.extend(w.as_bytes());
        expected.push(0);
    }
    assert_eq!(st.next_index(), index);
    assert_eq!(st.into_bytes(), expected);
}

#[test]
fn indices_point_at_their_strings() {
    let mut st = StringTable::new();
    let inputs = ["straße", "a", "straße", "ß", "b"];
    let mut found: Vec<(u32, &str)> = Vec::new();
    for (k, s) in inputs.iter().enumerate() {
        let idx = if k % 2 == 0 { st.insert(s) } else { st.push(s) };
        found.push((idx, s));
    }
    let total = st.next_index();
    let bytes = st.into_bytes();
    assert_eq!(bytes.len() as u32, total);
    for (idx, s) in found {
        let start = idx as usize;
        let end = start + s.len();
        assert_eq!(&bytes[start..end], s.as_bytes());
        assert_eq!(bytes[end], 0);
    }
    assert_eq!(total, 8 + 2 + 3 + 2);
}

#[test]
fn push_after_insert_keeps_first_index() {
    let mut st = StringTable::new();
    assert_eq!(st.insert("x"), 0);
    assert_eq!(st.push("x"), 2);
    assert_eq!(st.insert("x"), 0);
    assert_eq!(st.into_bytes(), b"x\0x\0".to_vec());
}
