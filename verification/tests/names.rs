use fsplitter::names::{chunk_suffix, has_prefix, merge_order, order_key, OrderingError};

fn name_of(base: &str, index: u64) -> Vec<u8> {
    let mut name = base.as_bytes().to_vec();
    name.push(b'.');
    name.extend(chunk_suffix(index));
    name
}

#[test]
fn order_key_is_the_number_after_the_last_dot() {
    assert_eq!(order_key(b"output.spl.0"), Ok(0));
    assert_eq!(order_key(b"output.spl.1"), Ok(1));
    assert_eq!(order_key(b"output.spl.12"), Ok(12));
    assert_eq!(order_key(b"a.5.77"), Ok(77));
    assert_eq!(order_key(b".hidden.3"), Ok(3));
}

#[test]
fn order_key_takes_leading_zeros_and_a_plus() {
    assert_eq!(order_key(b"a.007"), Ok(7));
    assert_eq!(order_key(b"a.+7"), Ok(7));
    assert_eq!(order_key(b"a.+0"), Ok(0));
}

#[test]
fn order_key_without_a_suffix_is_zero() {
    assert_eq!(order_key(b"output"), Ok(0));
    assert_eq!(order_key(b""), Ok(0));
    assert_eq!(order_key(b".hidden"), Ok(0));
    assert_eq!(order_key(b"."), Ok(0));
    assert_eq!(order_key(b".."), Ok(0));
    assert_eq!(order_key(b".7"), Ok(0));
}

#[test]
fn order_key_refuses_a_suffix_that_is_no_number() {
    let names: [&[u8]; 12] = [
        b"output.spl",
        b"output.",
        b"a..",
        b"a.+",
        b"a.-1",
        b"a.1x",
        b"a.x1",
        b"a.1 ",
        b"a. 1",
        b"a.++1",
        b"a.1+",
        b"a.\xff",
    ];
    for name in names {
        assert_eq!(order_key(name), Err(OrderingError { name: name.to_vec() }));
    }
}

#[test]
fn order_key_goes_up_to_the_largest_u64() {
    assert_eq!(order_key(b"a.18446744073709551615"), Ok(u64::MAX));
    assert_eq!(order_key(b"a.018446744073709551615"), Ok(u64::MAX));
    assert_eq!(
        order_key(b"a.18446744073709551616"),
        Err(OrderingError { name: b"a.18446744073709551616".to_vec() })
    );
    assert_eq!(
        order_key(b"a.184467440737095516150"),
        Err(OrderingError { name: b"a.184467440737095516150".to_vec() })
    );
    assert_eq!(
        order_key(b"a.99999999999999999999"),
        Err(OrderingError { name: b"a.99999999999999999999".to_vec() })
    );
}

#[test]
fn has_prefix_compares_the_beginning() {
    assert!(has_prefix(b"output.spl.0", b"output.spl"));
    assert!(has_prefix(b"output.spl", b"output.spl"));
    assert!(has_prefix(b"output.spl", b""));
    assert!(has_prefix(b"", b""));
    assert!(!has_prefix(b"output.sp", b"output.spl"));
    assert!(!has_prefix(b"", b"o"));
    assert!(!has_prefix(b"xoutput.spl", b"output.spl"));
    assert!(!has_prefix(b"outpuT.spl.0", b"output.spl"));
}

#[test]
fn chunk_suffix_is_the_index_in_decimal() {
    assert_eq!(chunk_suffix(0), b"0");
    assert_eq!(chunk_suffix(7), b"7");
    assert_eq!(chunk_suffix(9), b"9");
    assert_eq!(chunk_suffix(10), b"10");
    assert_eq!(chunk_suffix(101), b"101");
    assert_eq!(chunk_suffix(1048576), b"1048576");
    assert_eq!(chunk_suffix(u64::MAX), b"18446744073709551615");
}

#[test]
fn chunk_names_sort_by_their_index() {
    let indices = [0, 1, 2, 9, 10, 11, 99, 100, 12345, u64::MAX - 1, u64::MAX];
    for index in indices {
        let name = name_of("output.spl", index);
        assert_eq!(order_key(&name), Ok(index));
        assert!(has_prefix(&name, b"output.spl"));
    }
    assert_eq!(name_of("output.spl", 3), b"output.spl.3");
    assert_eq!(name_of("output", 12), b"output.12");
}

fn names_of(names: &[&str]) -> Vec<Vec<u8>> {
    names.iter().map(|name| name.as_bytes().to_vec()).collect()
}

#[test]
fn merge_order_picks_by_prefix_and_sorts_by_number() {
    let names = names_of(&["out.2", "other.0", "out.0", "out.10", "ou.5", "out.1"]);
    assert_eq!(merge_order(&names, b"out"), Ok(vec![2, 5, 0, 3]));
}

#[test]
fn merge_order_counts_in_numbers_not_in_letters() {
    let names = names_of(&["a.10", "a.9", "a.100", "a.1"]);
    assert_eq!(merge_order(&names, b"a"), Ok(vec![3, 1, 0, 2]));
}

#[test]
fn merge_order_keeps_the_given_order_among_equal_numbers() {
    let names = names_of(&["a.1", "a", "a.0", "a.01", "a.+1", "a.00"]);
    assert_eq!(merge_order(&names, b"a"), Ok(vec![1, 2, 5, 0, 3, 4]));
}

#[test]
fn merge_order_of_no_names_is_empty() {
    assert_eq!(merge_order(&[], b"out"), Ok(vec![]));
    assert_eq!(merge_order(&names_of(&["a.0", "b.1"]), b"out"), Ok(vec![]));
}

#[test]
fn merge_order_with_an_empty_prefix_takes_every_name() {
    let names = names_of(&["b.1", "a.0", "c"]);
    assert_eq!(merge_order(&names, b""), Ok(vec![1, 2, 0]));
}

#[test]
fn merge_order_refuses_the_first_name_without_a_number() {
    let names = names_of(&["out.1", "out.x", "out.0", "out.y"]);
    assert_eq!(merge_order(&names, b"out"), Err(OrderingError { name: b"out.x".to_vec() }));
}

#[test]
fn merge_order_passes_over_names_that_it_does_not_pick() {
    let names = names_of(&["zzz.x", "out.1", "ou.t", "out.0"]);
    assert_eq!(merge_order(&names, b"out"), Ok(vec![3, 1]));
}

#[test]
fn merge_order_puts_the_chunks_of_a_split_back_in_line() {
    let mut names = vec![];
    for index in [11_u64, 3, 0, 10, 2, 1, 9, 4, 8, 5, 7, 6] {
        names.push(name_of("output.spl", index));
    }
    let order = merge_order(&names, b"output.spl").unwrap();
    let sorted: Vec<Vec<u8>> = order.into_iter().map(|i| names[i].clone()).collect();
    let expected: Vec<Vec<u8>> = (0..12).map(|index| name_of("output.spl", index)).collect();
    assert_eq!(sorted, expected);
}
