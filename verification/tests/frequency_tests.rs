use huffman::freq::{count_of, frequency};

#[test]
fn frequency_test_numbers() {
    // given:
    let numbers: Vec<u64> = vec![1, 2, 3, 3, 2, 3, 5];

    // when:
    let actual = frequency(&numbers);

    // then:
    assert_eq!(count_of(&actual, &1), 1);
    assert_eq!(count_of(&actual, &2), 2);
    assert_eq!(count_of(&actual, &3), 3);
    assert_eq!(count_of(&actual, &5), 1);
}

#[test]
fn frequency_test_chars() {
    // given:
    let m = "Hello World";

    // when:
    let chars: Vec<char> = m.chars().collect();
    let actual = frequency(&chars);

    // then:
    assert_eq!(count_of(&actual, &'H'), 1);
    assert_eq!(count_of(&actual, &'e'), 1);
    assert_eq!(count_of(&actual, &'l'), 3);
    assert_eq!(count_of(&actual, &'o'), 2);
}

#[test]
fn frequency_counts_sum_to_length() {
    let m = "Hello World";
    let chars: Vec<char> = m.chars().collect();
    let table = frequency(&chars);
    let total: u64 = table.iter().map(|e| e.1 as u64).sum();
    assert_eq!(total, chars.len() as u64);
    assert_eq!(table.len(), 8);
}

#[test]
fn frequency_absent_symbol_counts_zero() {
    let chars: Vec<char> = "abca".chars().collect();
    let table = frequency(&chars);
    assert_eq!(count_of(&table, &'z'), 0);
    assert_eq!(count_of(&table, &'a'), 2);
}

#[test]
fn frequency_empty_input_gives_empty_table() {
    let chars: Vec<char> = Vec::new();
    let table = frequency(&chars);
    assert!(table.is_empty());
}
