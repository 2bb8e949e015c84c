use sherlock::order::ascending;
use sherlock::order::heaviest;
use sherlock::sites::SiteTable;
use sherlock::text::decimal_text;
use sherlock::text::parse_decimal;
use sherlock::text::push_hex;
use sherlock::text::push_replaced;
use sherlock::text::raw_address_text;

#[test]
fn numbers_are_written_and_read_back() {
    for n in [0u64, 9, 10, 255, 4096, u64::MAX] {
        assert_eq!(decimal_text(n), format!("{n}"));
        let mut hex = String::new();
        push_hex(&mut hex, n);
        assert_eq!(hex, format!("{n:x}"));
        assert_eq!(parse_decimal(&decimal_text(n), u64::MAX), Some(n));
    }
    assert_eq!(raw_address_text(0xBEEF), "0xbeef");
}

#[test]
fn numbers_are_read_as_the_standard_library_does() {
    for text in ["", "+", "-1", "+7", "007", "18446744073709551616", "1a", " 1", "18446744073709551615"] {
        assert_eq!(parse_decimal(text, u64::MAX), text.parse::<u64>().ok(), "{text}");
        assert_eq!(parse_decimal(text, 255), text.parse::<u8>().ok().map(u64::from), "{text}");
    }
}

#[test]
fn characters_are_replaced() {
    let mut out = "x".to_string();
    push_replaced(&mut out, "a;b;;c", ';', ':');
    assert_eq!(out, "xa:b::c");
}

#[test]
fn equal_keys_keep_their_order() {
    assert_eq!(ascending(&vec![3, 1, 3, 2, 1]), vec![1, 4, 3, 0, 2]);
    assert_eq!(heaviest(&vec![3, 1, 3, 2, 0], 1, 3), vec![0, 2, 3]);
    assert_eq!(heaviest(&vec![3, 1, 3, 2, 0], 2, 9), vec![0, 2, 3]);
    assert_eq!(heaviest(&vec![0, 0], 0, 1), vec![0]);
}

#[test]
fn tables_keep_the_first_place_of_a_label() {
    let mut table: SiteTable<u64> = SiteTable::new();
    table.put("b", 1);
    table.put("a", 2);
    table.put("b", 3);
    assert_eq!(table.len(), 2);
    assert_eq!(table.position("a"), Some(1));
    assert_eq!(table.position("c"), None);
    assert_eq!((table.label(0).as_str(), *table.value(0)), ("b", 3));
    *table.value_mut(1) += 5;
    table.set(0, 9);
    assert_eq!((*table.value(0), *table.value(1)), (9, 7));
}
