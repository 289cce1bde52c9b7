use transmuter::label::{rank, Rank};
use transmuter::table::OrderedTable;

#[test]
fn rank_is_the_order_of_str() {
    let samples = ["", "a", "ab", "b", "B", "é", "z", "zz", "日本", "a\u{10FFFF}"];
    for x in samples {
        for y in samples {
            let expected = match x.cmp(y) {
                std::cmp::Ordering::Less => Rank::Before,
                std::cmp::Ordering::Equal => Rank::Same,
                std::cmp::Ordering::Greater => Rank::After,
            };
            assert_eq!(rank(x, y), expected);
        }
    }
}

#[test]
fn table_inserts_in_order_and_removes() {
    let mut table: OrderedTable<u32> = OrderedTable::new();
    assert_eq!(table.insert("m".to_string(), 1), None);
    assert_eq!(table.insert("a".to_string(), 2), None);
    assert_eq!(table.insert("z".to_string(), 3), None);
    assert_eq!(table.insert("n".to_string(), 9), None);
    assert_eq!(table.insert("n".to_string(), 4), Some(9));
    assert_eq!(table.len(), 4);
    assert_eq!(table.position("n"), Some(2));
    assert_eq!(table.position("q"), None);
    assert_eq!(*table.value_at(2), 4);
    table.set_value_at(2, 40);
    *table.value_at_mut(0) += 5;
    assert_eq!(table.remove_at(1), 1);
    assert_eq!(table.key_at(1), "n");
    let copy = table.snapshot();
    assert_eq!(copy, table);
    assert_eq!(
        table.into_entries(),
        vec![
            ("a".to_string(), 7),
            ("n".to_string(), 40),
            ("z".to_string(), 3)
        ]
    );
}
