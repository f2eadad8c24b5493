use graph_centrality::text::{same_text, text_before};

#[test]
fn same_text_compares_characters() {
    assert!(same_text("", ""));
    assert!(same_text("Toyota", "Toyota"));
    assert!(!same_text("Toyota", "toyota"));
    assert!(!same_text("Toyota", "Toyot"));
    assert!(!same_text("", "a"));
    assert!(same_text("caf\u{e9}", "caf\u{e9}"));
    assert!(!same_text("caf\u{e9}", "cafe\u{301}"));
}

#[test]
fn text_before_is_the_order_of_str() {
    let texts = ["", "A", "Audi", "Audi ", "B", "a", "ab", "b", "\u{e9}", "\u{ffff}", "\u{1F600}"];
    for a in texts {
        for b in texts {
            assert_eq!(text_before(a, b), a < b, "{:?} and {:?}", a, b);
        }
    }
}

#[test]
fn prefix_comes_first() {
    assert!(text_before("Hond", "Honda"));
    assert!(!text_before("Honda", "Hond"));
    assert!(!text_before("Honda", "Honda"));
    assert!(text_before("", "a"));
    assert!(!text_before("", ""));
}
