use hallvardns::text::{
    ascii_lowercase, byte_order, lookup_host, same_text, sorted_contains, text_or_blank, Order,
};
use hallvardns::wifi::{link_action, LinkAction};
use hallvardns::wire::read_question_name;

#[test]
fn lowercase_folds_only_ascii_letters() {
    assert_eq!(ascii_lowercase(b'A'), b'a');
    assert_eq!(ascii_lowercase(b'Z'), b'z');
    assert_eq!(ascii_lowercase(b'a'), b'a');
    assert_eq!(ascii_lowercase(b'@'), b'@');
    assert_eq!(ascii_lowercase(b'['), b'[');
    assert_eq!(ascii_lowercase(0xc4), 0xc4);
    for c in 0..=255u8 {
        assert_eq!(ascii_lowercase(c), c.to_ascii_lowercase());
    }
}

#[test]
fn bytes_read_as_text_when_utf8() {
    assert_eq!(text_or_blank(b"server.lan"), "server.lan");
    assert_eq!(text_or_blank("é.fr".as_bytes()), "é.fr");
    assert_eq!(text_or_blank(&[0x61, 0xff]), "");
    assert_eq!(text_or_blank(&[]), "");
}

#[test]
fn byte_order_is_lexicographic() {
    assert_eq!(byte_order(b"abc", b"abc"), Order::Same);
    assert_eq!(byte_order(b"abc", b"abd"), Order::Before);
    assert_eq!(byte_order(b"abd", b"abc"), Order::After);
    assert_eq!(byte_order(b"ab", b"abc"), Order::Before);
    assert_eq!(byte_order(b"abc", b"ab"), Order::After);
    assert_eq!(byte_order(b"", b""), Order::Same);
    assert_eq!(byte_order(b"b", b"abc"), Order::After);
    assert_eq!("ab".cmp("abc"), std::cmp::Ordering::Less);
}

#[test]
fn sorted_search_finds_exactly_the_listed() {
    let list = vec!["ads.example", "doubleclick.net", "tracker.io", "zz.top"];
    for entry in &list {
        assert!(sorted_contains(&list, entry.as_bytes()));
    }
    assert!(!sorted_contains(&list, b"example"));
    assert!(!sorted_contains(&list, b"a"));
    assert!(!sorted_contains(&list, b"zzz"));
    assert!(!sorted_contains(&list, b"tracker.i"));
    assert!(!sorted_contains(&Vec::new(), b"x"));
}

#[test]
fn same_text_compares_whole_texts() {
    assert!(same_text("server.lan", "server.lan"));
    assert!(!same_text("server.lan", "server.la"));
    assert!(!same_text("Server.lan", "server.lan"));
}

#[test]
fn lookup_gives_the_first_match() {
    let table = vec![("a.lan", [1, 1, 1, 1]), ("b.lan", [2, 2, 2, 2]), ("a.lan", [3, 3, 3, 3])];
    assert_eq!(lookup_host(&table, "a.lan"), Some([1, 1, 1, 1]));
    assert_eq!(lookup_host(&table, "b.lan"), Some([2, 2, 2, 2]));
    assert_eq!(lookup_host(&table, "c.lan"), None);
}

#[test]
fn question_name_reads_labels_after_the_header() {
    let mut p = vec![0u8; 12];
    p.extend_from_slice(&[3, b'F', b'o', b'O', 2, b'b', b'R', 0, 0, 1]);
    let (name, len, next) = read_question_name(&p).expect("a name");
    assert_eq!(&name[..len], b"foo.br");
    assert_eq!(next, 20);
    assert!(read_question_name(&p[..11]).is_none());
    assert!(read_question_name(&p[..19]).is_none());
}

#[test]
fn wifi_connects_when_down_and_waits_when_up() {
    assert_eq!(link_action(false), LinkAction::Connect);
    assert_eq!(link_action(true), LinkAction::AwaitDisconnect);
}
