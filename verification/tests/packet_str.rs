use nebula::packet::{from_packet, to_packet, PacketError, ValueType};

fn s(text: &str) -> ValueType {
    ValueType::STRING(text.to_owned())
}

fn list(entries: Vec<(&str, ValueType)>) -> ValueType {
    ValueType::LIST(entries.into_iter().map(|(k, v)| (k.to_owned(), v)).collect())
}

fn sample_graph() -> ValueType {
    list(vec![
        (
            "key1",
            list(vec![
                ("key2", list(vec![])),
                ("key3", s("val1")),
                ("key4", s("val2")),
            ]),
        ),
        ("key5", s("val3")),
        ("key6", list(vec![("key7", s("val4"))])),
    ])
}

#[test]
fn test_get_from_packet_str() {
    let data_1 = "[ key1 [ key2 [ ] key3 val1 key4 val2 ] key5 val3 key6 [ key7 val4 ] ]"
        .as_bytes()
        .to_vec();
    let graph_1 = from_packet(data_1).unwrap();
    let graph_2 = sample_graph();
    assert_eq!(graph_1, graph_2)
}

#[test]
fn graph_to_str_to_graph() {
    let graph_1 = sample_graph();
    let returned_graph = from_packet(to_packet(graph_1.clone())).unwrap();
    assert_eq!(graph_1, returned_graph)
}

#[test]
fn to_packet_writes_entries_in_order() {
    let graph = list(vec![("a", s("1")), ("b", list(vec![("c", s("2"))])), ("d", list(vec![]))]);
    assert_eq!(to_packet(graph), b"[ a 1 b [ c 2 ] d [ ] ]".to_vec());
}

#[test]
fn from_packet_rejects_invalid_utf8() {
    assert_eq!(from_packet(vec![b'[', b' ', 0xff, b' ', b']']), Err(PacketError::InvalidUtf8));
}

#[test]
fn from_packet_last_entry_wins() {
    let graph = from_packet(b"[ k 1 k 2 ]".to_vec()).unwrap();
    assert_eq!(graph, list(vec![("k", s("2"))]));
    assert_ne!(graph, list(vec![("k", s("1"))]));
}

#[test]
fn from_packet_stops_at_first_close() {
    let graph = from_packet(b"[ a b ] c d".to_vec()).unwrap();
    assert_eq!(graph, list(vec![("a", s("b"))]));
}

#[test]
fn from_packet_of_empty_text_is_empty_list() {
    assert_eq!(from_packet(Vec::new()).unwrap(), list(vec![]));
}

#[test]
fn equality_ignores_entry_order() {
    let a = list(vec![("x", s("1")), ("y", list(vec![("z", s("2"))]))]);
    let b = list(vec![("y", list(vec![("z", s("2"))])), ("x", s("1"))]);
    assert_eq!(a, b);
    assert_ne!(a, list(vec![("x", s("1"))]));
    assert_ne!(s("1"), list(vec![]));
}

#[test]
fn unicode_words_round_trip() {
    let graph = list(vec![("名前", s("значение")), ("ключ", list(vec![("k", s("ü"))]))]);
    assert_eq!(from_packet(to_packet(graph.clone())).unwrap(), graph);
}
