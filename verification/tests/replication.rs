use bionic_graph::replication::{parse_decimal_u64, write_op_of};
use bionic_graph::storage::types::OpType;

#[test]
fn creates_are_replicated_with_the_response_id() {
    assert_eq!(write_op_of("POST", "/vertices", Some(5)), Some((OpType::VertexCreate, 5)));
    assert_eq!(write_op_of("POST", "/vertices/batch", Some(6)), Some((OpType::VertexCreate, 6)));
    assert_eq!(write_op_of("POST", "/edges", Some(3)), Some((OpType::EdgeCreate, 3)));
    assert_eq!(write_op_of("POST", "/vertices", None), None);
    assert_eq!(write_op_of("POST", "/vertices", Some(0)), None);
    assert_eq!(write_op_of("POST", "/verticesx", Some(5)), None);
    assert_eq!(write_op_of("POST", "/gremlin", Some(5)), None);
}

#[test]
fn updates_need_an_entity_path() {
    assert_eq!(write_op_of("PUT", "/vertices/7", Some(7)), Some((OpType::VertexUpdate, 7)));
    assert_eq!(write_op_of("PUT", "/edges/8", Some(8)), Some((OpType::EdgeUpdate, 8)));
    assert_eq!(write_op_of("PUT", "/vertices", Some(7)), None);
    assert_eq!(write_op_of("PUT", "/edges/8", None), None);
}

#[test]
fn deletes_take_the_id_from_the_path() {
    assert_eq!(write_op_of("DELETE", "/vertices/42", None), Some((OpType::VertexDelete, 42)));
    assert_eq!(
        write_op_of("DELETE", "/vertices/42?cascade=true", None),
        Some((OpType::VertexDelete, 42))
    );
    assert_eq!(write_op_of("DELETE", "/edges/+9", Some(1)), Some((OpType::EdgeDelete, 9)));
    assert_eq!(write_op_of("DELETE", "/vertices/abc", None), None);
    assert_eq!(write_op_of("DELETE", "/vertices/", None), None);
    assert_eq!(write_op_of("DELETE", "/tokens/4", None), None);
    assert_eq!(
        write_op_of("DELETE", "/vertices/18446744073709551615", None),
        Some((OpType::VertexDelete, u64::MAX))
    );
    assert_eq!(write_op_of("DELETE", "/vertices/18446744073709551616", None), None);
}

#[test]
fn other_methods_are_not_replicated() {
    assert_eq!(write_op_of("GET", "/vertices/1", Some(1)), None);
    assert_eq!(write_op_of("PATCH", "/vertices/1", Some(1)), None);
}

#[test]
fn decimal_parsing_follows_u64_from_str() {
    for s in ["0", "17", "+17", "", "+", "-1", "1a", "007", "18446744073709551615", "18446744073709551616"] {
        let b = s.as_bytes();
        assert_eq!(parse_decimal_u64(b, 0, b.len()), s.parse::<u64>().ok(), "{s}");
    }
    let b = b"x/123?y";
    assert_eq!(parse_decimal_u64(b, 2, 5), Some(123));
}
