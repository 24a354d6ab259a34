use pipeline_semantics::render::{dec_string, join_with};

#[test]
fn join_inserts_separator_between_parts() {
    let parts = vec!["a".to_string(), "bb".to_string(), "c".to_string()];
    assert_eq!(join_with(&parts, ", "), "a, bb, c");
}

#[test]
fn join_of_one_part_is_the_part() {
    let parts = vec!["only".to_string()];
    assert_eq!(join_with(&parts, ", "), "only");
}

#[test]
fn join_of_nothing_is_empty() {
    let parts: Vec<String> = vec![];
    assert_eq!(join_with(&parts, ", "), "");
}

#[test]
fn decimal_rendering() {
    assert_eq!(dec_string(0), "0");
    assert_eq!(dec_string(7), "7");
    assert_eq!(dec_string(1234567890), "1234567890");
}
