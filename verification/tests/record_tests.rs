use sample_scaffold::serializable::{Deserializable, Error, Memo, Serializable, TypeIdString};

#[test]
fn type_id_is_normalized() {
    let id = TypeIdString::new("  Memo\r\n");
    assert_eq!(id.to_string(), "memo");
}

#[test]
fn type_id_matching_is_by_normalized_text() {
    let a = TypeIdString::new("FOO");
    let b = TypeIdString::new(" foo ");
    assert_eq!(a, b);
}

#[test]
fn decode_accepts_mixed_case_tag() {
    let memo: Memo = Memo::from_string("Memo\nhello\nworld").unwrap();
    // The tag line itself is part of the values handed to the type.
    assert_eq!(
        memo.lines,
        vec![String::from("Memo"), String::from("hello"), String::from("world")]
    );
}

#[test]
fn decode_accepts_upper_case_and_padded_tag() {
    let memo: Memo = Memo::from_string("  MEMO  \nx").unwrap();
    assert_eq!(memo.lines.len(), 2);
}

#[test]
fn decode_rejects_wrong_tag() {
    let r: Result<Memo, Error> = Memo::from_string("bar\nx");
    assert_eq!(
        r,
        Err(Error::MismatchedType {
            expected: TypeIdString::new("memo"),
            got: TypeIdString::new("bar"),
        })
    );
}

#[test]
fn decode_rejects_empty_input() {
    let r: Result<Memo, Error> = Memo::from_string("");
    assert_eq!(r, Err(Error::MissingTypeId));
}

#[test]
fn encode_prefixes_the_tag_line() {
    let memo = Memo { lines: vec![String::from("a"), String::from("b")] };
    assert_eq!(Serializable::to_string(&memo), "memo\na\nb");
}

#[test]
fn encode_of_empty_record_is_just_the_tag() {
    let memo = Memo { lines: vec![] };
    assert_eq!(Serializable::to_string(&memo), "memo");
}
