use bm25::text::{parse_bm25vector, ParseVectorError};

fn parts(s: &str) -> Result<(u32, Vec<u32>, Vec<u32>), ParseVectorError> {
    parse_bm25vector(s.as_bytes()).map(|v| (v.doc_len(), v.indexes().to_vec(), v.values().to_vec()))
}

#[test]
fn parse_plain() {
    assert_eq!(parts("{1:2, 3:1, 5:3}"), Ok((6, vec![1, 3, 5], vec![2, 1, 3])));
    assert_eq!(parts("  { 1:2,3:1 }  "), Ok((3, vec![1, 3], vec![2, 1])));
    assert_eq!(parts("{}"), Ok((0, vec![], vec![])));
    assert_eq!(parts("{+7:+4}"), Ok((4, vec![7], vec![4])));
    assert_eq!(parts("{4294967295:1}"), Ok((1, vec![u32::MAX], vec![1])));
}

#[test]
fn parse_errors() {
    assert_eq!(parts(""), Err(ParseVectorError::EmptyString));
    assert_eq!(parts("x{1:1}"), Err(ParseVectorError::BadCharacter { position: 0 }));
    assert_eq!(parts("{"), Err(ParseVectorError::BadParentheses { character: '{' }));
    assert_eq!(parts("{1:1"), Err(ParseVectorError::BadCharacter { position: 3 }));
    assert_eq!(parts("{ "), Err(ParseVectorError::BadParentheses { character: '}' }));
    assert_eq!(parts("{1:1:2}"), Err(ParseVectorError::BadColon { position: 4 }));
    assert_eq!(parts("{1:1,2}"), Err(ParseVectorError::MissingColon { position: 6 }));
    assert_eq!(parts("{1,1}"), Err(ParseVectorError::MissingColon { position: 2 }));
    assert_eq!(parts("{:1}"), Err(ParseVectorError::TooShortNumber { position: 1 }));
    assert_eq!(parts("{1:}"), Err(ParseVectorError::TooShortNumber { position: 3 }));
    assert_eq!(parts("{1:,2:1}"), Err(ParseVectorError::TooShortNumber { position: 3 }));
    assert_eq!(parts("{a:1}"), Err(ParseVectorError::BadParsing { position: 2 }));
    assert_eq!(parts("{1:1.5}"), Err(ParseVectorError::BadParsing { position: 6 }));
    assert_eq!(parts("{4294967296:1}"), Err(ParseVectorError::BadParsing { position: 11 }));
    assert_eq!(parts("{3:1, 2:1}"), Err(ParseVectorError::IndexNotIncreasing { position: 7 }));
    assert_eq!(parts("{1:1, 1:1}"), Err(ParseVectorError::IndexNotIncreasing { position: 7 }));
    assert_eq!(parts("{1:1;}"), Err(ParseVectorError::BadCharacter { position: 4 }));
    assert_eq!(
        parts("{1:4294967295, 2:1}"),
        Err(ParseVectorError::TooManyDocuments)
    );
    let long = format!("{{1:{}}}", "1".repeat(49));
    assert_eq!(parts(&long), Err(ParseVectorError::TooLongNumber { position: 51 }));
}

#[test]
fn parse_rejects_zero_frequency() {
    assert_eq!(parts("{1:0}"), Err(ParseVectorError::BadParsing { position: 4 }));
    assert_eq!(parts("{1:0, 2:1}"), Err(ParseVectorError::BadParsing { position: 4 }));
}

#[test]
fn parse_error_messages() {
    assert_eq!(ParseVectorError::EmptyString.message(), "The input string is empty.");
    assert_eq!(
        ParseVectorError::TooManyDocuments.message(),
        "The sum of term frequencies is exceeding u32::MAX."
    );
}
