use chaoscoder::config::{validate_block_width, validate_overlap};

#[test]
fn test_validate_block_width_valid() {
    let result = validate_block_width("50");
    assert!(result.is_ok());
    assert_eq!(result.unwrap(), 50);
}

#[test]
fn test_validate_block_width_non_number() {
    let result = validate_block_width("abc");
    assert!(result.is_err());
    assert_eq!(result.unwrap_err(), "block_width must be a number");
}

#[test]
fn test_validate_block_width_too_large() {
    let result = validate_block_width("101");
    assert!(result.is_err());
    assert_eq!(
        result.unwrap_err(),
        "block_widht must be less or equal to 100"
    );
}

#[test]
fn test_validate_overlap_valid() {
    let result = validate_overlap("10");
    assert!(result.is_ok());
    assert_eq!(result.unwrap(), 10);
}

#[test]
fn test_validate_overlap_non_number() {
    let result = validate_overlap("xyz");
    assert!(result.is_err());
    assert_eq!(result.unwrap_err(), "overlap must be a number");
}

#[test]
fn test_validate_overlap_zero() {
    let result = validate_overlap("0");
    assert!(result.is_err());
    assert_eq!(result.unwrap_err(), "overlap must be between 1 and 20");
}

#[test]
fn test_validate_overlap_above_limit() {
    let result = validate_overlap("21");
    assert!(result.is_err());
    assert_eq!(result.unwrap_err(), "overlap must be between 1 and 20");
}

#[test]
fn block_width_edges() {
    assert_eq!(validate_block_width("100"), Ok(100));
    assert_eq!(validate_block_width("2"), Ok(2));
    assert_eq!(validate_block_width("1"), Err("block_width must be at least 2".to_string()));
    assert_eq!(validate_block_width("0"), Err("block_width must be at least 2".to_string()));
    assert_eq!(validate_block_width("+7"), Ok(7));
    assert_eq!(validate_block_width(""), Err("block_width must be a number".to_string()));
    assert_eq!(validate_block_width("-1"), Err("block_width must be a number".to_string()));
    assert_eq!(
        validate_block_width("99999999999999999999999999"),
        Err("block_width must be a number".to_string())
    );
}

#[test]
fn overlap_edges() {
    assert_eq!(validate_overlap("1"), Ok(1));
    assert_eq!(validate_overlap("20"), Ok(20));
    assert_eq!(validate_overlap("256"), Err("overlap must be a number".to_string()));
    assert_eq!(validate_overlap(" 5"), Err("overlap must be a number".to_string()));
}
