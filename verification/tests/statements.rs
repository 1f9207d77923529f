use eretria::parse_string;

#[test]
fn statements_no_semi() {
    // without semicolons
    assert!(parse_string(
        &"\r\n\tdata[0] = \"hi\" \r\n\tfn main() {2} \r\n\tfn main2() 1 + 1\r\n\t",
    )
    .is_ok());
}

#[test]
fn statements_semi() {
    // with semicolons
    assert!(parse_string(
        "\r\n\t;;;data[0] = \"hi\";;;;;  ;;\r\n\t;;fn main() {2}; ;;\r\n\t;;;fn main2() 1 + 1;;\r\n\t",
    )
    .is_ok());
}

#[test]
fn unexpected_token() {
    assert!(parse_string("ssdjfhksjdggr").is_err());
}

#[test]
fn invalid_data_syntax() {
    assert!(parse_string("data[word] = \"hi\"").is_err());
}

#[test]
fn data_decimal_escape() {
    assert!(parse_string(r#"data[0] = "\d255\d128""#).is_ok());
}

#[test]
fn data_hex_escape() {
    assert!(parse_string(r#"data[0] = "\xFF\xDD""#).is_ok());
}
