use mastermind::mastermind_io::read_code;
use mastermind::mastermind_mechanics::{CodeTypeError, ConfigType};

#[test]
fn test_read_code() {
    let config = ConfigType::new(4, 6);

    // test the easy case
    assert!(read_code(Ok("1234".to_string()), &config)
        .unwrap()
        .eq_vec(vec![1, 2, 3, 4]));

    // test the other case
    assert!(read_code(Ok("12d f3, oiuf4f lksjf".to_string()), &config)
        .unwrap()
        .eq_vec(vec![1, 2, 3, 4]));

    let input: Result<String, text_io::Error> = Err(text_io::Error::MissingMatch);
    let result = read_code(input, &config);
    assert!(matches!(result, Err(CodeTypeError::DecodingError)))
}

#[test]
fn read_code_reports_wrong_columns_and_colors() {
    let config = ConfigType::new(4, 6);
    assert!(matches!(
        read_code(Ok("123".to_string()), &config),
        Err(CodeTypeError::ColumnMismatch)
    ));
    assert!(matches!(
        read_code(Ok("1 2 3 4 5".to_string()), &config),
        Err(CodeTypeError::ColumnMismatch)
    ));
    assert!(matches!(
        read_code(Ok("1239".to_string()), &config),
        Err(CodeTypeError::ColorMismatch)
    ));
    assert!(read_code(Ok("x0-5/5+0".to_string()), &config)
        .unwrap()
        .eq_vec(vec![0, 5, 5, 0]));
}
