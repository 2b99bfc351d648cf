use cell_sim::options::{parse_csv_ints, parse_number, parse_size, SizeError, DEFAULT_SIZE};

fn size_of(s: &str) -> Result<(usize, usize), SizeError> {
    parse_size(Some(&s.as_bytes().to_vec()))
}

#[test]
fn size_defaults_without_argument() {
    assert_eq!(parse_size(None), Ok(DEFAULT_SIZE));
    assert_eq!(DEFAULT_SIZE, (80, 60));
}

#[test]
fn size_square_and_rectangle() {
    assert_eq!(size_of("40"), Ok((40, 40)));
    assert_eq!(size_of("120,90"), Ok((120, 90)));
    assert_eq!(size_of("+7,007"), Ok((7, 7)));
}

#[test]
fn size_errors() {
    assert_eq!(size_of("1,2,3"), Err(SizeError::WrongCount));
    assert_eq!(size_of(""), Err(SizeError::EmptyNumber));
    assert_eq!(size_of("4,"), Err(SizeError::EmptyNumber));
    assert_eq!(size_of("4,x"), Err(SizeError::InvalidNumber));
    assert_eq!(size_of("-4"), Err(SizeError::InvalidNumber));
    assert_eq!(size_of("+"), Err(SizeError::InvalidNumber));
}

#[test]
fn number_bounds() {
    let max = usize::MAX.to_string();
    assert_eq!(parse_number(&max.as_bytes().to_vec()), Ok(usize::MAX));
    let over = format!("{}0", max);
    assert_eq!(parse_number(&over.as_bytes().to_vec()), Err(SizeError::InvalidNumber));
    assert_eq!(parse_number(&b"0".to_vec()), Ok(0));
}

#[test]
fn csv_ints_in_order() {
    assert_eq!(parse_csv_ints(&b"3,14,15".to_vec()), Ok(vec![3, 14, 15]));
    assert_eq!(parse_csv_ints(&b"3,,15".to_vec()), Err(SizeError::EmptyNumber));
}

#[test]
fn first_bad_piece_decides_the_error() {
    assert_eq!(parse_csv_ints(&b"x,".to_vec()), Err(SizeError::InvalidNumber));
    assert_eq!(parse_csv_ints(&b",x".to_vec()), Err(SizeError::EmptyNumber));
}
