use namada_ctx::threads::{num_of_threads_aux, parse_usize};

#[test]
fn unset_uses_default() {
    assert_eq!(num_of_threads_aux(None, 5), Ok(5));
}

#[test]
fn unset_zero_default_gives_one() {
    assert_eq!(num_of_threads_aux(None, 0), Ok(1));
}

#[test]
fn set_valid_value_wins() {
    assert_eq!(num_of_threads_aux(Some("8"), 3), Ok(8));
    assert_eq!(num_of_threads_aux(Some("+7"), 3), Ok(7));
}

#[test]
fn set_negative_is_handed_back() {
    assert_eq!(num_of_threads_aux(Some("-3"), 5), Err("-3".to_string()));
}

#[test]
fn set_text_is_handed_back() {
    assert_eq!(num_of_threads_aux(Some("abc"), 5), Err("abc".to_string()));
}

#[test]
fn set_zero_is_handed_back() {
    assert_eq!(num_of_threads_aux(Some("0"), 5), Err("0".to_string()));
    assert_eq!(num_of_threads_aux(Some(""), 5), Err("".to_string()));
}

#[test]
fn parse_limits() {
    assert_eq!(parse_usize("0"), Some(0));
    assert_eq!(parse_usize("0042"), Some(42));
    assert_eq!(parse_usize("+"), None);
    assert_eq!(parse_usize("1 "), None);
    assert_eq!(parse_usize(&usize::MAX.to_string()), Some(usize::MAX));
    assert_eq!(parse_usize("99999999999999999999999999"), None);
}
