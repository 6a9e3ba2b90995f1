use timeharsh::alphabet::{get_char, get_neighbor_chars, get_ordinal, TimehashError};

#[test]
fn ordinals_follow_the_alphabet() {
    let symbols = ['0', '1', 'a', 'b', 'c', 'd', 'e', 'f'];
    for (i, c) in symbols.iter().enumerate() {
        assert_eq!(get_ordinal(c.clone()), Ok(i));
        assert_eq!(get_char(i), Ok(c.clone()));
    }
}

#[test]
fn lookups_reject_what_is_outside() {
    assert_eq!(get_ordinal('x'), Err(TimehashError::InvalidCharacter('x')));
    assert_eq!(get_ordinal('A'), Err(TimehashError::InvalidCharacter('A')));
    assert_eq!(get_char(8), Err(TimehashError::InvalidOrdinal(8)));
    assert_eq!(get_neighbor_chars('g'), Err(TimehashError::InvalidCharacter('g')));
}

#[test]
fn ring_wraps_at_both_ends() {
    assert_eq!(get_neighbor_chars('0'), Ok(('f', '1')));
    assert_eq!(get_neighbor_chars('f'), Ok(('e', '0')));
    assert_eq!(get_neighbor_chars('c'), Ok(('b', 'd')));
}
