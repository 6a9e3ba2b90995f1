use timeharsh::alphabet::TimehashError;
use timeharsh::timehash::{after, before, expand, from_ordinals, neighbors, ordinals};

#[test]
fn timehash_before() {
    assert_eq!(before("afcccc0e1b").unwrap(), "afcccc0e1a");
    assert_eq!(before("afcccc0e1a").unwrap(), "afcccc0e11");
    assert_eq!(before("afcccc0e10").unwrap(), "afcccc0e0f");
}

#[test]
fn timehash_after() {
    assert_eq!(after("afcccc0e0f").unwrap(), "afcccc0e10");
    assert_eq!(after("afcccc0e1a").unwrap(), "afcccc0e1b");
    assert_eq!(after("afcccc0e1b").unwrap(), "afcccc0e1c");
}

#[test]
fn timehash_neighbors() {
    assert_eq!(
        neighbors("afcccc0e0f").unwrap(),
        ("afcccc0e0e".to_string(), "afcccc0e10".to_string())
    );
}

#[test]
fn timehash_expand() {
    assert_eq!(
        expand("afcccc0e0f").unwrap(),
        ("afcccc0e0e".to_string(), "afcccc0e0f".to_string(), "afcccc0e10".to_string())
    );
}

#[test]
fn before_and_after_of_abcdef() {
    assert_eq!(before("abcdef").unwrap(), "abcdee");
    assert_eq!(after("abcdef").unwrap(), "abcdf0");
    assert_eq!(
        neighbors("abcdef").unwrap(),
        ("abcdee".to_string(), "abcdf0".to_string())
    );
    assert_eq!(
        expand("abcdef").unwrap(),
        ("abcdee".to_string(), "abcdef".to_string(), "abcdf0".to_string())
    );
}

#[test]
fn repeated_before_crosses_carry() {
    let one = before("afcccc0e1b").unwrap();
    let two = before(&one).unwrap();
    let three = before(&two).unwrap();
    assert_eq!(one, "afcccc0e1a");
    assert_eq!(two, "afcccc0e11");
    assert_eq!(before("afcccc0e11").unwrap(), "afcccc0e10");
    assert_eq!(three, "afcccc0e10");
    assert_eq!(before("afcccc0e10").unwrap(), "afcccc0e0f");
}

#[test]
fn borrow_runs_over_several_characters() {
    assert_eq!(before("a000").unwrap(), "1fff");
    assert_eq!(after("1fff").unwrap(), "a000");
}

#[test]
fn first_and_last_windows_have_no_neighbor() {
    assert_eq!(before("0000").unwrap(), "");
    assert_eq!(after("ffff").unwrap(), "");
    assert_eq!(before("").unwrap(), "");
    assert_eq!(after("").unwrap(), "");
    assert_eq!(expand("0").unwrap(), ("".to_string(), "0".to_string(), "1".to_string()));
}

#[test]
fn after_undoes_before() {
    for h in ["1", "f0", "abcdef", "afcccc0e10", "100000", "0001"] {
        let b = before(h).unwrap();
        assert_eq!(b.len(), h.len());
        assert!(b.as_str() < h);
        assert_eq!(after(&b).unwrap(), h);
    }
}

#[test]
fn invalid_characters_are_rejected() {
    assert_eq!(before("g"), Err(TimehashError::InvalidCharacter('g')));
    assert_eq!(after("!"), Err(TimehashError::InvalidCharacter('!')));
    assert_eq!(before("ab0"), Ok("aaf".to_string()));
    assert_eq!(before("1xy1"), Err(TimehashError::InvalidCharacter('x')));
    assert_eq!(after("1xyf"), Err(TimehashError::InvalidCharacter('x')));
    assert_eq!(neighbors("ab!c"), Err(TimehashError::InvalidCharacter('!')));
    assert_eq!(expand("zz"), Err(TimehashError::InvalidCharacter('z')));
}

#[test]
fn ordinals_read_each_character() {
    assert_eq!(ordinals("abcdef").unwrap(), vec![2, 3, 4, 5, 6, 7]);
    assert_eq!(ordinals("01").unwrap(), vec![0, 1]);
    assert_eq!(ordinals("").unwrap(), Vec::<usize>::new());
    assert_eq!(ordinals("xyz"), Err(TimehashError::InvalidCharacter('x')));
    assert_eq!(ordinals("ab?c!"), Err(TimehashError::InvalidCharacter('?')));
}

#[test]
fn from_ordinals_writes_one_character_each() {
    let hash = from_ordinals(&vec![2, 3, 4, 5, 6, 7]).unwrap();
    assert_eq!(hash, "abcdef");
    assert_eq!(hash.len(), 6);
    assert_eq!(from_ordinals(&vec![0, 1]).unwrap(), "01");
    assert_eq!(from_ordinals(&Vec::new()).unwrap(), "");
    assert_eq!(from_ordinals(&vec![1, 9, 12]), Err(TimehashError::InvalidOrdinal(9)));
    let v = vec![7, 0, 3, 3, 1];
    assert_eq!(ordinals(&from_ordinals(&v).unwrap()).unwrap(), v);
}
