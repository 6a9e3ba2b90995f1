use vstd::prelude::*;

verus! {

/// Why an operation on a timehash failed.
#[derive(Clone, Copy, Debug, PartialEq, Eq, Structural)]
pub enum TimehashError {
    /// A character outside the eight-symbol alphabet.
    InvalidCharacter(char),
    /// An ordinal outside `0..8`.
    InvalidOrdinal(usize),
}

/// The symbols of the alphabet, in ring order.
pub open spec fn alphabet() -> Seq<char> {
    seq!['0', '1', 'a', 'b', 'c', 'd', 'e', 'f']
}

pub open spec fn is_symbol(c: char) -> bool {
    c == '0' || c == '1' || c == 'a' || c == 'b' || c == 'c' || c == 'd' || c == 'e' || c == 'f'
}

/// The position of a symbol in the alphabet; each position is a 3-bit pattern.
pub open spec fn ord_of(c: char) -> nat {
    if c == '0' {
        0
    } else if c == '1' {
        1
    } else if c == 'a' {
        2
    } else if c == 'b' {
        3
    } else if c == 'c' {
        4
    } else if c == 'd' {
        5
    } else if c == 'e' {
        6
    } else {
        7
    }
}

/// The symbol at a position of the alphabet (`i < 8`).
pub open spec fn sym_of(i: nat) -> char {
    alphabet()[i as int]
}

pub proof fn lemma_symbol_ordinal(c: char)
    requires
        is_symbol(c),
    ensures
        ord_of(c) < 8,
        sym_of(ord_of(c)) == c,
{
}

pub proof fn lemma_ordinal_symbol(i: nat)
    requires
        i < 8,
    ensures
        is_symbol(sym_of(i)),
        ord_of(sym_of(i)) == i,
{
}

/// The ordinal of a symbol of the alphabet.
pub fn get_ordinal(c: char) -> (r: Result<usize, TimehashError>)
    ensures
        is_symbol(c) ==> r == Ok::<usize, TimehashError>(ord_of(c) as usize),
        !is_symbol(c) ==> r == Err::<usize, TimehashError>(TimehashError::InvalidCharacter(c)),
{
    match c {
        '0' => Ok(0),
        '1' => Ok(1),
        'a' => Ok(2),
        'b' => Ok(3),
        'c' => Ok(4),
        'd' => Ok(5),
        'e' => Ok(6),
        'f' => Ok(7),
        _ => Err(TimehashError::InvalidCharacter(c)),
    }
}

/// The symbol of an ordinal.
pub fn get_char(i: usize) -> (r: Result<char, TimehashError>)
    ensures
        i < 8 ==> r == Ok::<char, TimehashError>(sym_of(i as nat)),
        i >= 8 ==> r == Err::<char, TimehashError>(TimehashError::InvalidOrdinal(i)),
{
    match i {
        0 => Ok('0'),
        1 => Ok('1'),
        2 => Ok('a'),
        3 => Ok('b'),
        4 => Ok('c'),
        5 => Ok('d'),
        6 => Ok('e'),
        7 => Ok('f'),
        _ => Err(TimehashError::InvalidOrdinal(i)),
    }
}

/// The predecessor and the successor of a symbol on the ring.
pub fn get_neighbor_chars(c: char) -> (r: Result<(char, char), TimehashError>)
    ensures
        is_symbol(c) ==> r == Ok::<(char, char), TimehashError>(
            (sym_of(((ord_of(c) + 7) % 8) as nat), sym_of(((ord_of(c) + 1) % 8) as nat)),
        ),
        !is_symbol(c) ==> r == Err::<(char, char), TimehashError>(
            TimehashError::InvalidCharacter(c),
        ),
{
    match c {
        '0' => Ok(('f', '1')),
        '1' => Ok(('0', 'a')),
        'a' => Ok(('1', 'b')),
        'b' => Ok(('a', 'c')),
        'c' => Ok(('b', 'd')),
        'd' => Ok(('c', 'e')),
        'e' => Ok(('d', 'f')),
        'f' => Ok(('e', '0')),
        _ => Err(TimehashError::InvalidCharacter(c)),
    }
}

/// A one-symbol string.
pub(crate) fn symbol_str(c: char) -> (r: &'static str)
    requires
        is_symbol(c),
    ensures
        r@ == seq![c],
{
    if c == '0' {
        proof { reveal_strlit("0"); }
        "0"
    } else if c == '1' {
        proof { reveal_strlit("1"); }
        "1"
    } else if c == 'a' {
        proof { reveal_strlit("a"); }
        "a"
    } else if c == 'b' {
        proof { reveal_strlit("b"); }
        "b"
    } else if c == 'c' {
        proof { reveal_strlit("c"); }
        "c"
    } else if c == 'd' {
        proof { reveal_strlit("d"); }
        "d"
    } else if c == 'e' {
        proof { reveal_strlit("e"); }
        "e"
    } else {
        proof { reveal_strlit("f"); }
        "f"
    }
}

} // verus!
