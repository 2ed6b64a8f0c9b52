//! The identity of an NTFS volume: its drive letter. Opening handles and
//! querying geometry are platform calls made by the embedding driver; the
//! index only needs the letter, to prefix full paths.
use vstd::prelude::*;

verus! {

/// A volume is identified by its drive letter (`'c'` for `\\.\C:`).
#[derive(Debug, Copy, Clone, PartialEq, Eq, Structural)]
pub struct Volume {
    pub id: char,
}

/// The upper-case form of an ASCII letter; any other character is unchanged.
pub open spec fn spec_upper(c: char) -> char {
    match c {
        'a' => 'A',
        'b' => 'B',
        'c' => 'C',
        'd' => 'D',
        'e' => 'E',
        'f' => 'F',
        'g' => 'G',
        'h' => 'H',
        'i' => 'I',
        'j' => 'J',
        'k' => 'K',
        'l' => 'L',
        'm' => 'M',
        'n' => 'N',
        'o' => 'O',
        'p' => 'P',
        'q' => 'Q',
        'r' => 'R',
        's' => 'S',
        't' => 'T',
        'u' => 'U',
        'v' => 'V',
        'w' => 'W',
        'x' => 'X',
        'y' => 'Y',
        'z' => 'Z',
        _ => c,
    }
}

/// Upper-cases an ASCII letter, leaving every other character unchanged.
pub fn ascii_upper(c: char) -> (r: char)
    ensures
        r == spec_upper(c),
{
    match c {
        'a' => 'A',
        'b' => 'B',
        'c' => 'C',
        'd' => 'D',
        'e' => 'E',
        'f' => 'F',
        'g' => 'G',
        'h' => 'H',
        'i' => 'I',
        'j' => 'J',
        'k' => 'K',
        'l' => 'L',
        'm' => 'M',
        'n' => 'N',
        'o' => 'O',
        'p' => 'P',
        'q' => 'Q',
        'r' => 'R',
        's' => 'S',
        't' => 'T',
        'u' => 'U',
        'v' => 'V',
        'w' => 'W',
        'x' => 'X',
        'y' => 'Y',
        'z' => 'Z',
        _ => c,
    }
}

} // verus!
