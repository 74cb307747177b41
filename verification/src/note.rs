use vstd::prelude::*;
use vstd::string::StringSliceAdditionalSpecFns;

verus! {

/// The fixed 12-tone lookup over the first three cycled bytes of a note
/// name: the semitone offset of the letter (with "s" for sharp, as in
/// "as", "cs", "ds", "fs", "gs"), paired with the byte that must spell the
/// octave digit. Any other spelling is no note.
pub open spec fn note_table(c0: u8, c1: u8, c2: u8) -> Option<(usize, u8)> {
    if c0 == 97 {  // a
        if c1 == 115 {
            Some((1, c2))
        } else {
            Some((0, c1))
        }
    } else if c0 == 98 {  // b
        Some((2, c1))
    } else if c0 == 99 {  // c
        if c1 == 115 {
            Some((4, c2))
        } else {
            Some((3, c1))
        }
    } else if c0 == 100 {  // d
        if c1 == 115 {
            Some((6, c2))
        } else {
            Some((5, c1))
        }
    } else if c0 == 101 {  // e
        Some((7, c1))
    } else if c0 == 102 {  // f
        if c1 == 115 {
            Some((9, c2))
        } else {
            Some((8, c1))
        }
    } else if c0 == 103 {  // g
        if c1 == 115 {
            Some((11, c2))
        } else {
            Some((10, c1))
        }
    } else {
        None
    }
}

/// The value of an ASCII decimal digit byte.
pub open spec fn digit_val(c: u8) -> Option<usize> {
    if 48 <= c && c <= 57 {
        Some((c - 48) as usize)
    } else {
        None
    }
}

/// The note number a name with byte run `b` stands for: the semitone offset
/// of its letter plus twelve per octave, read from the first three bytes of
/// the name repeated cyclically. `None` for anything that spells no note.
pub open spec fn note_spec(b: Seq<u8>) -> Option<usize> {
    if b.len() == 0 {
        None
    } else {
        let c0 = b[0];
        let c1 = b[1int % b.len() as int];
        let c2 = b[2int % b.len() as int];
        match note_table(c0, c1, c2) {
            None => None,
            Some(p) => match digit_val(p.1) {
                None => None,
                Some(d) => Some((p.0 + d * 12) as usize),
            },
        }
    }
}

/// Resolve a note name such as "a0", "as0" or "cs1" to its note number in
/// the fixed 12-tone lookup; an unrecognized name gives `None`.
pub fn str_to_note(string: &str) -> (res: Option<usize>)
    ensures
        res == note_spec(string.spec_bytes()),
{
    let bs = string.as_bytes();
    let n = bs.len();
    if n == 0 {
        return None;
    }
    let c0 = bs[0];
    let c1 = bs[1 % n];
    let c2 = bs[2 % n];
    let off: usize;
    let oct: u8;
    if c0 == 97 {
        if c1 == 115 {
            off = 1;
            oct = c2;
        } else {
            off = 0;
            oct = c1;
        }
    } else if c0 == 98 {
        off = 2;
        oct = c1;
    } else if c0 == 99 {
        if c1 == 115 {
            off = 4;
            oct = c2;
        } else {
            off = 3;
            oct = c1;
        }
    } else if c0 == 100 {
        if c1 == 115 {
            off = 6;
            oct = c2;
        } else {
            off = 5;
            oct = c1;
        }
    } else if c0 == 101 {
        off = 7;
        oct = c1;
    } else if c0 == 102 {
        if c1 == 115 {
            off = 9;
            oct = c2;
        } else {
            off = 8;
            oct = c1;
        }
    } else if c0 == 103 {
        if c1 == 115 {
            off = 11;
            oct = c2;
        } else {
            off = 10;
            oct = c1;
        }
    } else {
        return None;
    }
    if oct < 48 || oct > 57 {
        return None;
    }
    Some(off + ((oct - 48) as usize) * 12)
}

} // verus!
