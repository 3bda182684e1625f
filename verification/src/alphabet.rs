//! The fixed 64-symbol output alphabet of the codec: lowercase letters,
//! uppercase letters, digits, then two punctuation symbols. Each symbol
//! stands for one 6-bit group; the mapping in each direction is total on
//! its domain and the two directions are proved inverse to one another.
use vstd::prelude::*;

verus! {

/// The symbol that stands for the 6-bit group value `i`.
pub open spec fn symbol(i: int) -> char {
    if i == 0 {
        'a'
    } else if i == 1 {
        'b'
    } else if i == 2 {
        'c'
    } else if i == 3 {
        'd'
    } else if i == 4 {
        'e'
    } else if i == 5 {
        'f'
    } else if i == 6 {
        'g'
    } else if i == 7 {
        'h'
    } else if i == 8 {
        'i'
    } else if i == 9 {
        'j'
    } else if i == 10 {
        'k'
    } else if i == 11 {
        'l'
    } else if i == 12 {
        'm'
    } else if i == 13 {
        'n'
    } else if i == 14 {
        'o'
    } else if i == 15 {
        'p'
    } else if i == 16 {
        'q'
    } else if i == 17 {
        'r'
    } else if i == 18 {
        's'
    } else if i == 19 {
        't'
    } else if i == 20 {
        'u'
    } else if i == 21 {
        'v'
    } else if i == 22 {
        'w'
    } else if i == 23 {
        'x'
    } else if i == 24 {
        'y'
    } else if i == 25 {
        'z'
    } else if i == 26 {
        'A'
    } else if i == 27 {
        'B'
    } else if i == 28 {
        'C'
    } else if i == 29 {
        'D'
    } else if i == 30 {
        'E'
    } else if i == 31 {
        'F'
    } else if i == 32 {
        'G'
    } else if i == 33 {
        'H'
    } else if i == 34 {
        'I'
    } else if i == 35 {
        'J'
    } else if i == 36 {
        'K'
    } else if i == 37 {
        'L'
    } else if i == 38 {
        'M'
    } else if i == 39 {
        'N'
    } else if i == 40 {
        'O'
    } else if i == 41 {
        'P'
    } else if i == 42 {
        'Q'
    } else if i == 43 {
        'R'
    } else if i == 44 {
        'S'
    } else if i == 45 {
        'T'
    } else if i == 46 {
        'U'
    } else if i == 47 {
        'V'
    } else if i == 48 {
        'W'
    } else if i == 49 {
        'X'
    } else if i == 50 {
        'Y'
    } else if i == 51 {
        'Z'
    } else if i == 52 {
        '0'
    } else if i == 53 {
        '1'
    } else if i == 54 {
        '2'
    } else if i == 55 {
        '3'
    } else if i == 56 {
        '4'
    } else if i == 57 {
        '5'
    } else if i == 58 {
        '6'
    } else if i == 59 {
        '7'
    } else if i == 60 {
        '8'
    } else if i == 61 {
        '9'
    } else if i == 62 {
        '+'
    } else {
        '~'
    }
}

/// The 6-bit group value of a symbol, or -1 for a character outside the
/// alphabet.
pub open spec fn sym_index(c: char) -> int {
    if c == 'a' {
        0
    } else if c == 'b' {
        1
    } else if c == 'c' {
        2
    } else if c == 'd' {
        3
    } else if c == 'e' {
        4
    } else if c == 'f' {
        5
    } else if c == 'g' {
        6
    } else if c == 'h' {
        7
    } else if c == 'i' {
        8
    } else if c == 'j' {
        9
    } else if c == 'k' {
        10
    } else if c == 'l' {
        11
    } else if c == 'm' {
        12
    } else if c == 'n' {
        13
    } else if c == 'o' {
        14
    } else if c == 'p' {
        15
    } else if c == 'q' {
        16
    } else if c == 'r' {
        17
    } else if c == 's' {
        18
    } else if c == 't' {
        19
    } else if c == 'u' {
        20
    } else if c == 'v' {
        21
    } else if c == 'w' {
        22
    } else if c == 'x' {
        23
    } else if c == 'y' {
        24
    } else if c == 'z' {
        25
    } else if c == 'A' {
        26
    } else if c == 'B' {
        27
    } else if c == 'C' {
        28
    } else if c == 'D' {
        29
    } else if c == 'E' {
        30
    } else if c == 'F' {
        31
    } else if c == 'G' {
        32
    } else if c == 'H' {
        33
    } else if c == 'I' {
        34
    } else if c == 'J' {
        35
    } else if c == 'K' {
        36
    } else if c == 'L' {
        37
    } else if c == 'M' {
        38
    } else if c == 'N' {
        39
    } else if c == 'O' {
        40
    } else if c == 'P' {
        41
    } else if c == 'Q' {
        42
    } else if c == 'R' {
        43
    } else if c == 'S' {
        44
    } else if c == 'T' {
        45
    } else if c == 'U' {
        46
    } else if c == 'V' {
        47
    } else if c == 'W' {
        48
    } else if c == 'X' {
        49
    } else if c == 'Y' {
        50
    } else if c == 'Z' {
        51
    } else if c == '0' {
        52
    } else if c == '1' {
        53
    } else if c == '2' {
        54
    } else if c == '3' {
        55
    } else if c == '4' {
        56
    } else if c == '5' {
        57
    } else if c == '6' {
        58
    } else if c == '7' {
        59
    } else if c == '8' {
        60
    } else if c == '9' {
        61
    } else if c == '+' {
        62
    } else if c == '~' {
        63
    } else {
        -1
    }
}

/// Membership in the alphabet.
pub open spec fn is_symbol(c: char) -> bool {
    sym_index(c) >= 0
}

/// The two lookup directions are inverse: every group value has its symbol,
/// and no other group value shares it.
pub proof fn lemma_symbol_index(i: int)
    requires
        0 <= i < 64,
    ensures
        sym_index(symbol(i)) == i,
        is_symbol(symbol(i)),
{
}

/// A character inside the alphabet is the symbol of its own group value.
pub proof fn lemma_index_symbol(c: char)
    requires
        is_symbol(c),
    ensures
        0 <= sym_index(c) < 64,
        symbol(sym_index(c)) == c,
{
}

/// The one-character string of the symbol for the group value `i`.
pub fn symbol_str(i: u8) -> (r: &'static str)
    requires
        i < 64,
    ensures
        r@ =~= seq![symbol(i as int)],
{
    match i {
        0 => {
            proof {
                reveal_strlit("a");
            }
            "a"
        },
        1 => {
            proof {
                reveal_strlit("b");
            }
            "b"
        },
        2 => {
            proof {
                reveal_strlit("c");
            }
            "c"
        },
        3 => {
            proof {
                reveal_strlit("d");
            }
            "d"
        },
        4 => {
            proof {
                reveal_strlit("e");
            }
            "e"
        },
        5 => {
            proof {
                reveal_strlit("f");
            }
            "f"
        },
        6 => {
            proof {
                reveal_strlit("g");
            }
            "g"
        },
        7 => {
            proof {
                reveal_strlit("h");
            }
            "h"
        },
        8 => {
            proof {
                reveal_strlit("i");
            }
            "i"
        },
        9 => {
            proof {
                reveal_strlit("j");
            }
            "j"
        },
        10 => {
            proof {
                reveal_strlit("k");
            }
            "k"
        },
        11 => {
            proof {
                reveal_strlit("l");
            }
            "l"
        },
        12 => {
            proof {
                reveal_strlit("m");
            }
            "m"
        },
        13 => {
            proof {
                reveal_strlit("n");
            }
            "n"
        },
        14 => {
            proof {
                reveal_strlit("o");
            }
            "o"
        },
        15 => {
            proof {
                reveal_strlit("p");
            }
            "p"
        },
        16 => {
            proof {
                reveal_strlit("q");
            }
            "q"
        },
        17 => {
            proof {
                reveal_strlit("r");
            }
            "r"
        },
        18 => {
            proof {
                reveal_strlit("s");
            }
            "s"
        },
        19 => {
            proof {
                reveal_strlit("t");
            }
            "t"
        },
        20 => {
            proof {
                reveal_strlit("u");
            }
            "u"
        },
        21 => {
            proof {
                reveal_strlit("v");
            }
            "v"
        },
        22 => {
            proof {
                reveal_strlit("w");
            }
            "w"
        },
        23 => {
            proof {
                reveal_strlit("x");
            }
            "x"
        },
        24 => {
            proof {
                reveal_strlit("y");
            }
            "y"
        },
        25 => {
            proof {
                reveal_strlit("z");
            }
            "z"
        },
        26 => {
            proof {
                reveal_strlit("A");
            }
            "A"
        },
        27 => {
            proof {
                reveal_strlit("B");
            }
            "B"
        },
        28 => {
            proof {
                reveal_strlit("C");
            }
            "C"
        },
        29 => {
            proof {
                reveal_strlit("D");
            }
            "D"
        },
        30 => {
            proof {
                reveal_strlit("E");
            }
            "E"
        },
        31 => {
            proof {
                reveal_strlit("F");
            }
            "F"
        },
        32 => {
            proof {
                reveal_strlit("G");
            }
            "G"
        },
        33 => {
            proof {
                reveal_strlit("H");
            }
            "H"
        },
        34 => {
            proof {
                reveal_strlit("I");
            }
            "I"
        },
        35 => {
            proof {
                reveal_strlit("J");
            }
            "J"
        },
        36 => {
            proof {
                reveal_strlit("K");
            }
            "K"
        },
        37 => {
            proof {
                reveal_strlit("L");
            }
            "L"
        },
        38 => {
            proof {
                reveal_strlit("M");
            }
            "M"
        },
        39 => {
            proof {
                reveal_strlit("N");
            }
            "N"
        },
        40 => {
            proof {
                reveal_strlit("O");
            }
            "O"
        },
        41 => {
            proof {
                reveal_strlit("P");
            }
            "P"
        },
        42 => {
            proof {
                reveal_strlit("Q");
            }
            "Q"
        },
        43 => {
            proof {
                reveal_strlit("R");
            }
            "R"
        },
        44 => {
            proof {
                reveal_strlit("S");
            }
            "S"
        },
        45 => {
            proof {
                reveal_strlit("T");
            }
            "T"
        },
        46 => {
            proof {
                reveal_strlit("U");
            }
            "U"
        },
        47 => {
            proof {
                reveal_strlit("V");
            }
            "V"
        },
        48 => {
            proof {
                reveal_strlit("W");
            }
            "W"
        },
        49 => {
            proof {
                reveal_strlit("X");
            }
            "X"
        },
        50 => {
            proof {
                reveal_strlit("Y");
            }
            "Y"
        },
        51 => {
            proof {
                reveal_strlit("Z");
            }
            "Z"
        },
        52 => {
            proof {
                reveal_strlit("0");
            }
            "0"
        },
        53 => {
            proof {
                reveal_strlit("1");
            }
            "1"
        },
        54 => {
            proof {
                reveal_strlit("2");
            }
            "2"
        },
        55 => {
            proof {
                reveal_strlit("3");
            }
            "3"
        },
        56 => {
            proof {
                reveal_strlit("4");
            }
            "4"
        },
        57 => {
            proof {
                reveal_strlit("5");
            }
            "5"
        },
        58 => {
            proof {
                reveal_strlit("6");
            }
            "6"
        },
        59 => {
            proof {
                reveal_strlit("7");
            }
            "7"
        },
        60 => {
            proof {
                reveal_strlit("8");
            }
            "8"
        },
        61 => {
            proof {
                reveal_strlit("9");
            }
            "9"
        },
        62 => {
            proof {
                reveal_strlit("+");
            }
            "+"
        },
        _ => {
            proof {
                reveal_strlit("~");
            }
            "~"
        },
    }
}

/// The group value of a character, or `None` outside the alphabet.
pub fn char_value(c: char) -> (r: Option<u8>)
    ensures
        is_symbol(c) ==> r == Some(sym_index(c) as u8),
        !is_symbol(c) ==> r == None::<u8>,
{
    match c {
        'a' => Some(0u8),
        'b' => Some(1u8),
        'c' => Some(2u8),
        'd' => Some(3u8),
        'e' => Some(4u8),
        'f' => Some(5u8),
        'g' => Some(6u8),
        'h' => Some(7u8),
        'i' => Some(8u8),
        'j' => Some(9u8),
        'k' => Some(10u8),
        'l' => Some(11u8),
        'm' => Some(12u8),
        'n' => Some(13u8),
        'o' => Some(14u8),
        'p' => Some(15u8),
        'q' => Some(16u8),
        'r' => Some(17u8),
        's' => Some(18u8),
        't' => Some(19u8),
        'u' => Some(20u8),
        'v' => Some(21u8),
        'w' => Some(22u8),
        'x' => Some(23u8),
        'y' => Some(24u8),
        'z' => Some(25u8),
        'A' => Some(26u8),
        'B' => Some(27u8),
        'C' => Some(28u8),
        'D' => Some(29u8),
        'E' => Some(30u8),
        'F' => Some(31u8),
        'G' => Some(32u8),
        'H' => Some(33u8),
        'I' => Some(34u8),
        'J' => Some(35u8),
        'K' => Some(36u8),
        'L' => Some(37u8),
        'M' => Some(38u8),
        'N' => Some(39u8),
        'O' => Some(40u8),
        'P' => Some(41u8),
        'Q' => Some(42u8),
        'R' => Some(43u8),
        'S' => Some(44u8),
        'T' => Some(45u8),
        'U' => Some(46u8),
        'V' => Some(47u8),
        'W' => Some(48u8),
        'X' => Some(49u8),
        'Y' => Some(50u8),
        'Z' => Some(51u8),
        '0' => Some(52u8),
        '1' => Some(53u8),
        '2' => Some(54u8),
        '3' => Some(55u8),
        '4' => Some(56u8),
        '5' => Some(57u8),
        '6' => Some(58u8),
        '7' => Some(59u8),
        '8' => Some(60u8),
        '9' => Some(61u8),
        '+' => Some(62u8),
        '~' => Some(63u8),
        _ => None,
    }
}

} // verus!
