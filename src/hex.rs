//! Lowercase hexadecimal text: fixed width for the checksum input, natural
//! width for the password.
use vstd::prelude::*;
use vstd::string::StringExecFns;

verus! {

/// The ASCII code of the lowercase hexadecimal digit for `d` (below sixteen).
pub open spec fn hex_ascii(d: nat) -> u8 {
    if d < 10 {
        (48 + d) as u8
    } else {
        (87 + d) as u8
    }
}

/// The lowercase hexadecimal digit for `d` (below sixteen), as a character.
pub open spec fn hex_char(d: nat) -> char {
    if d == 0 {
        '0'
    } else if d == 1 {
        '1'
    } else if d == 2 {
        '2'
    } else if d == 3 {
        '3'
    } else if d == 4 {
        '4'
    } else if d == 5 {
        '5'
    } else if d == 6 {
        '6'
    } else if d == 7 {
        '7'
    } else if d == 8 {
        '8'
    } else if d == 9 {
        '9'
    } else if d == 10 {
        'a'
    } else if d == 11 {
        'b'
    } else if d == 12 {
        'c'
    } else if d == 13 {
        'd'
    } else if d == 14 {
        'e'
    } else {
        'f'
    }
}


/// The last `width` hexadecimal digits of `v`, most significant first, as
/// ASCII bytes: zero-padded on the left where `v` has fewer digits.
pub open spec fn hex_digits(v: nat, width: nat) -> Seq<u8>
    decreases width,
{
    if width == 0 {
        Seq::empty()
    } else {
        hex_digits(v / 16, (width - 1) as nat).push(hex_ascii(v % 16))
    }
}

/// `v` in lowercase hexadecimal with no padding: one digit below sixteen,
/// and no leading zero above.
pub open spec fn hex_natural(v: nat) -> Seq<char>
    decreases v,
{
    if v < 16 {
        seq![hex_char(v)]
    } else {
        hex_natural(v / 16).push(hex_char(v % 16))
    }
}

/// `v` as exactly sixteen lowercase hexadecimal ASCII digits, zero-padded.
pub fn fixed_hex(v: u64) -> (r: Vec<u8>)
    ensures
        r@ == hex_digits(v as nat, 16),
{
    let mut out: Vec<u8> = Vec::new();
    let mut x: u64 = v;
    let mut i: usize = 0;
    while i < 16
        invariant
            i <= 16,
            hex_digits(v as nat, 16) == hex_digits(x as nat, (16 - i) as nat) + out@,
        decreases 16 - i,
    {
        let d: u8 = (x % 16) as u8;
        let ghost before = out@;
        out.insert(0, digit_ascii(d));
        proof {
            let rest = hex_digits((x / 16) as nat, (16 - i - 1) as nat);
            assert(hex_digits(x as nat, (16 - i) as nat) == rest.push(hex_ascii(d as nat)));
            assert(out@ =~= seq![hex_ascii(d as nat)] + before);
            assert(rest.push(hex_ascii(d as nat)) + before =~= rest + out@);
        }
        x = x / 16;
        i = i + 1;
    }
    assert(hex_digits(x as nat, 0) + out@ =~= out@);
    out
}

/// `v` in lowercase hexadecimal with no padding.
pub fn natural_hex(v: u32) -> (r: String)
    ensures
        r@ == hex_natural(v as nat),
{
    let mut digits: Vec<u8> = Vec::new();
    let mut x: u32 = v;
    while x >= 16
        invariant
            hex_natural(v as nat) == hex_natural(x as nat) + chars_of(digits@),
            forall|j: int| 0 <= j < digits@.len() ==> digits@[j] < 16,
        decreases x,
    {
        let ghost before = digits@;
        digits.insert(0, (x % 16) as u8);
        proof {
            let d = (x % 16) as nat;
            assert(hex_natural(x as nat) == hex_natural((x / 16) as nat).push(hex_char(d)));
            assert(chars_of(digits@) =~= seq![hex_char(d)] + chars_of(before));
            assert(hex_natural((x / 16) as nat).push(hex_char(d)) + chars_of(before)
                =~= hex_natural((x / 16) as nat) + chars_of(digits@));
        }
        x = x / 16;
    }
    let ghost before = digits@;
    digits.insert(0, x as u8);
    assert(chars_of(digits@) =~= seq![hex_char(x as nat)] + chars_of(before));
    let mut out = String::new();
    let mut j: usize = 0;
    while j < digits.len()
        invariant
            j <= digits@.len(),
            forall|k: int| 0 <= k < digits@.len() ==> digits@[k] < 16,
            out@ == chars_of(digits@.subrange(0, j as int)),
        decreases digits@.len() - j,
    {
        out.append(digit_str(digits[j]));
        assert(digits@.subrange(0, j + 1) =~= digits@.subrange(0, j as int).push(digits@[j as int]));
        assert(chars_of(digits@.subrange(0, j + 1)) =~= chars_of(digits@.subrange(0, j as int)).push(
            hex_char(digits@[j as int] as nat),
        ));
        j = j + 1;
    }
    assert(digits@.subrange(0, j as int) =~= digits@);
    out
}

/// The digit characters for a sequence of digit values.
pub open spec fn chars_of(ds: Seq<u8>) -> Seq<char> {
    ds.map_values(|d: u8| hex_char(d as nat))
}

fn digit_ascii(d: u8) -> (r: u8)
    requires
        d < 16,
    ensures
        r == hex_ascii(d as nat),
{
    if d < 10 {
        48 + d
    } else {
        87 + d
    }
}

fn digit_str(d: u8) -> (r: &'static str)
    requires
        d < 16,
    ensures
        r@ == seq![hex_char(d as nat)],
{
    proof {
        reveal_strlit("0");
        reveal_strlit("1");
        reveal_strlit("2");
        reveal_strlit("3");
        reveal_strlit("4");
        reveal_strlit("5");
        reveal_strlit("6");
        reveal_strlit("7");
        reveal_strlit("8");
        reveal_strlit("9");
        reveal_strlit("a");
        reveal_strlit("b");
        reveal_strlit("c");
        reveal_strlit("d");
        reveal_strlit("e");
        reveal_strlit("f");
    }
    match d {
        0 => "0",
        1 => "1",
        2 => "2",
        3 => "3",
        4 => "4",
        5 => "5",
        6 => "6",
        7 => "7",
        8 => "8",
        9 => "9",
        10 => "a",
        11 => "b",
        12 => "c",
        13 => "d",
        14 => "e",
        _ => "f",
    }
}

} // verus!
