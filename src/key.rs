//! Parsing a recovery key and deriving its unlock password.
use vstd::prelude::*;
use vstd::string::StrSliceExecFns;

use crate::checksum::{jamcrc, jamcrc_of};
use crate::hex::{fixed_hex, hex_digits, hex_natural, natural_hex};

verus! {

/// The text of `s` before its first `-`, or all of `s` where it has none.
pub open spec fn first_field(s: Seq<char>) -> Seq<char>
    decreases s.len(),
{
    if s.len() == 0 || s[0] == '-' {
        Seq::empty()
    } else {
        seq![s[0]] + first_field(s.drop_first())
    }
}

/// The text of `s` after its first `-`, where it has one.
pub open spec fn after_dash(s: Seq<char>) -> Option<Seq<char>>
    decreases s.len(),
{
    if s.len() == 0 {
        None
    } else if s[0] == '-' {
        Some(s.drop_first())
    } else {
        after_dash(s.drop_first())
    }
}

/// Field `k` (counted from zero) of `s` split at every `-`, or `None` where `s`
/// has no more than `k` fields. A text with `m` dashes has `m + 1` fields.
pub open spec fn field(s: Seq<char>, k: nat) -> Option<Seq<char>>
    decreases k,
{
    if k == 0 {
        Some(first_field(s))
    } else {
        match after_dash(s) {
            Some(t) => field(t, (k - 1) as nat),
            None => None,
        }
    }
}

/// The fields of `s` counted from the one that starts at `at`; none at all
/// where `at` is `None`.
pub open spec fn field_from(s: Seq<char>, at: Option<usize>, k: nat) -> Option<Seq<char>> {
    match at {
        Some(p) => field(s.subrange(p as int, s.len() as int), k),
        None => None,
    }
}

/// Whether `c` is a hexadecimal digit, of either case.
pub open spec fn is_hex_digit(c: char) -> bool {
    ('0' <= c && c <= '9') || ('a' <= c && c <= 'f') || ('A' <= c && c <= 'F')
}

/// The value of a hexadecimal digit of either case.
pub open spec fn digit_value(c: char) -> nat {
    if '0' <= c && c <= '9' {
        (c as u32 - '0' as u32) as nat
    } else if 'a' <= c && c <= 'f' {
        (c as u32 - 'a' as u32 + 10) as nat
    } else {
        (c as u32 - 'A' as u32 + 10) as nat
    }
}

/// The number that the digits of `g` spell in base sixteen.
pub open spec fn hex_value(g: Seq<char>) -> nat
    decreases g.len(),
{
    if g.len() == 0 {
        0
    } else {
        hex_value(g.drop_last()) * 16 + digit_value(g.last())
    }
}

/// Whether `g` reads as a 16-bit number in hexadecimal: at least one digit,
/// every character a digit of either case (no sign, no `0x`), and a value
/// below 2^16. Leading zeros are allowed.
pub open spec fn is_group(g: Seq<char>) -> bool {
    &&& g.len() > 0
    &&& forall|i: int| 0 <= i < g.len() ==> is_hex_digit(#[trigger] g[i])
    &&& hex_value(g) < 0x1_0000
}

/// The value of field `k` of `s`, where that field is a hexadecimal group.
pub open spec fn group_at(s: Seq<char>, k: nat) -> Option<nat> {
    match field(s, k) {
        Some(g) => if is_group(g) {
            Some(hex_value(g))
        } else {
            None
        },
        None => None,
    }
}

/// Four 16-bit groups packed into one number, the first in the top bits.
pub open spec fn pack(a: nat, b: nat, c: nat, d: nat) -> nat {
    a * 0x1_0000_0000_0000 + b * 0x1_0000_0000 + c * 0x1_0000 + d
}

/// The key that the text `s` stands for, or `None` where it is no key.
/// Split at every `-`, the first field must be `203c`, the second `d001`,
/// and the next four hexadecimal groups; later fields are not looked at.
pub open spec fn parse_key(s: Seq<char>) -> Option<u64> {
    if field(s, 0) == Some(seq!['2', '0', '3', 'c']) && field(s, 1) == Some(
        seq!['d', '0', '0', '1'],
    ) && group_at(s, 2) is Some && group_at(s, 3) is Some && group_at(s, 4) is Some && group_at(
        s,
        5,
    ) is Some {
        Some(
            pack(
                group_at(s, 2)->0,
                group_at(s, 3)->0,
                group_at(s, 4)->0,
                group_at(s, 5)->0,
            ) as u64,
        )
    } else {
        None
    }
}

/// The text that the checksum is taken of: the sixteen lowercase hexadecimal
/// digits of `v`, zero-padded, as ASCII.
pub open spec fn checksum_input(v: u64) -> Seq<u8> {
    hex_digits(v as nat, 16)
}

/// The password for the key value `v`.
pub open spec fn password_of(v: u64) -> Seq<char> {
    hex_natural(jamcrc_of(checksum_input(v)) as nat)
}

/// The password for a checksum value: the value in lowercase hexadecimal,
/// without padding.
pub fn password_from_checksum(sum: u32) -> (r: String)
    ensures
        r@ == hex_natural(sum as nat),
{
    natural_hex(sum)
}

/// A recovery key: the 64 bits that its four groups spell, the first group
/// in the top bits. A value of this type comes only from parsing.
#[derive(Clone, Copy, Debug, PartialEq, Eq)]
pub struct RecoveryKey(u64);

impl View for RecoveryKey {
    type V = u64;

    closed spec fn view(&self) -> u64 {
        self.0
    }
}

/// The text given is not a recovery key.
#[derive(Clone, Copy, Debug, PartialEq, Eq)]
pub struct InvalidKey;

impl InvalidKey {
    /// What the error says, for display.
    pub fn message(&self) -> (r: &'static str)
        ensures
            r@ == "invalid key"@,
    {
        "invalid key"
    }
}

impl RecoveryKey {
    /// Parses a recovery key of the form `203c-d001-xxxx-xxxx-xxxx-xxxx`. The
    /// caller trims surrounding white space; fields after the sixth are
    /// ignored.
    pub fn from_str(s: &str) -> (r: Result<RecoveryKey, InvalidKey>)
        ensures
            match r {
                Ok(k) => parse_key(s@) == Some(k@),
                Err(_) => parse_key(s@) is None,
            },
    {
        let n = s.unicode_len();
        proof {
            assert(s@.subrange(0, n as int) =~= s@);
            reveal_strlit("203c");
            reveal_strlit("d001");
            assert("203c"@ =~= seq!['2', '0', '3', 'c']);
            assert("d001"@ =~= seq!['d', '0', '0', '1']);
        }
        let (a0, e0, c1) = match next_field(s, n, Some(0)) {
            Some(f) => f,
            None => return Err(InvalidKey),
        };
        if !span_is(s, a0, e0, "203c") {
            return Err(InvalidKey);
        }
        let (a1, e1, c2) = match next_field(s, n, c1) {
            Some(f) => f,
            None => return Err(InvalidKey),
        };
        assert(field(s@, 1) == field_from(s@, c1, 0));
        if !span_is(s, a1, e1, "d001") {
            return Err(InvalidKey);
        }
        assert(field(s@, 2) == field_from(s@, c2, 0));
        let (g2, c3) = match read_group(s, n, c2) {
            Some(x) => x,
            None => return Err(InvalidKey),
        };
        assert(field(s@, 3) == field_from(s@, c3, 0));
        let (g3, c4) = match read_group(s, n, c3) {
            Some(x) => x,
            None => return Err(InvalidKey),
        };
        assert(field(s@, 4) == field_from(s@, c4, 0));
        let (g4, c5) = match read_group(s, n, c4) {
            Some(x) => x,
            None => return Err(InvalidKey),
        };
        assert(field(s@, 5) == field_from(s@, c5, 0));
        let (g5, _) = match read_group(s, n, c5) {
            Some(x) => x,
            None => return Err(InvalidKey),
        };
        let value: u64 = g2 as u64 * 0x1_0000_0000_0000 + g3 as u64 * 0x1_0000_0000 + g4 as u64
            * 0x1_0000 + g5 as u64;
        Ok(RecoveryKey(value))
    }

    /// The unlock password for this key: the CRC-32/JAMCRC checksum of the
    /// key's sixteen zero-padded lowercase hexadecimal digits, written in
    /// lowercase hexadecimal without padding.
    pub fn calculate_password(&self) -> (r: String)
        ensures
            r@ == password_of(self@),
    {
        let text = fixed_hex(self.0);
        let sum = jamcrc(text.as_slice());
        password_from_checksum(sum)
    }

    /// The 64-bit value of the key.
    pub fn value(&self) -> (r: u64)
        ensures
            r == self@,
    {
        self.0
    }
}

impl std::str::FromStr for RecoveryKey {
    type Err = InvalidKey;

    fn from_str(s: &str) -> Result<RecoveryKey, InvalidKey> {
        RecoveryKey::from_str(s)
    }
}

/// The group that starts at `at`, where it is one, and where the field after
/// it starts.
fn read_group(s: &str, n: usize, at: Option<usize>) -> (r: Option<(u16, Option<usize>)>)
    requires
        n == s@.len(),
        at matches Some(p) ==> p <= n,
    ensures
        r is Some <==> (field_from(s@, at, 0) matches Some(g) && is_group(g)),
        r matches Some((v, next)) ==> {
            &&& field_from(s@, at, 0) matches Some(g) && v == hex_value(g)
            &&& next matches Some(q) ==> q <= n
            &&& forall|k: nat| field_from(s@, at, k + 1) == field_from(s@, next, k)
        },
{
    let (start, end, next) = match next_field(s, n, at) {
        Some(f) => f,
        None => return None,
    };
    match group_value(s, start, end) {
        Some(v) => Some((v, next)),
        None => None,
    }
}

pub(crate) proof fn lemma_scan_no_dash(t: Seq<char>, m: int)
    requires
        0 <= m <= t.len(),
        forall|i: int| 0 <= i < m ==> t[i] != '-',
    ensures
        first_field(t) == t.subrange(0, m) + first_field(t.subrange(m, t.len() as int)),
        after_dash(t) == after_dash(t.subrange(m, t.len() as int)),
    decreases m,
{
    if m == 0 {
        assert(t.subrange(0, 0) + first_field(t) =~= first_field(t));
        assert(t.subrange(0, t.len() as int) =~= t);
    } else {
        let u = t.drop_first();
        lemma_scan_no_dash(u, m - 1);
        assert(u.subrange(m - 1, u.len() as int) =~= t.subrange(m, t.len() as int));
        assert(seq![t[0]] + u.subrange(0, m - 1) =~= t.subrange(0, m));
        assert(seq![t[0]] + (u.subrange(0, m - 1) + first_field(t.subrange(m, t.len() as int)))
            =~= t.subrange(0, m) + first_field(t.subrange(m, t.len() as int)));
    }
}

proof fn lemma_hex_value_prefix(g: Seq<char>, i: int)
    requires
        0 <= i <= g.len(),
    ensures
        hex_value(g.subrange(0, i)) <= hex_value(g),
    decreases g.len(),
{
    if i == g.len() {
        assert(g.subrange(0, i) =~= g);
    } else {
        lemma_hex_value_prefix(g.drop_last(), i);
        assert(g.drop_last().subrange(0, i) =~= g.subrange(0, i));
    }
}

fn digit_of(c: char) -> (r: Option<u32>)
    ensures
        r == (if is_hex_digit(c) {
            Some(digit_value(c) as u32)
        } else {
            None
        }),
{
    if '0' <= c && c <= '9' {
        Some(c as u32 - '0' as u32)
    } else if 'a' <= c && c <= 'f' {
        Some(c as u32 - 'a' as u32 + 10)
    } else if 'A' <= c && c <= 'F' {
        Some(c as u32 - 'A' as u32 + 10)
    } else {
        None
    }
}

/// The value of the hexadecimal group `s[start..end]`, where it is one.
fn group_value(s: &str, start: usize, end: usize) -> (r: Option<u16>)
    requires
        start <= end <= s@.len(),
    ensures
        r is Some <==> is_group(s@.subrange(start as int, end as int)),
        r matches Some(v) ==> v == hex_value(s@.subrange(start as int, end as int)),
{
    let ghost g = s@.subrange(start as int, end as int);
    if start == end {
        return None;
    }
    let mut acc: u32 = 0;
    let mut i: usize = start;
    while i < end
        invariant
            start <= i <= end <= s@.len(),
            g == s@.subrange(start as int, end as int),
            acc < 0x1_0000,
            acc == hex_value(s@.subrange(start as int, i as int)),
            forall|j: int| start <= j < i ==> is_hex_digit(#[trigger] s@[j]),
        decreases end - i,
    {
        let c = s.get_char(i);
        let d = match digit_of(c) {
            Some(d) => d,
            None => {
                assert(!is_hex_digit(g[i - start]));
                return None;
            },
        };
        let ghost before = s@.subrange(start as int, i as int);
        let ghost after = s@.subrange(start as int, i + 1);
        assert(after.drop_last() =~= before);
        acc = acc * 16 + d;
        if acc >= 0x1_0000 {
            proof {
                assert(g.subrange(0, i + 1 - start) =~= after);
                lemma_hex_value_prefix(g, i + 1 - start);
            }
            return None;
        }
        i = i + 1;
    }
    assert(s@.subrange(start as int, i as int) =~= g);
    assert forall|j: int| 0 <= j < g.len() implies is_hex_digit(#[trigger] g[j]) by {
        assert(g[j] == s@[start + j]);
    }
    Some(acc as u16)
}

/// Whether `s[start..end]` is the text `lit`.
fn span_is(s: &str, start: usize, end: usize, lit: &str) -> (r: bool)
    requires
        start <= end <= s@.len(),
    ensures
        r == (s@.subrange(start as int, end as int) == lit@),
{
    let len = lit.unicode_len();
    if end - start != len {
        return false;
    }
    let mut i: usize = 0;
    while i < len
        invariant
            i <= len == lit@.len() == end - start,
            start <= end <= s@.len(),
            forall|j: int| 0 <= j < i ==> s@[start + j] == lit@[j],
        decreases len - i,
    {
        if s.get_char(start + i) != lit.get_char(i) {
            assert(s@.subrange(start as int, end as int)[i as int] != lit@[i as int]);
            return false;
        }
        i = i + 1;
    }
    assert(s@.subrange(start as int, end as int) =~= lit@);
    true
}

/// The span of the field that starts at `at` (where one does), and where
/// the field after it starts.
fn next_field(s: &str, n: usize, at: Option<usize>) -> (r: Option<(usize, usize, Option<usize>)>)
    requires
        n == s@.len(),
        at matches Some(p) ==> p <= n,
    ensures
        r is None <==> at is None,
        r matches Some((start, end, next)) ==> {
            &&& start <= end <= n
            &&& field_from(s@, at, 0) == Some(s@.subrange(start as int, end as int))
            &&& next matches Some(q) ==> q <= n
            &&& forall|k: nat| field_from(s@, at, k + 1) == field_from(s@, next, k)
        },
{
    let start = match at {
        Some(p) => p,
        None => return None,
    };
    let mut end: usize = start;
    while end < n && s.get_char(end) != '-'
        invariant
            start <= end <= n,
            n == s@.len(),
            forall|i: int| start <= i < end ==> s@[i] != '-',
        decreases n - end,
    {
        end = end + 1;
    }
    let ghost t = s@.subrange(start as int, n as int);
    let ghost rest = s@.subrange(end as int, n as int);
    proof {
        lemma_scan_no_dash(t, end - start);
        assert(t.subrange(0, end - start) =~= s@.subrange(start as int, end as int));
        assert(t.subrange(end - start, t.len() as int) =~= rest);
    }
    if end < n {
        proof {
            assert(rest.drop_first() =~= s@.subrange(end + 1, n as int));
            assert(first_field(rest) =~= Seq::<char>::empty());
            assert(s@.subrange(start as int, end as int) + Seq::<char>::empty()
                =~= s@.subrange(start as int, end as int));
        }
        Some((start, end, Some(end + 1)))
    } else {
        proof {
            assert(rest =~= Seq::<char>::empty());
            assert(s@.subrange(start as int, end as int) + first_field(rest)
                =~= s@.subrange(start as int, end as int));
        }
        Some((start, end, None))
    }
}

} // verus!
