//! What holds of parsing and deriving over all inputs.
use vstd::prelude::*;

use vstd::arithmetic::div_mod::{lemma_div_denominator, lemma_fundamental_div_mod, lemma_small_mod};

use crate::hex::hex_char;
use crate::key::{
    after_dash, digit_value, field, first_field, group_at, hex_value, is_group, is_hex_digit,
    lemma_scan_no_dash, pack, parse_key, password_of,
};

verus! {

/// Whether `a` holds no `-`.
pub open spec fn dash_free(a: Seq<char>) -> bool {
    forall|i: int| 0 <= i < a.len() ==> a[i] != '-'
}

/// The texts of `fs` joined with `-` between each two.
pub open spec fn dash_join(fs: Seq<Seq<char>>) -> Seq<char>
    decreases fs.len(),
{
    if fs.len() == 0 {
        Seq::empty()
    } else if fs.len() == 1 {
        fs[0]
    } else {
        fs[0] + seq!['-'] + dash_join(fs.drop_first())
    }
}

proof fn lemma_dash_free_alone(a: Seq<char>)
    requires
        dash_free(a),
    ensures
        first_field(a) == a,
        after_dash(a) is None,
{
    lemma_scan_no_dash(a, a.len() as int);
    assert(a.subrange(a.len() as int, a.len() as int) =~= Seq::<char>::empty());
    assert(a.subrange(0, a.len() as int) + Seq::<char>::empty() =~= a);
}

proof fn lemma_dash_free_then_dash(a: Seq<char>, b: Seq<char>)
    requires
        dash_free(a),
    ensures
        first_field(a + seq!['-'] + b) == a,
        after_dash(a + seq!['-'] + b) == Some(b),
{
    let s = a + seq!['-'] + b;
    lemma_scan_no_dash(s, a.len() as int);
    let rest = s.subrange(a.len() as int, s.len() as int);
    assert(rest =~= seq!['-'] + b);
    assert(rest.drop_first() =~= b);
    assert(s.subrange(0, a.len() as int) + Seq::<char>::empty() =~= a);
}

/// The text that every key starts with.
pub open spec fn key_prefix() -> Seq<char> {
    seq!['2', '0', '3', 'c', '-', 'd', '0', '0', '1', '-']
}

/// A text that does not start with `203c-d001-` is no key.
pub proof fn lemma_prefix_required(s: Seq<char>)
    requires
        !(s.len() >= 10 && s.subrange(0, 10) == key_prefix()),
    ensures
        parse_key(s) is None,
{
    if parse_key(s) is Some {
        assert(field(s, 2) is Some);
        let t1 = after_dash(s)->0;
        assert(field(s, 1) == field(t1, 0));
        assert(field(s, 2) == field(t1, 1));
        let t2 = after_dash(t1)->0;
        lemma_first_field_split(s);
        lemma_first_field_split(t1);
        assert(s =~= seq!['2', '0', '3', 'c'] + seq!['-'] + (seq!['d', '0', '0', '1'] + seq!['-']
            + t2));
        assert(s.subrange(0, 10) =~= key_prefix());
    }
}

/// A text with fewer than six fields, that is with fewer than four groups
/// after `203c-d001-`, is no key.
pub proof fn lemma_four_groups_required(s: Seq<char>)
    requires
        field(s, 5) is None,
    ensures
        parse_key(s) is None,
{
}

/// A text in which one of the four groups holds a character that is no
/// hexadecimal digit is no key.
pub proof fn lemma_groups_are_hex(s: Seq<char>, k: nat, i: int)
    requires
        2 <= k <= 5,
        field(s, k) matches Some(g) && 0 <= i < g.len() && !is_hex_digit(g[i]),
    ensures
        parse_key(s) is None,
{
    assert(group_at(s, k) is None);
}

/// Fields after the sixth are not looked at: a text parses as the text of its
/// first six fields alone.
pub proof fn lemma_extra_fields_ignored(fs: Seq<Seq<char>>)
    requires
        fs.len() >= 6,
        forall|i: int| 0 <= i < fs.len() ==> dash_free(#[trigger] fs[i]),
    ensures
        parse_key(dash_join(fs)) == parse_key(dash_join(fs.subrange(0, 6))),
{
    let six = fs.subrange(0, 6);
    assert forall|i: int| 0 <= i < six.len() implies dash_free(#[trigger] six[i]) by {
        assert(six[i] == fs[i]);
    }
    lemma_fields_of_join(fs, 0);
    lemma_fields_of_join(six, 0);
    lemma_fields_of_join(fs, 1);
    lemma_fields_of_join(six, 1);
    lemma_fields_of_join(fs, 2);
    lemma_fields_of_join(six, 2);
    lemma_fields_of_join(fs, 3);
    lemma_fields_of_join(six, 3);
    lemma_fields_of_join(fs, 4);
    lemma_fields_of_join(six, 4);
    lemma_fields_of_join(fs, 5);
    lemma_fields_of_join(six, 5);
    assert(field(dash_join(fs), 0) == field(dash_join(six), 0));
    assert(field(dash_join(fs), 1) == field(dash_join(six), 1));
    assert(group_at(dash_join(fs), 2) == group_at(dash_join(six), 2));
    assert(group_at(dash_join(fs), 3) == group_at(dash_join(six), 3));
    assert(group_at(dash_join(fs), 4) == group_at(dash_join(six), 4));
    assert(group_at(dash_join(fs), 5) == group_at(dash_join(six), 5));
}

/// Parsing and deriving depend on the text alone: two equal texts that are
/// keys give the same key, and so the same password, on every call.
pub proof fn lemma_password_determined(s: Seq<char>, t: Seq<char>)
    requires
        s == t,
        parse_key(s) is Some,
    ensures
        parse_key(t) == parse_key(s),
        password_of(parse_key(s)->0) == password_of(parse_key(t)->0),
{
}

/// The 16-bit group `g` as four lowercase hexadecimal digits, zero-padded.
pub open spec fn group_text(g: nat) -> Seq<char> {
    seq![hex_char(g / 0x1000 % 16), hex_char(g / 0x100 % 16), hex_char(g / 0x10 % 16), hex_char(g % 16)]
}

/// The key text for `v`: `203c`, `d001` and the four 16-bit groups of `v`,
/// the top group first, joined with `-`.
pub open spec fn key_text(v: u64) -> Seq<char> {
    dash_join(
        seq![
            seq!['2', '0', '3', 'c'],
            seq!['d', '0', '0', '1'],
            group_text(v as nat / 0x1_0000_0000_0000 % 0x1_0000),
            group_text(v as nat / 0x1_0000_0000 % 0x1_0000),
            group_text(v as nat / 0x1_0000 % 0x1_0000),
            group_text(v as nat % 0x1_0000),
        ],
    )
}

proof fn lemma_hex_char(d: nat)
    requires
        d < 16,
    ensures
        is_hex_digit(hex_char(d)),
        digit_value(hex_char(d)) == d,
        hex_char(d) != '-',
{
}

proof fn lemma_group_text(g: nat)
    requires
        g < 0x1_0000,
    ensures
        dash_free(group_text(g)),
        is_group(group_text(g)),
        hex_value(group_text(g)) == g,
{
    let t = group_text(g);
    let (a, b, c, d) = (g / 0x1000 % 16, g / 0x100 % 16, g / 0x10 % 16, g % 16);
    lemma_hex_char(a);
    lemma_hex_char(b);
    lemma_hex_char(c);
    lemma_hex_char(d);
    let t1 = seq![hex_char(a)];
    let t2 = seq![hex_char(a), hex_char(b)];
    let t3 = seq![hex_char(a), hex_char(b), hex_char(c)];
    assert(t1.drop_last() =~= Seq::<char>::empty());
    assert(hex_value(Seq::<char>::empty()) == 0);
    assert(t1.last() == hex_char(a));
    assert(hex_value(t1) == a);
    assert(t2.drop_last() =~= t1);
    assert(t2.last() == hex_char(b));
    assert(hex_value(t2) == a * 16 + b);
    assert(t3.drop_last() =~= t2);
    assert(t3.last() == hex_char(c));
    assert(hex_value(t3) == (a * 16 + b) * 16 + c);
    assert(t.drop_last() =~= t3);
    assert(t.last() == hex_char(d));
    assert(hex_value(t) == ((a * 16 + b) * 16 + c) * 16 + d);
    assert(((a * 16 + b) * 16 + c) * 16 + d == g);
}

/// Writing any 64-bit value as four zero-padded hexadecimal groups after
/// `203c-d001-` and parsing that text gives the value back.
pub proof fn lemma_round_trip(v: u64)
    ensures
        parse_key(key_text(v)) == Some(v),
{
    let n = v as nat;
    let (a, b, c, d) = (
        n / 0x1_0000_0000_0000 % 0x1_0000,
        n / 0x1_0000_0000 % 0x1_0000,
        n / 0x1_0000 % 0x1_0000,
        n % 0x1_0000,
    );
    let fs = seq![
        seq!['2', '0', '3', 'c'],
        seq!['d', '0', '0', '1'],
        group_text(a),
        group_text(b),
        group_text(c),
        group_text(d),
    ];
    lemma_group_text(a);
    lemma_group_text(b);
    lemma_group_text(c);
    lemma_group_text(d);
    assert forall|i: int| 0 <= i < fs.len() implies dash_free(#[trigger] fs[i]) by {
        if i < 2 {
            assert(dash_free(fs[i]));
        }
    }
    lemma_fields_of_join(fs, 0);
    lemma_fields_of_join(fs, 1);
    lemma_fields_of_join(fs, 2);
    lemma_fields_of_join(fs, 3);
    lemma_fields_of_join(fs, 4);
    lemma_fields_of_join(fs, 5);
    lemma_pack_groups(n);
}

proof fn lemma_pack_groups(n: nat)
    requires
        n < 0x1_0000_0000_0000_0000,
    ensures
        pack(
            n / 0x1_0000_0000_0000 % 0x1_0000,
            n / 0x1_0000_0000 % 0x1_0000,
            n / 0x1_0000 % 0x1_0000,
            n % 0x1_0000,
        ) == n,
{
    let q1 = n / 0x1_0000;
    let q2 = q1 / 0x1_0000;
    let q3 = q2 / 0x1_0000;
    lemma_div_denominator(n as int, 0x1_0000, 0x1_0000);
    lemma_div_denominator(n as int, 0x1_0000_0000, 0x1_0000);
    lemma_fundamental_div_mod(n as int, 0x1_0000);
    lemma_fundamental_div_mod(q1 as int, 0x1_0000);
    lemma_fundamental_div_mod(q2 as int, 0x1_0000);
    assert(q3 < 0x1_0000);
    lemma_small_mod(q3, 0x1_0000);
}

/// Splitting at every `-` a text joined from dash-free fields gives those
/// fields back.
pub proof fn lemma_fields_of_join(fs: Seq<Seq<char>>, k: nat)
    requires
        fs.len() >= 1,
        forall|i: int| 0 <= i < fs.len() ==> dash_free(#[trigger] fs[i]),
    ensures
        field(dash_join(fs), k) == (if k < fs.len() {
            Some(fs[k as int])
        } else {
            None
        }),
    decreases k,
{
    if fs.len() == 1 {
        lemma_dash_free_alone(fs[0]);
    } else {
        lemma_dash_free_then_dash(fs[0], dash_join(fs.drop_first()));
        if k > 0 {
            lemma_fields_of_join(fs.drop_first(), (k - 1) as nat);
        }
    }
}

/// A text whose first field is `a` and that goes on after a `-` with `t` is
/// `a`, the dash and `t`.
proof fn lemma_first_field_split(s: Seq<char>)
    requires
        after_dash(s) is Some,
    ensures
        s == first_field(s) + seq!['-'] + after_dash(s)->0,
    decreases s.len(),
{
    if s[0] == '-' {
        assert(s =~= Seq::<char>::empty() + seq!['-'] + s.drop_first());
    } else {
        lemma_first_field_split(s.drop_first());
        assert(s =~= seq![s[0]] + (first_field(s.drop_first()) + seq!['-'] + after_dash(s)->0));
    }
}

} // verus!
