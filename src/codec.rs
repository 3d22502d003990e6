//! The text encoding of leaf values stored in a patch.

use vstd::prelude::*;

verus! {

#[verifier::external_type_specification]
#[verifier::external_body]
pub struct ExJsonError(serde_json::Error);

/// The decimal digit for `d < 10`.
pub open spec fn digit(d: nat) -> char {
    if d == 0 {
        '0'
    } else if d == 1 {
        '1'
    } else if d == 2 {
        '2'
    } else if d == 3 {
        '3'
    } else if d == 4 {
        '4'
    } else if d == 5 {
        '5'
    } else if d == 6 {
        '6'
    } else if d == 7 {
        '7'
    } else if d == 8 {
        '8'
    } else {
        '9'
    }
}

/// The decimal text of `n`, without leading zeros.
pub open spec fn nat_text(n: nat) -> Seq<char>
    decreases n,
{
    if n < 10 {
        seq![digit(n)]
    } else {
        nat_text(n / 10).push(digit(n % 10))
    }
}

/// The JSON text of the integer `v`: its decimal digits, after a minus sign
/// when it is negative.
pub open spec fn int_text(v: int) -> Seq<char> {
    if v < 0 {
        seq!['-'] + nat_text((-v) as nat)
    } else {
        nat_text(v as nat)
    }
}

proof fn lemma_nat_text_shape(n: nat)
    ensures
        nat_text(n).len() >= 1,
        nat_text(n)[0] != '-',
        n >= 10 ==> nat_text(n).len() >= 2,
    decreases n,
{
    if n >= 10 {
        lemma_nat_text_shape(n / 10);
    }
}

proof fn lemma_nat_text_injective(a: nat, b: nat)
    requires
        nat_text(a) == nat_text(b),
    ensures
        a == b,
    decreases a,
{
    lemma_nat_text_shape(a);
    lemma_nat_text_shape(b);
    if a >= 10 && b >= 10 {
        let ta = nat_text(a);
        assert(ta.last() == digit(a % 10));
        assert(nat_text(b).last() == digit(b % 10));
        assert(ta.drop_last() =~= nat_text(a / 10));
        assert(nat_text(b).drop_last() =~= nat_text(b / 10));
        lemma_nat_text_injective(a / 10, b / 10);
    }
}

/// Distinct integers have distinct texts.
pub proof fn lemma_int_text_injective(a: int, b: int)
    requires
        int_text(a) == int_text(b),
    ensures
        a == b,
{
    lemma_nat_text_shape((-a) as nat);
    lemma_nat_text_shape((-b) as nat);
    lemma_nat_text_shape(a as nat);
    lemma_nat_text_shape(b as nat);
    if a < 0 && b < 0 {
        assert(int_text(a).subrange(1, int_text(a).len() as int) =~= nat_text((-a) as nat));
        assert(int_text(b).subrange(1, int_text(b).len() as int) =~= nat_text((-b) as nat));
        lemma_nat_text_injective((-a) as nat, (-b) as nat);
    } else if a >= 0 && b >= 0 {
        lemma_nat_text_injective(a as nat, b as nat);
    } else {
        assert(int_text(a)[0] != int_text(b)[0]);
    }
}

/// The lower-case hexadecimal digit for `d < 16`.
pub open spec fn hex_digit(d: nat) -> char {
    if d < 10 {
        digit(d)
    } else if d == 10 {
        'a'
    } else if d == 11 {
        'b'
    } else if d == 12 {
        'c'
    } else if d == 13 {
        'd'
    } else if d == 14 {
        'e'
    } else {
        'f'
    }
}

/// How one character stands inside a JSON string: a quote, a backslash and
/// each control character below U+0020 are escaped (the five with a short
/// escape by it, the rest as `\u00` and two hex digits); any other
/// character stands for itself.
pub open spec fn escaped(c: char) -> Seq<char> {
    if c == '"' {
        seq!['\\', '"']
    } else if c == '\\' {
        seq!['\\', '\\']
    } else if c == '\x08' {
        seq!['\\', 'b']
    } else if c == '\x0c' {
        seq!['\\', 'f']
    } else if c == '\n' {
        seq!['\\', 'n']
    } else if c == '\r' {
        seq!['\\', 'r']
    } else if c == '\t' {
        seq!['\\', 't']
    } else if (c as u32) < 0x20 {
        seq!['\\', 'u', '0', '0', hex_digit((c as u32 / 16) as nat), hex_digit((c as u32 % 16) as nat)]
    } else {
        seq![c]
    }
}

/// The characters of `s`, each as it stands inside a JSON string.
pub open spec fn escaped_all(s: Seq<char>) -> Seq<char>
    decreases s.len(),
{
    if s.len() == 0 {
        Seq::<char>::empty()
    } else {
        escaped(s[0]) + escaped_all(s.subrange(1, s.len() as int))
    }
}

/// The JSON text of the string `s`: its escaped characters within quotes.
pub open spec fn json_text_of(s: Seq<char>) -> Seq<char> {
    seq!['"'] + escaped_all(s) + seq!['"']
}

proof fn lemma_escaped_first(c1: char, c2: char, t1: Seq<char>, t2: Seq<char>)
    requires
        escaped(c1) + t1 == escaped(c2) + t2,
    ensures
        c1 == c2,
{
    let o = escaped(c1) + t1;
    let e1 = escaped(c1);
    let e2 = escaped(c2);
    assert(o[0] == e1[0]);
    assert(o[0] == e2[0]);
    if e1.len() >= 2 && e2.len() >= 2 {
        assert(o[1] == e1[1]);
        assert(o[1] == e2[1]);
        if e1.len() == 6 && e2.len() == 6 {
            assert(o[4] == e1[4] && o[4] == e2[4]);
            assert(o[5] == e1[5] && o[5] == e2[5]);
            let n1 = c1 as u32;
            let n2 = c2 as u32;
            assert(n1 / 16 == n2 / 16);
            assert(n1 % 16 == n2 % 16);
            assert(n1 == n2);
        }
    }
}

proof fn lemma_escaped_all_injective(s1: Seq<char>, s2: Seq<char>)
    requires
        escaped_all(s1) == escaped_all(s2),
    ensures
        s1 == s2,
    decreases s1.len(),
{
    if s1.len() == 0 {
        if s2.len() > 0 {
            assert(escaped_all(s2).len() > 0);
        }
        assert(s1 =~= s2);
    } else {
        if s2.len() == 0 {
            assert(escaped_all(s1).len() > 0);
        }
        let r1 = s1.subrange(1, s1.len() as int);
        let r2 = s2.subrange(1, s2.len() as int);
        lemma_escaped_first(s1[0], s2[0], escaped_all(r1), escaped_all(r2));
        let n = escaped(s1[0]).len() as int;
        assert(escaped_all(s1).subrange(n, escaped_all(s1).len() as int) =~= escaped_all(r1));
        assert(escaped_all(s2).subrange(n, escaped_all(s2).len() as int) =~= escaped_all(r2));
        lemma_escaped_all_injective(r1, r2);
        assert(s1 =~= seq![s1[0]] + r1);
        assert(s2 =~= seq![s2[0]] + r2);
    }
}

/// Distinct strings have distinct JSON texts.
pub proof fn lemma_json_text_injective(a: Seq<char>, b: Seq<char>)
    requires
        json_text_of(a) == json_text_of(b),
    ensures
        a == b,
{
    let ta = json_text_of(a);
    let tb = json_text_of(b);
    assert(ta.subrange(1, ta.len() - 1) =~= escaped_all(a));
    assert(tb.subrange(1, tb.len() - 1) =~= escaped_all(b));
    lemma_escaped_all_injective(a, b);
}

/// The JSON text of the boolean `b`.
pub open spec fn bool_text(b: bool) -> Seq<char> {
    if b {
        seq!['t', 'r', 'u', 'e']
    } else {
        seq!['f', 'a', 'l', 's', 'e']
    }
}

/// Relies on serde_json::to_string on a bool: `true` or `false`. Writing
/// into memory, it does not fail.
#[verifier::external_body]
pub(crate) fn encode_bool(b: bool) -> (r: Result<String, serde_json::Error>)
    ensures
        r is Ok && r->Ok_0@ == bool_text(b),
{
    serde_json::to_string(&b)
}

/// Relies on serde_json::from_str into a bool: the text of a boolean reads
/// back as that boolean.
#[verifier::external_body]
pub(crate) fn decode_bool(s: &str) -> (r: Result<bool, serde_json::Error>)
    ensures
        forall|b: bool| s@ == bool_text(b) ==> r is Ok && r->Ok_0 == b,
{
    serde_json::from_str::<bool>(s)
}

/// Relies on serde_json::to_string on a char: the text of the string that
/// holds just that character. Writing into memory, it does not fail.
#[verifier::external_body]
pub(crate) fn encode_char(c: char) -> (r: Result<String, serde_json::Error>)
    ensures
        r is Ok && r->Ok_0@ == json_text_of(seq![c]),
{
    serde_json::to_string(&c)
}

/// Relies on serde_json::from_str into a char: the text of a string of one
/// character reads back as that character.
#[verifier::external_body]
pub(crate) fn decode_char(s: &str) -> (r: Result<char, serde_json::Error>)
    ensures
        forall|c: char| s@ == json_text_of(seq![c]) ==> r is Ok && r->Ok_0 == c,
{
    serde_json::from_str::<char>(s)
}

/// Relies on serde_json::to_string on an i128: the integer's decimal text.
/// Writing into memory, it does not fail.
#[verifier::external_body]
pub(crate) fn encode_int(v: i128) -> (r: Result<String, serde_json::Error>)
    ensures
        r is Ok && r->Ok_0@ == int_text(v as int),
{
    serde_json::to_string(&v)
}

/// Relies on serde_json::from_str into an i128: the decimal text of an
/// integer reads back as that integer.
#[verifier::external_body]
pub(crate) fn decode_int(s: &str) -> (r: Result<i128, serde_json::Error>)
    ensures
        forall|v: i128| s@ == int_text(v as int) ==> r is Ok && r->Ok_0 == v,
{
    serde_json::from_str::<i128>(s)
}

/// Relies on serde_json::to_string on a u128: the integer's decimal text.
/// Writing into memory, it does not fail.
#[verifier::external_body]
pub(crate) fn encode_uint(v: u128) -> (r: Result<String, serde_json::Error>)
    ensures
        r is Ok && r->Ok_0@ == int_text(v as int),
{
    serde_json::to_string(&v)
}

/// Relies on serde_json::from_str into a u128: the decimal text of an
/// integer reads back as that integer.
#[verifier::external_body]
pub(crate) fn decode_uint(s: &str) -> (r: Result<u128, serde_json::Error>)
    ensures
        forall|v: u128| s@ == int_text(v as int) ==> r is Ok && r->Ok_0 == v,
{
    serde_json::from_str::<u128>(s)
}

/// Relies on serde_json::to_string on a str: the quoted, escaped text.
/// Writing into memory, it does not fail.
#[verifier::external_body]
pub(crate) fn encode_text(s: &str) -> (r: Result<String, serde_json::Error>)
    ensures
        r is Ok && r->Ok_0@ == json_text_of(s@),
{
    serde_json::to_string(s)
}

/// Relies on serde_json::from_str into a String: the text of a string reads
/// back as that string.
#[verifier::external_body]
pub(crate) fn decode_text(s: &str) -> (r: Result<String, serde_json::Error>)
    ensures
        forall|w: Seq<char>| s@ == json_text_of(w) ==> r is Ok && r->Ok_0@ == w,
{
    serde_json::from_str::<String>(s)
}

} // verus!
