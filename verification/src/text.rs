//! String helpers: equality, lexicographic order, and uppercase-hex rendering.

use vstd::prelude::*;
use vstd::string::*;

verus! {

/// Lexicographic (code-point) order on character sequences: `a <= b`.
pub open spec fn lex_leq(a: Seq<char>, b: Seq<char>) -> bool
    decreases a.len(),
{
    if a.len() == 0 {
        true
    } else if b.len() == 0 {
        false
    } else if a[0] != b[0] {
        a[0] < b[0]
    } else {
        lex_leq(a.drop_first(), b.drop_first())
    }
}

/// Equal strings compare `lex_leq` both ways; it is reflexive.
pub proof fn lemma_lex_leq_reflexive(a: Seq<char>)
    ensures
        lex_leq(a, a),
    decreases a.len(),
{
    if a.len() > 0 {
        lemma_lex_leq_reflexive(a.drop_first());
    }
}

/// `lex_leq` is total: one of the two directions always holds.
pub proof fn lemma_lex_leq_total(a: Seq<char>, b: Seq<char>)
    ensures
        lex_leq(a, b) || lex_leq(b, a),
    decreases a.len(),
{
    if a.len() > 0 && b.len() > 0 && a[0] == b[0] {
        lemma_lex_leq_total(a.drop_first(), b.drop_first());
    }
}

/// `lex_leq` is transitive.
pub proof fn lemma_lex_leq_transitive(a: Seq<char>, b: Seq<char>, c: Seq<char>)
    requires
        lex_leq(a, b),
        lex_leq(b, c),
    ensures
        lex_leq(a, c),
    decreases a.len(),
{
    if a.len() > 0 && b.len() > 0 && c.len() > 0 && a[0] == b[0] && b[0] == c[0] {
        lemma_lex_leq_transitive(a.drop_first(), b.drop_first(), c.drop_first());
    }
}

/// Exact string equality, stated over the character views.
pub fn str_eq(a: &str, b: &str) -> (r: bool)
    ensures
        r == (a@ == b@),
{
    let x = a.to_owned();
    let y = b.to_owned();
    x == y
}

proof fn lemma_lex_leq_skip(a: Seq<char>, b: Seq<char>, i: int)
    requires
        0 <= i <= a.len(),
        0 <= i <= b.len(),
        a.subrange(0, i) == b.subrange(0, i),
    ensures
        lex_leq(a, b) == lex_leq(a.skip(i), b.skip(i)),
    decreases i,
{
    if i == 0 {
        assert(a.skip(0) =~= a);
        assert(b.skip(0) =~= b);
    } else {
        assert(a.len() > 0);
        assert(b.len() > 0);
        assert(a.subrange(0, i)[0] == a[0]);
        assert(b.subrange(0, i)[0] == b[0]);
        assert(a.drop_first().subrange(0, i - 1) == b.drop_first().subrange(0, i - 1)) by {
            assert(a.drop_first().subrange(0, i - 1) =~= a.subrange(0, i).drop_first());
            assert(b.drop_first().subrange(0, i - 1) =~= b.subrange(0, i).drop_first());
        }
        lemma_lex_leq_skip(a.drop_first(), b.drop_first(), i - 1);
        assert(a.drop_first().skip(i - 1) =~= a.skip(i));
        assert(b.drop_first().skip(i - 1) =~= b.skip(i));
    }
}

/// Lexicographic comparison of two strings: `a <= b` in code-point order.
pub fn str_leq(a: &str, b: &str) -> (r: bool)
    ensures
        r == lex_leq(a@, b@),
{
    let la = a.unicode_len();
    let lb = b.unicode_len();
    let min: usize = if la < lb { la } else { lb };
    let mut i: usize = 0;
    while i < min
        invariant
            0 <= i <= min,
            min <= la == a@.len(),
            min <= lb == b@.len(),
            a@.subrange(0, i as int) == b@.subrange(0, i as int),
        decreases min - i,
    {
        let ca = a.get_char(i);
        let cb = b.get_char(i);
        if ca != cb {
            proof {
                lemma_lex_leq_skip(a@, b@, i as int);
                assert(a@.skip(i as int)[0] == ca);
                assert(b@.skip(i as int)[0] == cb);
            }
            return ca < cb;
        }
        proof {
            assert(a@.subrange(0, i + 1) =~= a@.subrange(0, i as int).push(ca));
            assert(b@.subrange(0, i + 1) =~= b@.subrange(0, i as int).push(cb));
        }
        i = i + 1;
    }
    proof {
        lemma_lex_leq_skip(a@, b@, min as int);
        if la <= lb {
            assert(a@.skip(min as int).len() == 0);
        } else {
            assert(b@.skip(min as int).len() == 0);
            assert(a@.skip(min as int).len() > 0);
        }
    }
    la <= lb
}

/// One uppercase hexadecimal digit for a value below sixteen.
pub open spec fn spec_hex_digit(x: nat) -> char {
    if x == 0 { '0' } else if x == 1 { '1' } else if x == 2 { '2' } else if x == 3 { '3' }
    else if x == 4 { '4' } else if x == 5 { '5' } else if x == 6 { '6' } else if x == 7 { '7' }
    else if x == 8 { '8' } else if x == 9 { '9' } else if x == 10 { 'A' } else if x == 11 { 'B' }
    else if x == 12 { 'C' } else if x == 13 { 'D' } else if x == 14 { 'E' } else { 'F' }
}

/// Uppercase hexadecimal digits of `x`, most significant first, no padding;
/// a single `'0'` for zero.
pub open spec fn spec_hex_digits(x: nat) -> Seq<char>
    decreases x,
{
    if x < 16 {
        seq![spec_hex_digit(x)]
    } else {
        spec_hex_digits(x / 16).push(spec_hex_digit(x % 16))
    }
}

/// Uppercase hexadecimal rendering of `x`, left-padded with `'0'` to at least
/// two digits.
pub open spec fn spec_hex2(x: nat) -> Seq<char> {
    let d = spec_hex_digits(x);
    if d.len() >= 2 {
        d
    } else {
        Seq::new((2 - d.len()) as nat, |j: int| '0') + d
    }
}

/// `{:02X}`-style rendering: uppercase hex, left-padded to two digits.
pub fn hex2(x: u8) -> (r: String)
    ensures
        r@ == spec_hex2(x as nat),
{
    let digits = hex_digits(x as usize);
    let mut chars: Vec<char> = Vec::new();
    if digits.len() < 2 {
        chars.push('0');
    }
    let mut i: usize = 0;
    while i < digits.len()
        invariant
            0 <= i <= digits@.len(),
            chars@ =~= Seq::new(
                (if digits@.len() >= 2 {
                    0int
                } else {
                    2 - digits@.len()
                }) as nat,
                |j: int| '0',
            ) + digits@.subrange(0, i as int),
        decreases digits@.len() - i,
    {
        chars.push(digits[i]);
        i = i + 1;
    }
    proof {
        assert(digits@.subrange(0, digits@.len() as int) =~= digits@);
        assert(chars@ =~= spec_hex2(x as nat));
    }
    chars_to_string(&chars)
}

/// Uppercase hexadecimal rendering of `x`, left-padded with `'0'` to at least
/// four digits.
pub open spec fn spec_hex4(x: nat) -> Seq<char> {
    let d = spec_hex_digits(x);
    if d.len() >= 4 {
        d
    } else {
        Seq::new((4 - d.len()) as nat, |j: int| '0') + d
    }
}

fn hex_digit(x: u8) -> (r: char)
    requires
        x < 16,
    ensures
        r == spec_hex_digit(x as nat),
{
    match x {
        0 => '0', 1 => '1', 2 => '2', 3 => '3', 4 => '4', 5 => '5', 6 => '6', 7 => '7',
        8 => '8', 9 => '9', 10 => 'A', 11 => 'B', 12 => 'C', 13 => 'D', 14 => 'E', _ => 'F',
    }
}

fn hex_digits(x: usize) -> (r: Vec<char>)
    ensures
        r@ == spec_hex_digits(x as nat),
    decreases x,
{
    if x < 16 {
        let mut r: Vec<char> = Vec::new();
        r.push(hex_digit(x as u8));
        proof {
            assert(r@ =~= spec_hex_digits(x as nat));
        }
        r
    } else {
        let mut r = hex_digits(x / 16);
        r.push(hex_digit((x % 16) as u8));
        r
    }
}

/// `{:04X}`-style rendering: uppercase hex, left-padded to four digits.
pub fn hex4(x: usize) -> (r: String)
    ensures
        r@ == spec_hex4(x as nat),
{
    let digits = hex_digits(x);
    let mut chars: Vec<char> = Vec::new();
    let mut pad: usize = if digits.len() >= 4 { 0 } else { 4 - digits.len() };
    let ghost total_pad = pad as int;
    while pad > 0
        invariant
            0 <= pad <= total_pad,
            total_pad == if digits@.len() >= 4 { 0int } else { 4 - digits@.len() },
            chars@ =~= Seq::new((total_pad - pad) as nat, |j: int| '0'),
        decreases pad,
    {
        chars.push('0');
        pad = pad - 1;
    }
    let mut i: usize = 0;
    while i < digits.len()
        invariant
            0 <= i <= digits@.len(),
            chars@ =~= Seq::new(total_pad as nat, |j: int| '0') + digits@.subrange(0, i as int),
            total_pad == if digits@.len() >= 4 { 0int } else { 4 - digits@.len() },
        decreases digits@.len() - i,
    {
        chars.push(digits[i]);
        i = i + 1;
    }
    proof {
        assert(digits@.subrange(0, digits@.len() as int) =~= digits@);
        assert(chars@ =~= spec_hex4(x as nat));
    }
    chars_to_string(&chars)
}

/// Builds a `String` whose view is exactly the given character sequence.
pub fn chars_to_string(chars: &Vec<char>) -> (r: String)
    ensures
        r@ == chars@,
{
    let mut r = String::new();
    let mut i: usize = 0;
    while i < chars.len()
        invariant
            0 <= i <= chars@.len(),
            r@ =~= chars@.subrange(0, i as int),
        decreases chars@.len() - i,
    {
        r = push_char(r, chars[i]);
        i = i + 1;
    }
    proof {
        assert(chars@.subrange(0, chars@.len() as int) =~= chars@);
    }
    r
}

/// Relies on `String::push` from std: appends one character to the string.
#[verifier::external_body]
fn push_char(s: String, c: char) -> (r: String)
    ensures
        r@ == s@.push(c),
{
    let mut s = s;
    s.push(c);
    s
}

/// String concatenation, stated over the character views.
pub fn str_concat(a: &str, b: &str) -> (r: String)
    ensures
        r@ == a@ + b@,
{
    let mut r = a.to_owned();
    r.append(b);
    r
}

} // verus!
