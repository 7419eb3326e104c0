//! Grammar-to-regex compiler: parses the fixed BNF grammar for extended
//! grapheme-cluster boundaries, expands every nonterminal reference in place,
//! and renders the nonterminal-free tree as one regular expression.

use vstd::prelude::*;
use vstd::string::*;

use crate::details::GraphemeBreak;
use crate::text::{chars_to_string, hex2, spec_hex2, str_eq};

verus! {

/// A quantifier on one term.
#[derive(Clone, Copy, Debug, PartialEq, Eq, Structural)]
pub enum Repeat {
    One,
    Star,
    Plus,
}

/// One grapheme-break-class literal of the grammar.
#[derive(Clone, Copy, Debug, PartialEq, Eq, Structural)]
pub struct GcbValue(pub GraphemeBreak);

/// One term of a sequence.
#[derive(Debug)]
pub enum Term {
    Nonterminal(String),
    GcbValue(GcbValue),
    PropertyName(String),
    GcbClass(bool, Vec<GcbValue>),
    Group(Alternate),
}

/// One quantified term.
#[derive(Debug)]
pub struct TermRepeat {
    pub term: Term,
    pub repeat: Repeat,
}

/// A space-separated sequence of quantified terms.
#[derive(Debug)]
pub struct Sequence(pub Vec<TermRepeat>);

/// An alternation of sequences.
#[derive(Debug)]
pub struct Alternate(pub Vec<Sequence>);

/// One named production.
#[derive(Debug)]
pub struct Derivation {
    pub name: String,
    pub alternate: Alternate,
}

/// The whole grammar: ordered named productions, the first being the root.
#[derive(Debug)]
pub struct Grammar(pub Vec<Derivation>);

/// Why compiling the grammar failed.
#[derive(Clone, Copy, Debug, PartialEq, Eq, Structural)]
pub enum GrammarError {
    Syntax,
    UndefinedNonterminal,
    TooDeep,
    UnsupportedProperty,
}

// ---------------------------------------------------------------------------
// Character classes and scanners.
/// A space or tab.
pub open spec fn is_sp(c: char) -> bool {
    c == ' ' || c == '\t'
}

/// Any blank: space, tab, carriage return or newline.
pub open spec fn is_ws(c: char) -> bool {
    is_sp(c) || c == '\n' || c == '\r'
}

/// An ASCII lowercase letter.
pub open spec fn is_lower(c: char) -> bool {
    97 <= c as u32 <= 122
}

/// An ASCII uppercase letter.
pub open spec fn is_upper(c: char) -> bool {
    65 <= c as u32 <= 90
}

/// A character of a nonterminal name: lowercase or hyphen.
pub open spec fn is_nt_char(c: char) -> bool {
    c == '-' || is_lower(c)
}

/// A character of a property or class name: letter or underscore.
pub open spec fn is_name_char(c: char) -> bool {
    c == '_' || is_lower(c) || is_upper(c)
}

/// First position at or after `i` that is not a space or tab.
pub open spec fn skip_sp_spec(s: Seq<char>, i: int) -> int
    decreases s.len() - i,
{
    if 0 <= i < s.len() && is_sp(s[i]) {
        skip_sp_spec(s, i + 1)
    } else {
        i
    }
}

/// First position at or after `i` that is not blank.
pub open spec fn skip_ws_spec(s: Seq<char>, i: int) -> int
    decreases s.len() - i,
{
    if 0 <= i < s.len() && is_ws(s[i]) {
        skip_ws_spec(s, i + 1)
    } else {
        i
    }
}

/// End of the maximal run of nonterminal characters starting at `i`.
pub open spec fn munch_nt_spec(s: Seq<char>, i: int) -> int
    decreases s.len() - i,
{
    if 0 <= i < s.len() && is_nt_char(s[i]) {
        munch_nt_spec(s, i + 1)
    } else {
        i
    }
}

/// End of the maximal run of name characters starting at `i`.
pub open spec fn munch_name_spec(s: Seq<char>, i: int) -> int
    decreases s.len() - i,
{
    if 0 <= i < s.len() && is_name_char(s[i]) {
        munch_name_spec(s, i + 1)
    } else {
        i
    }
}

fn is_sp_exec(c: char) -> (r: bool)
    ensures
        r == is_sp(c),
{
    c == ' ' || c == '\t'
}

fn is_ws_exec(c: char) -> (r: bool)
    ensures
        r == is_ws(c),
{
    c == ' ' || c == '\t' || c == '\n' || c == '\r'
}

fn is_lower_exec(c: char) -> (r: bool)
    ensures
        r == is_lower(c),
{
    let u = c as u32;
    97 <= u && u <= 122
}

fn is_upper_exec(c: char) -> (r: bool)
    ensures
        r == is_upper(c),
{
    let u = c as u32;
    65 <= u && u <= 90
}

fn is_nt_char_exec(c: char) -> (r: bool)
    ensures
        r == is_nt_char(c),
{
    c == '-' || is_lower_exec(c)
}

fn is_name_char_exec(c: char) -> (r: bool)
    ensures
        r == is_name_char(c),
{
    c == '_' || is_lower_exec(c) || is_upper_exec(c)
}

fn skip_sp(s: &Vec<char>, i: usize) -> (r: usize)
    requires
        i <= s@.len(),
    ensures
        r == skip_sp_spec(s@, i as int),
        i <= r <= s@.len(),
    decreases s@.len() - i,
{
    if i < s.len() && is_sp_exec(s[i]) {
        skip_sp(s, i + 1)
    } else {
        i
    }
}

fn skip_ws(s: &Vec<char>, i: usize) -> (r: usize)
    requires
        i <= s@.len(),
    ensures
        r == skip_ws_spec(s@, i as int),
        i <= r <= s@.len(),
    decreases s@.len() - i,
{
    if i < s.len() && is_ws_exec(s[i]) {
        skip_ws(s, i + 1)
    } else {
        i
    }
}

fn munch_nt(s: &Vec<char>, i: usize) -> (r: usize)
    requires
        i <= s@.len(),
    ensures
        r == munch_nt_spec(s@, i as int),
        i <= r <= s@.len(),
    decreases s@.len() - i,
{
    if i < s.len() && is_nt_char_exec(s[i]) {
        munch_nt(s, i + 1)
    } else {
        i
    }
}

fn munch_name(s: &Vec<char>, i: usize) -> (r: usize)
    requires
        i <= s@.len(),
    ensures
        r == munch_name_spec(s@, i as int),
        i <= r <= s@.len(),
    decreases s@.len() - i,
{
    if i < s.len() && is_name_char_exec(s[i]) {
        munch_name(s, i + 1)
    } else {
        i
    }
}

proof fn lemma_munch_nt_ge(s: Seq<char>, i: int)
    ensures
        munch_nt_spec(s, i) >= i,
    decreases s.len() - i,
{
    if 0 <= i < s.len() && is_nt_char(s[i]) {
        lemma_munch_nt_ge(s, i + 1);
    }
}

proof fn lemma_munch_name_ge(s: Seq<char>, i: int)
    ensures
        munch_name_spec(s, i) >= i,
    decreases s.len() - i,
{
    if 0 <= i < s.len() && is_name_char(s[i]) {
        lemma_munch_name_ge(s, i + 1);
    }
}

/// The string of the characters `[i, j)`.
fn chars_substring(s: &Vec<char>, i: usize, j: usize) -> (r: String)
    requires
        i <= j <= s@.len(),
    ensures
        r@ == s@.subrange(i as int, j as int),
{
    let mut chars: Vec<char> = Vec::new();
    let mut k = i;
    while k < j
        invariant
            i <= k <= j <= s@.len(),
            chars@ =~= s@.subrange(i as int, k as int),
        decreases j - k,
    {
        chars.push(s[k]);
        proof {
            assert(chars@ =~= s@.subrange(i as int, k + 1));
        }
        k = k + 1;
    }
    chars_to_string(&chars)
}

// ---------------------------------------------------------------------------
// Where each construct written at a position ends: deterministic scans.
/// End of the grapheme-break-class literal list written at `i`: `n` items
/// separated by runs of spaces.
pub open spec fn gcb_items_end(s: Seq<char>, i: int, n: int) -> int
    decreases n,
{
    if n <= 1 {
        munch_name_spec(s, i)
    } else {
        gcb_items_end(s, skip_sp_spec(s, munch_name_spec(s, i)), n - 1)
    }
}

/// End of the term written at `i`.
pub open spec fn term_end(s: Seq<char>, i: int, t: Term) -> int
    decreases t, 0int, 0int,
{
    match t {
        Term::Nonterminal(_) => munch_nt_spec(s, i),
        Term::GcbValue(_) => munch_name_spec(s, i),
        Term::PropertyName(_) => munch_name_spec(s, i + 3) + 1,
        Term::GcbClass(not, gcbs) => gcb_items_end(
            s,
            if not {
                i + 2
            } else {
                i + 1
            },
            gcbs@.len() as int,
        ) + 1,
        Term::Group(alt) => alt_end(s, i + 1, alt) + 1,
    }
}

/// End of the quantified term written at `i`.
pub open spec fn term_repeat_end(s: Seq<char>, i: int, tr: TermRepeat) -> int
    decreases tr, 0int, 0int,
{
    term_end(s, i, tr.term) + (match tr.repeat {
        Repeat::One => 0int,
        Repeat::Star => 1int,
        Repeat::Plus => 1int,
    })
}

/// End of the items `[k, ..)` of the sequence written at `i`.
pub open spec fn seq_items_end(s: Seq<char>, i: int, sq: Sequence, k: int) -> int
    decreases sq, 0int, sq.0@.len() - k,
{
    if !(0 <= k < sq.0@.len()) {
        i
    } else if k == sq.0@.len() - 1 {
        term_repeat_end(s, i, sq.0@[k])
    } else {
        seq_items_end(s, skip_sp_spec(s, term_repeat_end(s, i, sq.0@[k])), sq, k + 1)
    }
}

/// End of the sequence written at `i`.
pub open spec fn seq_end(s: Seq<char>, i: int, sq: Sequence) -> int
    decreases sq, 1int, 0int,
{
    seq_items_end(s, i, sq, 0)
}

/// End of the alternatives `[k, ..)` written at `i`, trailing spaces eaten.
pub open spec fn alt_items_end(s: Seq<char>, i: int, a: Alternate, k: int) -> int
    decreases a, 0int, a.0@.len() - k,
{
    if !(0 <= k < a.0@.len()) {
        i
    } else if k == a.0@.len() - 1 {
        skip_sp_spec(s, seq_end(s, skip_sp_spec(s, i), a.0@[k]))
    } else {
        alt_items_end(s, skip_sp_spec(s, seq_end(s, skip_sp_spec(s, i), a.0@[k])) + 1, a, k + 1)
    }
}

/// End of the alternation written at `i`.
pub open spec fn alt_end(s: Seq<char>, i: int, a: Alternate) -> int
    decreases a, 1int, 0int,
{
    alt_items_end(s, i, a, 0)
}

// ---------------------------------------------------------------------------
// What it means for a tree to be the parse of the input at a position.
/// `name` is the nonterminal written at `i`.
pub open spec fn nonterminal_parses(s: Seq<char>, i: int, name: Seq<char>) -> bool {
    &&& 0 <= i < s.len()
    &&& is_lower(s[i])
    &&& name == s.subrange(i, munch_nt_spec(s, i))
}

/// `g` is the grapheme-break-class literal written at `i`.
pub open spec fn gcb_value_parses(s: Seq<char>, i: int, g: GcbValue) -> bool {
    &&& 0 <= i < s.len()
    &&& is_upper(s[i])
    &&& GraphemeBreak::spec_of_label(s.subrange(i, munch_name_spec(s, i))) == Some(g.0)
}

/// `gcbs` is the space-separated class-literal list written at `i`.
pub open spec fn gcb_items_parse(s: Seq<char>, i: int, gcbs: Seq<GcbValue>) -> bool
    decreases gcbs.len(),
{
    if gcbs.len() == 0 {
        false
    } else if gcbs.len() == 1 {
        gcb_value_parses(s, i, gcbs[0])
    } else {
        let e = munch_name_spec(s, i);
        let k = skip_sp_spec(s, e);
        &&& gcb_value_parses(s, i, gcbs[0])
        &&& k > e
        &&& gcb_items_parse(s, k, gcbs.drop_first())
    }
}

/// `t` is the term written at `i`; it ends at `term_end`.
pub open spec fn term_parses(s: Seq<char>, i: int, t: Term) -> bool
    decreases t, 0int, 0int,
{
    &&& 0 <= i < s.len()
    &&& term_end(s, i, t) <= s.len()
    &&& match t {
        Term::Nonterminal(n) => nonterminal_parses(s, i, n@),
        Term::GcbValue(g) => gcb_value_parses(s, i, g),
        Term::PropertyName(n) => {
            let e = munch_name_spec(s, i + 3);
            &&& i + 3 < s.len()
            &&& s[i] == '\\'
            &&& s[i + 1] == 'p'
            &&& s[i + 2] == '{'
            &&& is_upper(s[i + 3])
            &&& n@ == s.subrange(i + 3, e)
            &&& e < s.len()
            &&& s[e] == '}'
        },
        Term::GcbClass(not, gcbs) => {
            let items_at = if not {
                i + 2
            } else {
                i + 1
            };
            let e = gcb_items_end(s, items_at, gcbs@.len() as int);
            &&& s[i] == '['
            &&& (not ==> i + 1 < s.len() && s[i + 1] == '^')
            &&& gcb_items_parse(s, items_at, gcbs@)
            &&& e < s.len()
            &&& s[e] == ']'
        },
        Term::Group(alt) => {
            let e = alt_end(s, i + 1, alt);
            &&& s[i] == '('
            &&& alt_parses(s, i + 1, alt)
            &&& e < s.len()
            &&& s[e] == ')'
        },
    }
}

/// `tr` is the quantified term written at `i`.
pub open spec fn term_repeat_parses(s: Seq<char>, i: int, tr: TermRepeat) -> bool
    decreases tr, 0int, 0int,
{
    let e = term_end(s, i, tr.term);
    &&& term_parses(s, i, tr.term)
    &&& match tr.repeat {
        Repeat::One => e >= s.len() || (s[e] != '*' && s[e] != '+'),
        Repeat::Star => e < s.len() && s[e] == '*',
        Repeat::Plus => e < s.len() && s[e] == '+',
    }
}

/// The items `[k, ..)` of `sq` are written space-separated at `i`.
pub open spec fn seq_items_parse(s: Seq<char>, i: int, sq: Sequence, k: int) -> bool
    decreases sq, 0int, sq.0@.len() - k,
{
    if !(0 <= k < sq.0@.len()) {
        false
    } else if k == sq.0@.len() - 1 {
        term_repeat_parses(s, i, sq.0@[k])
    } else {
        let e = term_repeat_end(s, i, sq.0@[k]);
        let n = skip_sp_spec(s, e);
        &&& term_repeat_parses(s, i, sq.0@[k])
        &&& n > e
        &&& seq_items_parse(s, n, sq, k + 1)
    }
}

/// `sq` is the sequence written at `i`.
pub open spec fn seq_parses(s: Seq<char>, i: int, sq: Sequence) -> bool
    decreases sq, 1int, 0int,
{
    seq_items_parse(s, i, sq, 0)
}

/// The alternatives `[k, ..)` of `a` are written pipe-separated at `i`.
pub open spec fn alt_items_parse(s: Seq<char>, i: int, a: Alternate, k: int) -> bool
    decreases a, 0int, a.0@.len() - k,
{
    if !(0 <= k < a.0@.len()) {
        false
    } else if k == a.0@.len() - 1 {
        seq_parses(s, skip_sp_spec(s, i), a.0@[k])
    } else {
        let e = skip_sp_spec(s, seq_end(s, skip_sp_spec(s, i), a.0@[k]));
        &&& seq_parses(s, skip_sp_spec(s, i), a.0@[k])
        &&& e < s.len()
        &&& s[e] == '|'
        &&& alt_items_parse(s, e + 1, a, k + 1)
    }
}

/// `a` is the alternation written at `i`, spaces trimmed at both ends.
pub open spec fn alt_parses(s: Seq<char>, i: int, a: Alternate) -> bool
    decreases a, 1int, 0int,
{
    alt_items_parse(s, i, a, 0)
}

/// End of the production written at `i`.
pub open spec fn derivation_end(s: Seq<char>, i: int, d: Derivation) -> int {
    alt_end(s, skip_sp_spec(s, munch_nt_spec(s, skip_sp_spec(s, i))) + 2, d.alternate)
}

/// `d` is the production written at `i`.
pub open spec fn derivation_parses(s: Seq<char>, i: int, d: Derivation) -> bool {
    let k0 = skip_sp_spec(s, i);
    let k1 = munch_nt_spec(s, k0);
    let k2 = skip_sp_spec(s, k1);
    &&& nonterminal_parses(s, k0, d.name@)
    &&& k2 + 2 <= s.len()
    &&& s[k2] == ':'
    &&& s[k2 + 1] == '='
    &&& alt_parses(s, k2 + 2, d.alternate)
}

/// End of the productions `[k, ..)` written newline-separated at `i`.
pub open spec fn grammar_items_end(s: Seq<char>, i: int, g: Grammar, k: int) -> int
    decreases g.0@.len() - k,
{
    if !(0 <= k < g.0@.len()) {
        i
    } else if k == g.0@.len() - 1 {
        derivation_end(s, i, g.0@[k])
    } else {
        grammar_items_end(s, derivation_end(s, i, g.0@[k]) + 1, g, k + 1)
    }
}

/// The productions `[k, ..)` of `g` are written newline-separated at `i`.
pub open spec fn grammar_items_parse(s: Seq<char>, i: int, g: Grammar, k: int) -> bool
    decreases g.0@.len() - k,
{
    if !(0 <= k < g.0@.len()) {
        false
    } else if k == g.0@.len() - 1 {
        derivation_parses(s, i, g.0@[k])
    } else {
        let e = derivation_end(s, i, g.0@[k]);
        &&& derivation_parses(s, i, g.0@[k])
        &&& e < s.len()
        &&& s[e] == '\n'
        &&& grammar_items_parse(s, e + 1, g, k + 1)
    }
}

/// `g` is the whole grammar text: leading and trailing blanks ignored,
/// newline-separated productions, nothing left over.
pub open spec fn grammar_parses(s: Seq<char>, g: Grammar) -> bool {
    &&& grammar_items_parse(s, skip_ws_spec(s, 0), g, 0)
    &&& skip_ws_spec(s, grammar_items_end(s, skip_ws_spec(s, 0), g, 0)) == s.len()
}

// ---------------------------------------------------------------------------
// Where the parser succeeds: a functional mirror of its control decisions.
// Each function gives the end position of the construct the parser commits
// to at `i`, or -1 where it fails; the parser's contracts tie its result to
// these exactly.
/// End of the class literal the parser accepts at `i`, or -1.
pub open spec fn sp_gcb_value(s: Seq<char>, i: int) -> int {
    if 0 <= i < s.len() && is_upper(s[i]) {
        let e = munch_name_spec(s, i);
        if GraphemeBreak::spec_of_label(s.subrange(i, e)) is Some {
            e
        } else {
            -1
        }
    } else {
        -1
    }
}

/// End of the class-literal list the parser accepts at `i`, or -1.
pub open spec fn sp_gcb_items(s: Seq<char>, i: int) -> int
    decreases s.len() - i, 1int,
{
    let e = sp_gcb_value(s, i);
    if e < 0 {
        -1
    } else {
        let k = skip_sp_spec(s, e);
        if k > e && k > i && k < s.len() && is_upper(s[k]) {
            sp_gcb_items(s, k)
        } else {
            e
        }
    }
}

/// End of the term the parser accepts at `i`, or -1.
pub open spec fn sp_term(s: Seq<char>, i: int) -> int
    decreases s.len() - i, 2int,
{
    if !(0 <= i < s.len()) {
        -1
    } else {
        let c = s[i];
        if is_lower(c) {
            munch_nt_spec(s, i)
        } else if is_upper(c) {
            sp_gcb_value(s, i)
        } else if c == '\\' {
            if s.len() - i > 3 && s[i + 1] == 'p' && s[i + 2] == '{' && is_upper(s[i + 3]) {
                let e = munch_name_spec(s, i + 3);
                if e < s.len() && s[e] == '}' {
                    e + 1
                } else {
                    -1
                }
            } else {
                -1
            }
        } else if c == '[' {
            let k = if i + 1 < s.len() && s[i + 1] == '^' {
                i + 2
            } else {
                i + 1
            };
            let e = sp_gcb_items(s, k);
            if e >= 0 && e < s.len() && s[e] == ']' {
                e + 1
            } else {
                -1
            }
        } else if c == '(' {
            let e = sp_alt_items(s, i + 1);
            if e >= 0 && e < s.len() && s[e] == ')' {
                e + 1
            } else {
                -1
            }
        } else {
            -1
        }
    }
}

/// End of the quantified term the parser accepts at `i`, or -1.
pub open spec fn sp_term_repeat(s: Seq<char>, i: int) -> int
    decreases s.len() - i, 3int,
{
    let e = sp_term(s, i);
    if e < 0 {
        -1
    } else if e < s.len() && (s[e] == '*' || s[e] == '+') {
        e + 1
    } else {
        e
    }
}

/// End of the sequence the parser accepts at `i`, or -1; on a failed
/// extension it commits to what it has.
pub open spec fn sp_seq_items(s: Seq<char>, i: int) -> int
    decreases s.len() - i, 4int,
{
    let e = sp_term_repeat(s, i);
    if e < 0 {
        -1
    } else {
        let k = skip_sp_spec(s, e);
        let more = k > e && k < s.len() && (is_lower(s[k]) || is_upper(s[k]) || s[k] == '\\'
            || s[k] == '[' || s[k] == '(');
        if more && k > i {
            let r2 = sp_seq_items(s, k);
            if r2 < 0 {
                e
            } else {
                r2
            }
        } else {
            e
        }
    }
}

/// End of the alternation the parser accepts at `i`, or -1.
pub open spec fn sp_alt_items(s: Seq<char>, i: int) -> int
    decreases s.len() - i, 5int,
{
    let k0 = skip_sp_spec(s, i);
    let k = if k0 < i {
        i
    } else {
        k0
    };
    let e = if k <= s.len() {
        sp_seq_items(s, k)
    } else {
        -1
    };
    if e < 0 {
        -1
    } else {
        let j0 = skip_sp_spec(s, e);
        if j0 < s.len() && s[j0] == '|' {
            if j0 + 1 > i {
                sp_alt_items(s, j0 + 1)
            } else {
                -1
            }
        } else {
            j0
        }
    }
}

/// End of the production the parser accepts at `i`, or -1.
pub open spec fn sp_derivation(s: Seq<char>, i: int) -> int
    decreases s.len() - i, 6int,
{
    let k0a = skip_sp_spec(s, i);
    let k0 = if k0a < i {
        i
    } else {
        k0a
    };
    if !(k0 < s.len() && is_lower(s[k0])) {
        -1
    } else {
        let k1a = munch_nt_spec(s, k0);
        let k1 = if k1a < k0 {
            k0
        } else {
            k1a
        };
        let k2a = skip_sp_spec(s, k1);
        let k2 = if k2a < k1 {
            k1
        } else {
            k2a
        };
        if !(k2 + 2 <= s.len() && s[k2] == ':' && s[k2 + 1] == '=') {
            -1
        } else {
            sp_alt_items(s, k2 + 2)
        }
    }
}

/// End of the production list the parser accepts at `i`, or -1; a line that
/// opens no production ends the list.
pub open spec fn sp_grammar_items(s: Seq<char>, i: int) -> int
    decreases s.len() - i, 7int,
{
    let e = sp_derivation(s, i);
    if e < 0 {
        -1
    } else {
        let more = e < s.len() && s[e] == '\n' && ({
            let ka = skip_sp_spec(s, e + 1);
            ka < s.len() && is_lower(s[ka])
        });
        if more && e + 1 > i {
            let r2 = sp_grammar_items(s, e + 1);
            if r2 < 0 {
                e
            } else {
                r2
            }
        } else {
            e
        }
    }
}

/// Whether the parser accepts the whole grammar text.
pub open spec fn sp_grammar_ok(s: Seq<char>) -> bool {
    let start0 = skip_ws_spec(s, 0);
    let start = if start0 < 0 {
        0
    } else {
        start0
    };
    let e = sp_grammar_items(s, start);
    &&& e >= 0
    &&& skip_ws_spec(s, e) == s.len()
}

// ---------------------------------------------------------------------------
// The parser.
fn parse_gcb_value(s: &Vec<char>, i: usize) -> (r: Option<(GcbValue, usize)>)
    requires
        i <= s@.len(),
    ensures
        r matches Some(p) ==> gcb_value_parses(s@, i as int, p.0) && p.1 == munch_name_spec(
            s@,
            i as int,
        ) && i < p.1 <= s@.len(),
        (r is Some) == (sp_gcb_value(s@, i as int) >= 0),
        r matches Some(p) ==> p.1 == sp_gcb_value(s@, i as int),
{
    if i < s.len() && is_upper_exec(s[i]) {
        let e = munch_name(s, i);
        proof {
            lemma_munch_name_ge(s@, i + 1);
        }
        let name = chars_substring(s, i, e);
        match GraphemeBreak::of_label(name.as_str()) {
            Some(g) => Some((GcbValue(g), e)),
            None => None,
        }
    } else {
        None
    }
}

fn parse_gcb_items(s: &Vec<char>, i: usize) -> (r: Option<(Vec<GcbValue>, usize)>)
    requires
        i <= s@.len(),
    ensures
        r matches Some(p) ==> p.0@.len() >= 1 && gcb_items_parse(s@, i as int, p.0@) && p.1
            == gcb_items_end(s@, i as int, p.0@.len() as int) && i < p.1 <= s@.len(),
        (r is Some) == (sp_gcb_items(s@, i as int) >= 0),
        r matches Some(p) ==> p.1 == sp_gcb_items(s@, i as int),
    decreases s@.len() - i, 1int,
{
    let first = parse_gcb_value(s, i);
    match first {
        None => None,
        Some((g, e)) => {
            let k = skip_sp(s, e);
            if k > e && k < s.len() && is_upper_exec(s[k]) {
                let rest = parse_gcb_items(s, k);
                match rest {
                    None => None,
                    Some((mut items, j)) => {
                        let ghost pre = items@;
                        items.insert(0, g);
                        proof {
                            pre.insert_ensures(0, g);
                            assert(items@[0] == g);
                            assert(items@.drop_first() =~= pre);
                            assert(gcb_items_parse(s@, k as int, items@.drop_first()));
                        }
                        Some((items, j))
                    },
                }
            } else {
                let mut items: Vec<GcbValue> = Vec::new();
                items.push(g);
                Some((items, e))
            }
        },
    }
}

fn parse_term(s: &Vec<char>, i: usize) -> (r: Option<(Term, usize)>)
    requires
        i <= s@.len(),
    ensures
        r matches Some(p) ==> term_parses(s@, i as int, p.0) && p.1 == term_end(s@, i as int, p.0)
            && i < p.1 <= s@.len(),
        (r is Some) == (sp_term(s@, i as int) >= 0),
        r matches Some(p) ==> p.1 == sp_term(s@, i as int),
    decreases s@.len() - i, 0int,
{
    if i >= s.len() {
        return None;
    }
    let c = s[i];
    if is_lower_exec(c) {
        let e = munch_nt(s, i);
        proof {
            lemma_munch_nt_ge(s@, i + 1);
        }
        let name = chars_substring(s, i, e);
        Some((Term::Nonterminal(name), e))
    } else if is_upper_exec(c) {
        match parse_gcb_value(s, i) {
            Some((g, e)) => Some((Term::GcbValue(g), e)),
            None => None,
        }
    } else if c == '\\' {
        if s.len() - i > 3 && s[i + 1] == 'p' && s[i + 2] == '{' && is_upper_exec(s[i + 3]) {
            let e = munch_name(s, i + 3);
            proof {
                lemma_munch_name_ge(s@, i + 4);
            }
            let name = chars_substring(s, i + 3, e);
            if e < s.len() && s[e] == '}' {
                Some((Term::PropertyName(name), e + 1))
            } else {
                None
            }
        } else {
            None
        }
    } else if c == '[' {
        let mut k = i + 1;
        let mut not = false;
        if k < s.len() && s[k] == '^' {
            not = true;
            k = k + 1;
        }
        match parse_gcb_items(s, k) {
            None => None,
            Some((items, e)) => {
                if e < s.len() && s[e] == ']' {
                    Some((Term::GcbClass(not, items), e + 1))
                } else {
                    None
                }
            },
        }
    } else if c == '(' {
        match parse_alternate(s, i + 1) {
            None => None,
            Some((alt, e)) => {
                if e < s.len() && s[e] == ')' {
                    Some((Term::Group(alt), e + 1))
                } else {
                    None
                }
            },
        }
    } else {
        None
    }
}

fn parse_term_repeat(s: &Vec<char>, i: usize) -> (r: Option<(TermRepeat, usize)>)
    requires
        i <= s@.len(),
    ensures
        r matches Some(p) ==> term_repeat_parses(s@, i as int, p.0) && p.1 == term_repeat_end(
            s@,
            i as int,
            p.0,
        ) && i < p.1 <= s@.len(),
        (r is Some) == (sp_term_repeat(s@, i as int) >= 0),
        r matches Some(p) ==> p.1 == sp_term_repeat(s@, i as int),
    decreases s@.len() - i, 1int,
{
    match parse_term(s, i) {
        None => None,
        Some((t, e)) => {
            if e < s.len() && s[e] == '*' {
                Some((TermRepeat { term: t, repeat: Repeat::Star }, e + 1))
            } else if e < s.len() && s[e] == '+' {
                Some((TermRepeat { term: t, repeat: Repeat::Plus }, e + 1))
            } else {
                Some((TermRepeat { term: t, repeat: Repeat::One }, e))
            }
        },
    }
}

fn parse_seq_items(s: &Vec<char>, i: usize) -> (r: Option<(Vec<TermRepeat>, usize)>)
    requires
        i <= s@.len(),
    ensures
        r matches Some(p) ==> p.0@.len() >= 1 && seq_items_parse(s@, i as int, Sequence(p.0), 0)
            && p.1 == seq_items_end(s@, i as int, Sequence(p.0), 0) && i < p.1 <= s@.len(),
        (r is Some) == (sp_seq_items(s@, i as int) >= 0),
        r matches Some(p) ==> p.1 == sp_seq_items(s@, i as int),
    decreases s@.len() - i, 2int,
{
    match parse_term_repeat(s, i) {
        None => None,
        Some((tr, e)) => {
            let k = skip_sp(s, e);
            let mut more = false;
            if k > e && k < s.len() {
                let c = s[k];
                more = is_lower_exec(c) || is_upper_exec(c) || c == '\\' || c == '[' || c == '(';
            }
            if more {
                match parse_seq_items(s, k) {
                    None => {
                        let mut items: Vec<TermRepeat> = Vec::new();
                        items.push(tr);
                        Some((items, e))
                    },
                    Some((mut items, j)) => {
                        let ghost rest = Sequence(items);
                        items.insert(0, tr);
                        proof {
                            let whole = Sequence(items);
                            rest.0@.insert_ensures(0, tr);
                            assert(whole.0@[0] == tr);
                            assert(forall|t: int|
                                0 <= t < rest.0@.len() ==> whole.0@[t + 1] == #[trigger] rest.0@[t]);
                            lemma_seq_items_shift(s@, k as int, rest, whole);
                            assert(seq_items_parse(s@, i as int, whole, 0));
                            assert(seq_items_end(s@, i as int, whole, 0) == j);
                        }
                        Some((items, j))
                    },
                }
            } else {
                let mut items: Vec<TermRepeat> = Vec::new();
                items.push(tr);
                Some((items, e))
            }
        },
    }
}

proof fn lemma_seq_items_shift(s: Seq<char>, i: int, rest: Sequence, whole: Sequence)
    requires
        whole.0@.len() == rest.0@.len() + 1,
        forall|t: int| 0 <= t < rest.0@.len() ==> whole.0@[t + 1] == #[trigger] rest.0@[t],
        seq_items_parse(s, i, rest, 0),
    ensures
        seq_items_parse(s, i, whole, 1),
        seq_items_end(s, i, whole, 1) == seq_items_end(s, i, rest, 0),
{
    lemma_seq_items_shift_from(s, i, rest, whole, 0);
}

proof fn lemma_seq_items_shift_from(s: Seq<char>, i: int, rest: Sequence, whole: Sequence, k: int)
    requires
        whole.0@.len() == rest.0@.len() + 1,
        forall|t: int| 0 <= t < rest.0@.len() ==> whole.0@[t + 1] == #[trigger] rest.0@[t],
        0 <= k < rest.0@.len(),
        seq_items_parse(s, i, rest, k),
    ensures
        seq_items_parse(s, i, whole, k + 1),
        seq_items_end(s, i, whole, k + 1) == seq_items_end(s, i, rest, k),
    decreases rest.0@.len() - k,
{
    assert(whole.0@[k + 1] == rest.0@[k]);
    if k < rest.0@.len() - 1 {
        let e = term_repeat_end(s, i, rest.0@[k]);
        lemma_seq_items_shift_from(s, skip_sp_spec(s, e), rest, whole, k + 1);
    }
}

fn parse_alt_items(s: &Vec<char>, i: usize) -> (r: Option<(Vec<Sequence>, usize)>)
    requires
        i <= s@.len(),
    ensures
        r matches Some(p) ==> p.0@.len() >= 1 && alt_items_parse(s@, i as int, Alternate(p.0), 0)
            && p.1 == alt_items_end(s@, i as int, Alternate(p.0), 0) && i <= p.1 <= s@.len(),
        (r is Some) == (sp_alt_items(s@, i as int) >= 0),
        r matches Some(p) ==> p.1 == sp_alt_items(s@, i as int),
    decreases s@.len() - i, 4int,
{
    let k = skip_sp(s, i);
    match parse_seq_items(s, k) {
        None => None,
        Some((terms, e)) => {
            let sq = Sequence(terms);
            let j0 = skip_sp(s, e);
            if j0 < s.len() && s[j0] == '|' {
                match parse_alt_items(s, j0 + 1) {
                    None => None,
                    Some((mut seqs, j)) => {
                        let ghost rest = Alternate(seqs);
                        seqs.insert(0, sq);
                        proof {
                            let whole = Alternate(seqs);
                            rest.0@.insert_ensures(0, sq);
                            assert(whole.0@[0] == sq);
                            assert(forall|t: int|
                                0 <= t < rest.0@.len() ==> whole.0@[t + 1] == #[trigger] rest.0@[t]);
                            lemma_alt_items_shift(s@, j0 + 1, rest, whole);
                            assert(seq_parses(s@, skip_sp_spec(s@, i as int), whole.0@[0]));
                            assert(alt_items_parse(s@, i as int, whole, 0));
                            assert(alt_items_end(s@, i as int, whole, 0) == j);
                        }
                        Some((seqs, j))
                    },
                }
            } else {
                let mut seqs: Vec<Sequence> = Vec::new();
                seqs.push(sq);
                proof {
                    let a = Alternate(seqs);
                    assert(a.0@.len() == 1);
                    assert(a.0@[0] == sq);
                    assert(seq_parses(s@, skip_sp_spec(s@, i as int), a.0@[0]));
                    assert(seq_end(s@, skip_sp_spec(s@, i as int), a.0@[0]) == e as int);
                    assert(alt_items_end(s@, i as int, a, 0) == skip_sp_spec(s@, e as int));
                    assert(j0 == skip_sp_spec(s@, e as int));
                }
                Some((seqs, j0))
            }
        },
    }
}

proof fn lemma_alt_items_shift(s: Seq<char>, i: int, rest: Alternate, whole: Alternate)
    requires
        whole.0@.len() == rest.0@.len() + 1,
        forall|t: int| 0 <= t < rest.0@.len() ==> whole.0@[t + 1] == #[trigger] rest.0@[t],
        alt_items_parse(s, i, rest, 0),
    ensures
        alt_items_parse(s, i, whole, 1),
        alt_items_end(s, i, whole, 1) == alt_items_end(s, i, rest, 0),
{
    lemma_alt_items_shift_from(s, i, rest, whole, 0);
}

proof fn lemma_alt_items_shift_from(s: Seq<char>, i: int, rest: Alternate, whole: Alternate, k: int)
    requires
        whole.0@.len() == rest.0@.len() + 1,
        forall|t: int| 0 <= t < rest.0@.len() ==> whole.0@[t + 1] == #[trigger] rest.0@[t],
        0 <= k < rest.0@.len(),
        alt_items_parse(s, i, rest, k),
    ensures
        alt_items_parse(s, i, whole, k + 1),
        alt_items_end(s, i, whole, k + 1) == alt_items_end(s, i, rest, k),
    decreases rest.0@.len() - k,
{
    assert(whole.0@[k + 1] == rest.0@[k]);
    if k < rest.0@.len() - 1 {
        let e = skip_sp_spec(s, seq_end(s, skip_sp_spec(s, i), rest.0@[k]));
        lemma_alt_items_shift_from(s, e + 1, rest, whole, k + 1);
    }
}

fn parse_alternate(s: &Vec<char>, i: usize) -> (r: Option<(Alternate, usize)>)
    requires
        i <= s@.len(),
    ensures
        r matches Some(p) ==> p.0.0@.len() >= 1 && alt_parses(s@, i as int, p.0) && p.1 == alt_end(
            s@,
            i as int,
            p.0,
        ) && i <= p.1 <= s@.len(),
        (r is Some) == (sp_alt_items(s@, i as int) >= 0),
        r matches Some(p) ==> p.1 == sp_alt_items(s@, i as int),
    decreases s@.len() - i, 5int,
{
    match parse_alt_items(s, i) {
        None => None,
        Some((seqs, j)) => Some((Alternate(seqs), j)),
    }
}

fn parse_derivation(s: &Vec<char>, i: usize) -> (r: Option<(Derivation, usize)>)
    requires
        i <= s@.len(),
    ensures
        r matches Some(p) ==> derivation_parses(s@, i as int, p.0) && p.1 == derivation_end(
            s@,
            i as int,
            p.0,
        ) && i <= p.1 <= s@.len(),
        (r is Some) == (sp_derivation(s@, i as int) >= 0),
        r matches Some(p) ==> p.1 == sp_derivation(s@, i as int),
{
    let k0 = skip_sp(s, i);
    if !(k0 < s.len() && is_lower_exec(s[k0])) {
        return None;
    }
    let k1 = munch_nt(s, k0);
    proof {
        lemma_munch_nt_ge(s@, k0 + 1);
    }
    let name = chars_substring(s, k0, k1);
    let k2 = skip_sp(s, k1);
    if !(s.len() - k2 >= 2 && s[k2] == ':' && s[k2 + 1] == '=') {
        return None;
    }
    match parse_alternate(s, k2 + 2) {
        None => None,
        Some((alt, j)) => Some((Derivation { name, alternate: alt }, j)),
    }
}

impl Grammar {
    /// Parses the grammar text: blank-trimmed, newline-separated productions,
    /// the whole input consumed.
    pub fn parse(input: &str) -> (r: Result<Grammar, GrammarError>)
        ensures
            (r is Ok) == sp_grammar_ok(input@),
            r matches Ok(g) ==> grammar_parses(input@, g) && g.0@.len() >= 1,
            r matches Err(e) ==> e == GrammarError::Syntax,
    {
        let n = input.unicode_len();
        let mut s: Vec<char> = Vec::new();
        let mut i: usize = 0;
        while i < n
            invariant
                n == input@.len(),
                i == s@.len(),
                0 <= i <= n,
                s@ =~= input@.subrange(0, i as int),
            decreases n - i,
        {
            s.push(input.get_char(i));
            proof {
                assert(s@ =~= input@.subrange(0, i + 1));
            }
            i = i + 1;
        }
        proof {
            assert(s@ =~= input@);
        }
        let start = skip_ws(&s, 0);
        match parse_grammar_items(&s, start) {
            None => Err(GrammarError::Syntax),
            Some((ds, e)) => {
                let fin = skip_ws(&s, e);
                if fin == s.len() {
                    let g = Grammar(ds);
                    Ok(g)
                } else {
                    Err(GrammarError::Syntax)
                }
            },
        }
    }
}

fn parse_grammar_items(s: &Vec<char>, i: usize) -> (r: Option<(Vec<Derivation>, usize)>)
    requires
        i <= s@.len(),
    ensures
        r matches Some(p) ==> p.0@.len() >= 1 && grammar_items_parse(
            s@,
            i as int,
            Grammar(p.0),
            0,
        ) && p.1 == grammar_items_end(s@, i as int, Grammar(p.0), 0) && i <= p.1 <= s@.len(),
        (r is Some) == (sp_grammar_items(s@, i as int) >= 0),
        r matches Some(p) ==> p.1 == sp_grammar_items(s@, i as int),
    decreases s@.len() - i,
{
    match parse_derivation(s, i) {
        None => None,
        Some((d, e)) => {
            let mut more = false;
            if e < s.len() && s[e] == '\n' {
                // Another production only when a nonterminal follows the
                // newline; a trailing blank line ends the list.
                let k = skip_sp(s, e + 1);
                more = k < s.len() && is_lower_exec(s[k]);
            }
            if more && e + 1 > i {
                match parse_grammar_items(s, e + 1) {
                    None => {
                        let mut ds: Vec<Derivation> = Vec::new();
                        ds.push(d);
                        Some((ds, e))
                    },
                    Some((mut ds, j)) => {
                        let ghost rest = Grammar(ds);
                        ds.insert(0, d);
                        proof {
                            let whole = Grammar(ds);
                            rest.0@.insert_ensures(0, d);
                            assert(whole.0@[0] == d);
                            assert(forall|t: int|
                                0 <= t < rest.0@.len() ==> whole.0@[t + 1] == #[trigger] rest.0@[t]);
                            lemma_grammar_items_shift(s@, e + 1, rest, whole);
                            assert(grammar_items_parse(s@, i as int, whole, 0));
                            assert(grammar_items_end(s@, i as int, whole, 0) == j);
                        }
                        Some((ds, j))
                    },
                }
            } else {
                let mut ds: Vec<Derivation> = Vec::new();
                ds.push(d);
                Some((ds, e))
            }
        },
    }
}

proof fn lemma_grammar_items_shift(s: Seq<char>, i: int, rest: Grammar, whole: Grammar)
    requires
        whole.0@.len() == rest.0@.len() + 1,
        forall|t: int| 0 <= t < rest.0@.len() ==> whole.0@[t + 1] == #[trigger] rest.0@[t],
        grammar_items_parse(s, i, rest, 0),
    ensures
        grammar_items_parse(s, i, whole, 1),
        grammar_items_end(s, i, whole, 1) == grammar_items_end(s, i, rest, 0),
{
    lemma_grammar_items_shift_from(s, i, rest, whole, 0);
}

proof fn lemma_grammar_items_shift_from(
    s: Seq<char>,
    i: int,
    rest: Grammar,
    whole: Grammar,
    k: int,
)
    requires
        whole.0@.len() == rest.0@.len() + 1,
        forall|t: int| 0 <= t < rest.0@.len() ==> whole.0@[t + 1] == #[trigger] rest.0@[t],
        0 <= k < rest.0@.len(),
        grammar_items_parse(s, i, rest, k),
    ensures
        grammar_items_parse(s, i, whole, k + 1),
        grammar_items_end(s, i, whole, k + 1) == grammar_items_end(s, i, rest, k),
    decreases rest.0@.len() - k,
{
    assert(whole.0@[k + 1] == rest.0@[k]);
    if k < rest.0@.len() - 1 {
        lemma_grammar_items_shift_from(s, derivation_end(s, i, rest.0@[k]) + 1, rest, whole, k + 1);
    }
}


// ---------------------------------------------------------------------------
// Expansion: substitute every nonterminal reference by a deep copy of its
// referenced alternation, collapsing the grammar into a nonterminal-free tree.
/// Whether some production carries this name.
pub open spec fn has_nt(ds: Seq<Derivation>, name: Seq<char>) -> bool
    decreases ds.len(),
{
    if ds.len() == 0 {
        false
    } else if ds.last().name@ == name {
        true
    } else {
        has_nt(ds.drop_last(), name)
    }
}

/// Index of the production bound to this name; the last binding wins.
pub open spec fn nt_index(ds: Seq<Derivation>, name: Seq<char>) -> int
    decreases ds.len(),
{
    if ds.len() == 0 {
        -1
    } else if ds.last().name@ == name {
        ds.len() - 1
    } else {
        nt_index(ds.drop_last(), name)
    }
}

proof fn lemma_nt_index_range(ds: Seq<Derivation>, name: Seq<char>)
    requires
        has_nt(ds, name),
    ensures
        0 <= nt_index(ds, name) < ds.len(),
        ds[nt_index(ds, name)].name@ == name,
    decreases ds.len(),
{
    if ds.len() > 0 && ds.last().name@ != name {
        lemma_nt_index_range(ds.drop_last(), name);
        assert(ds.drop_last()[nt_index(ds.drop_last(), name)] == ds[nt_index(ds, name)]);
    }
}

/// `r` is the full expansion of term `t` under the productions `ds`, with
/// substitution depth at most `fuel`.
pub open spec fn term_expands(ds: Seq<Derivation>, t: Term, r: Term, fuel: nat) -> bool
    decreases fuel, t, 0int, 0int,
{
    match t {
        Term::Nonterminal(n) => {
            &&& fuel > 0
            &&& has_nt(ds, n@)
            &&& (r matches Term::Group(ra) && alt_expands(
                ds,
                ds[nt_index(ds, n@)].alternate,
                ra,
                (fuel - 1) as nat,
            ))
        },
        Term::Group(a) => r matches Term::Group(ra) && alt_expands(ds, a, ra, fuel),
        Term::GcbValue(g) => r matches Term::GcbValue(rg) && rg == g,
        Term::PropertyName(n) => r matches Term::PropertyName(rn) && rn@ == n@,
        Term::GcbClass(not, gcbs) => r matches Term::GcbClass(rnot, rg) && rnot == not && rg@
            == gcbs@,
    }
}

/// `rr` is the full expansion of the quantified term `tr`.
pub open spec fn term_repeat_expands(ds: Seq<Derivation>, tr: TermRepeat, rr: TermRepeat, fuel: nat) -> bool
    decreases fuel, tr, 0int, 0int,
{
    &&& rr.repeat == tr.repeat
    &&& term_expands(ds, tr.term, rr.term, fuel)
}

/// The items `[k, ..)` of `rq` expand those of `sq`.
pub open spec fn seq_expands_from(ds: Seq<Derivation>, sq: Sequence, rq: Sequence, k: int, fuel: nat) -> bool
    decreases fuel, sq, 1int, sq.0@.len() - k,
{
    if k >= sq.0@.len() {
        true
    } else {
        &&& 0 <= k
        &&& term_repeat_expands(ds, sq.0@[k], rq.0@[k], fuel)
        &&& seq_expands_from(ds, sq, rq, k + 1, fuel)
    }
}

/// `rq` is the full expansion of the sequence `sq`.
pub open spec fn seq_expands(ds: Seq<Derivation>, sq: Sequence, rq: Sequence, fuel: nat) -> bool
    decreases fuel, sq, 2int, 0int,
{
    &&& rq.0@.len() == sq.0@.len()
    &&& seq_expands_from(ds, sq, rq, 0, fuel)
}

/// The alternatives `[k, ..)` of `ra` expand those of `a`.
pub open spec fn alt_expands_from(ds: Seq<Derivation>, a: Alternate, ra: Alternate, k: int, fuel: nat) -> bool
    decreases fuel, a, 3int, a.0@.len() - k,
{
    if k >= a.0@.len() {
        true
    } else {
        &&& 0 <= k
        &&& seq_expands(ds, a.0@[k], ra.0@[k], fuel)
        &&& alt_expands_from(ds, a, ra, k + 1, fuel)
    }
}

/// `ra` is the full expansion of the alternation `a`.
pub open spec fn alt_expands(ds: Seq<Derivation>, a: Alternate, ra: Alternate, fuel: nat) -> bool
    decreases fuel, a, 4int, 0int,
{
    &&& ra.0@.len() == a.0@.len()
    &&& alt_expands_from(ds, a, ra, 0, fuel)
}

// ---------------------------------------------------------------------------
// Nonterminal-freedom of an expanded tree.
/// No nonterminal reference remains in the term.
pub open spec fn term_expanded(t: Term) -> bool
    decreases t, 0int, 0int,
{
    match t {
        Term::Nonterminal(_) => false,
        Term::Group(a) => alt_expanded(a),
        _ => true,
    }
}

/// No nonterminal reference remains in the items `[k, ..)`.
pub open spec fn seq_expanded_from(sq: Sequence, k: int) -> bool
    decreases sq, 1int, sq.0@.len() - k,
{
    if k >= sq.0@.len() {
        true
    } else {
        &&& 0 <= k
        &&& term_expanded(sq.0@[k].term)
        &&& seq_expanded_from(sq, k + 1)
    }
}

/// No nonterminal reference remains in the alternatives `[k, ..)`.
pub open spec fn alt_expanded_from(a: Alternate, k: int) -> bool
    decreases a, 2int, a.0@.len() - k,
{
    if k >= a.0@.len() {
        true
    } else {
        &&& 0 <= k
        &&& seq_expanded_from(a.0@[k], 0)
        &&& alt_expanded_from(a, k + 1)
    }
}

/// No nonterminal reference remains in the alternation.
pub open spec fn alt_expanded(a: Alternate) -> bool
    decreases a, 3int, 0int,
{
    alt_expanded_from(a, 0)
}

/// Law: a completed expansion is nonterminal-free. Whatever tree a
/// successful expansion returns, no nonterminal reference remains in it.
pub proof fn lemma_term_expansion_expanded(ds: Seq<Derivation>, t: Term, r: Term, fuel: nat)
    requires
        term_expands(ds, t, r, fuel),
    ensures
        term_expanded(r),
    decreases fuel, t, 0int, 0int,
{
    match t {
        Term::Nonterminal(n) => {
            lemma_alt_expansion_expanded(
                ds,
                ds[nt_index(ds, n@)].alternate,
                r->Group_0,
                (fuel - 1) as nat,
            );
        },
        Term::Group(a) => {
            lemma_alt_expansion_expanded(ds, a, r->Group_0, fuel);
        },
        _ => {},
    }
}

proof fn lemma_seq_expansion_expanded_from(
    ds: Seq<Derivation>,
    sq: Sequence,
    rq: Sequence,
    k: int,
    fuel: nat,
)
    requires
        rq.0@.len() == sq.0@.len(),
        seq_expands_from(ds, sq, rq, k, fuel),
    ensures
        seq_expanded_from(rq, k),
    decreases fuel, sq, 1int, sq.0@.len() - k,
{
    if k < sq.0@.len() {
        assert(term_repeat_expands(ds, sq.0@[k], rq.0@[k], fuel));
        assert(term_expands(ds, sq.0@[k].term, rq.0@[k].term, fuel));
        lemma_term_expansion_expanded(ds, sq.0@[k].term, rq.0@[k].term, fuel);
        lemma_seq_expansion_expanded_from(ds, sq, rq, k + 1, fuel);
    }
}

proof fn lemma_alt_expansion_expanded_from(
    ds: Seq<Derivation>,
    a: Alternate,
    ra: Alternate,
    k: int,
    fuel: nat,
)
    requires
        ra.0@.len() == a.0@.len(),
        alt_expands_from(ds, a, ra, k, fuel),
    ensures
        alt_expanded_from(ra, k),
    decreases fuel, a, 3int, a.0@.len() - k,
{
    if k < a.0@.len() {
        assert(seq_expands(ds, a.0@[k], ra.0@[k], fuel));
        assert(ra.0@[k].0@.len() == a.0@[k].0@.len());
        assert(seq_expands_from(ds, a.0@[k], ra.0@[k], 0, fuel));
        lemma_seq_expansion_expanded_from(ds, a.0@[k], ra.0@[k], 0, fuel);
        lemma_alt_expansion_expanded_from(ds, a, ra, k + 1, fuel);
    }
}

/// Law: a completed expansion of an alternation is nonterminal-free.
pub proof fn lemma_alt_expansion_expanded(ds: Seq<Derivation>, a: Alternate, ra: Alternate, fuel: nat)
    requires
        alt_expands(ds, a, ra, fuel),
    ensures
        alt_expanded(ra),
    decreases fuel, a, 4int, 0int,
{
    lemma_alt_expansion_expanded_from(ds, a, ra, 0, fuel);
}

/// Position of the production bound to `name`, the last binding winning;
/// an undefined nonterminal reference is rejected.
fn find_nt(ds: &Vec<Derivation>, name: &String) -> (r: Option<usize>)
    ensures
        r matches Some(idx) ==> has_nt(ds@, name@) && idx == nt_index(ds@, name@) && idx
            < ds@.len(),
        r is None ==> !has_nt(ds@, name@),
{
    let mut k = ds.len();
    proof {
        assert(ds@.take(ds@.len() as int) =~= ds@);
    }
    while k > 0
        invariant
            0 <= k <= ds@.len(),
            has_nt(ds@, name@) == has_nt(ds@.take(k as int), name@),
            nt_index(ds@, name@) == nt_index(ds@.take(k as int), name@),
        decreases k,
    {
        proof {
            assert(ds@.take(k as int).drop_last() =~= ds@.take(k - 1));
            assert(ds@.take(k as int).last() == ds@[k - 1]);
        }
        if str_eq(ds[k - 1].name.as_str(), name.as_str()) {
            return Some(k - 1);
        }
        k = k - 1;
    }
    proof {
        assert(ds@.take(0) =~= Seq::<Derivation>::empty());
    }
    None
}

proof fn lemma_seq_expands_from_index(
    ds: Seq<Derivation>,
    sq: Sequence,
    rq: Sequence,
    j: int,
    k: int,
    fuel: nat,
)
    requires
        seq_expands_from(ds, sq, rq, j, fuel),
        0 <= j <= k < sq.0@.len(),
    ensures
        term_repeat_expands(ds, sq.0@[k], rq.0@[k], fuel),
    decreases k - j,
{
    if j < k {
        lemma_seq_expands_from_index(ds, sq, rq, j + 1, k, fuel);
    }
}

proof fn lemma_alt_expands_from_index(
    ds: Seq<Derivation>,
    a: Alternate,
    ra: Alternate,
    j: int,
    k: int,
    fuel: nat,
)
    requires
        alt_expands_from(ds, a, ra, j, fuel),
        0 <= j <= k < a.0@.len(),
    ensures
        seq_expands(ds, a.0@[k], ra.0@[k], fuel),
    decreases k - j,
{
    if j < k {
        lemma_alt_expands_from_index(ds, a, ra, j + 1, k, fuel);
    }
}

impl Term {
    /// The full expansion of this term: nonterminal references replaced by
    /// deep expansions of their productions, groups expanded in place.
    pub fn expand(&self, ds: &Vec<Derivation>, fuel: usize) -> (r: Result<Term, GrammarError>)
        ensures
            r matches Ok(t2) ==> term_expands(ds@, *self, t2, fuel as nat),
            r is Err ==> forall|rt: Term| !term_expands(ds@, *self, rt, fuel as nat),
            r matches Err(e) ==> e == GrammarError::TooDeep || e
                == GrammarError::UndefinedNonterminal,
        decreases fuel, self,
    {
        match self {
            Term::Nonterminal(n) => {
                if fuel == 0 {
                    proof {
                        assert forall|rt: Term| !term_expands(ds@, *self, rt, fuel as nat) by {}
                    }
                    return Err(GrammarError::TooDeep);
                }
                match find_nt(ds, n) {
                    None => {
                        proof {
                            assert forall|rt: Term| !term_expands(ds@, *self, rt, fuel as nat)
                                by {}
                        }
                        Err(GrammarError::UndefinedNonterminal)
                    },
                    Some(idx) => {
                        match ds[idx].alternate.expand(ds, fuel - 1) {
                            Ok(ra) => Ok(Term::Group(ra)),
                            Err(e) => {
                                proof {
                                    assert forall|rt: Term|
                                        !term_expands(ds@, *self, rt, fuel as nat) by {
                                        if term_expands(ds@, *self, rt, fuel as nat) {
                                            assert(!alt_expands(
                                                ds@,
                                                ds@[idx as int].alternate,
                                                rt->Group_0,
                                                (fuel - 1) as nat,
                                            ));
                                        }
                                    }
                                }
                                Err(e)
                            },
                        }
                    },
                }
            },
            Term::Group(a) => {
                match a.expand(ds, fuel) {
                    Ok(ra) => Ok(Term::Group(ra)),
                    Err(e) => {
                        proof {
                            assert forall|rt: Term| !term_expands(ds@, *self, rt, fuel as nat)
                                by {
                                if term_expands(ds@, *self, rt, fuel as nat) {
                                    assert(!alt_expands(ds@, *a, rt->Group_0, fuel as nat));
                                }
                            }
                        }
                        Err(e)
                    },
                }
            },
            Term::GcbValue(g) => Ok(Term::GcbValue(*g)),
            Term::PropertyName(n) => Ok(Term::PropertyName(n.clone())),
            Term::GcbClass(not, gcbs) => {
                let mut items: Vec<GcbValue> = Vec::new();
                let mut k: usize = 0;
                while k < gcbs.len()
                    invariant
                        0 <= k == items@.len() <= gcbs@.len(),
                        forall|t: int| 0 <= t < k ==> items@[t] == #[trigger] gcbs@[t],
                    decreases gcbs@.len() - k,
                {
                    items.push(gcbs[k]);
                    k = k + 1;
                }
                proof {
                    assert(items@ =~= gcbs@);
                }
                Ok(Term::GcbClass(*not, items))
            },
        }
    }
}

impl Sequence {
    /// The full expansion of this sequence, term by term.
    pub fn expand(&self, ds: &Vec<Derivation>, fuel: usize) -> (r: Result<Sequence, GrammarError>)
        ensures
            r matches Ok(rq) ==> seq_expands(ds@, *self, rq, fuel as nat),
            r is Err ==> forall|rq: Sequence| !seq_expands(ds@, *self, rq, fuel as nat),
            r matches Err(e) ==> e == GrammarError::TooDeep || e
                == GrammarError::UndefinedNonterminal,
        decreases fuel, self,
    {
        let mut items: Vec<TermRepeat> = Vec::new();
        let mut k: usize = 0;
        while k < self.0.len()
            invariant
                0 <= k == items@.len() <= self.0@.len(),
                forall|t: int|
                    0 <= t < k ==> term_repeat_expands(
                        ds@,
                        self.0@[t],
                        #[trigger] items@[t],
                        fuel as nat,
                    ),
            decreases self.0@.len() - k,
        {
            let tr = &self.0[k];
            let rt = match tr.term.expand(ds, fuel) {
                Ok(rt) => rt,
                Err(e) => {
                    proof {
                        assert forall|rq: Sequence| !seq_expands(ds@, *self, rq, fuel as nat) by {
                            if seq_expands(ds@, *self, rq, fuel as nat) {
                                lemma_seq_expands_from_index(
                                    ds@,
                                    *self,
                                    rq,
                                    0,
                                    k as int,
                                    fuel as nat,
                                );
                                assert(term_expands(
                                    ds@,
                                    self.0@[k as int].term,
                                    rq.0@[k as int].term,
                                    fuel as nat,
                                ));
                            }
                        }
                    }
                    return Err(e);
                },
            };
            items.push(TermRepeat { term: rt, repeat: tr.repeat });
            k = k + 1;
        }
        let rq = Sequence(items);
        proof {
            lemma_seq_expands_pointwise(ds@, *self, rq, 0, fuel as nat);
        }
        Ok(rq)
    }
}

proof fn lemma_seq_expands_pointwise(
    ds: Seq<Derivation>,
    sq: Sequence,
    rq: Sequence,
    k: int,
    fuel: nat,
)
    requires
        rq.0@.len() == sq.0@.len(),
        0 <= k <= sq.0@.len(),
        forall|t: int|
            k <= t < sq.0@.len() ==> term_repeat_expands(ds, sq.0@[t], #[trigger] rq.0@[t], fuel),
    ensures
        seq_expands_from(ds, sq, rq, k, fuel),
    decreases sq.0@.len() - k,
{
    if k < sq.0@.len() {
        lemma_seq_expands_pointwise(ds, sq, rq, k + 1, fuel);
    }
}

impl Alternate {
    /// The full expansion of this alternation, sequence by sequence.
    pub fn expand(&self, ds: &Vec<Derivation>, fuel: usize) -> (r: Result<Alternate, GrammarError>)
        ensures
            r matches Ok(ra) ==> alt_expands(ds@, *self, ra, fuel as nat),
            r is Err ==> forall|ra: Alternate| !alt_expands(ds@, *self, ra, fuel as nat),
            r matches Err(e) ==> e == GrammarError::TooDeep || e
                == GrammarError::UndefinedNonterminal,
        decreases fuel, self,
    {
        let mut items: Vec<Sequence> = Vec::new();
        let mut k: usize = 0;
        while k < self.0.len()
            invariant
                0 <= k == items@.len() <= self.0@.len(),
                forall|t: int|
                    0 <= t < k ==> seq_expands(ds@, self.0@[t], #[trigger] items@[t], fuel as nat),
            decreases self.0@.len() - k,
        {
            let rq = match self.0[k].expand(ds, fuel) {
                Ok(rq) => rq,
                Err(e) => {
                    proof {
                        assert forall|ra: Alternate| !alt_expands(ds@, *self, ra, fuel as nat)
                            by {
                            if alt_expands(ds@, *self, ra, fuel as nat) {
                                lemma_alt_expands_from_index(
                                    ds@,
                                    *self,
                                    ra,
                                    0,
                                    k as int,
                                    fuel as nat,
                                );
                                assert(seq_expands(
                                    ds@,
                                    self.0@[k as int],
                                    ra.0@[k as int],
                                    fuel as nat,
                                ));
                            }
                        }
                    }
                    return Err(e);
                },
            };
            items.push(rq);
            k = k + 1;
        }
        let ra = Alternate(items);
        proof {
            lemma_alt_expands_pointwise(ds@, *self, ra, 0, fuel as nat);
        }
        Ok(ra)
    }
}

proof fn lemma_alt_expands_pointwise(
    ds: Seq<Derivation>,
    a: Alternate,
    ra: Alternate,
    k: int,
    fuel: nat,
)
    requires
        ra.0@.len() == a.0@.len(),
        0 <= k <= a.0@.len(),
        forall|t: int| k <= t < a.0@.len() ==> seq_expands(ds, a.0@[t], #[trigger] ra.0@[t], fuel),
    ensures
        alt_expands_from(ds, a, ra, k, fuel),
    decreases a.0@.len() - k,
{
    if k < a.0@.len() {
        lemma_alt_expands_pointwise(ds, a, ra, k + 1, fuel);
    }
}

impl Grammar {
    /// Expands the root production in place: every nonterminal reference is
    /// replaced by a deep, fully-expanded copy of its referenced alternation.
    /// An undefined nonterminal reference or a substitution chain deeper than
    /// the number of productions is rejected; the grammar is then unchanged.
    pub fn expand(&mut self) -> (r: Result<(), GrammarError>)
        requires
            old(self).0@.len() >= 1,
        ensures
            final(self).0@.len() == old(self).0@.len(),
            forall|k: int|
                1 <= k < old(self).0@.len() ==> #[trigger] final(self).0@[k] == old(self).0@[k],
            final(self).0@[0].name@ == old(self).0@[0].name@,
            r is Ok ==> alt_expands(
                old(self).0@,
                old(self).0@[0].alternate,
                final(self).0@[0].alternate,
                old(self).0@.len() as nat,
            ) && alt_expanded(final(self).0@[0].alternate),
            r is Err ==> *final(self) == *old(self),
            r is Err ==> forall|ra: Alternate|
                !alt_expands(
                    old(self).0@,
                    old(self).0@[0].alternate,
                    ra,
                    old(self).0@.len() as nat,
                ),
            r matches Err(e) ==> e == GrammarError::TooDeep || e
                == GrammarError::UndefinedNonterminal,
    {
        let fuel = self.0.len();
        let expanded = self.0[0].alternate.expand(&self.0, fuel);
        match expanded {
            Err(e) => Err(e),
            Ok(ra) => {
                proof {
                    lemma_alt_expansion_expanded(
                        self.0@,
                        self.0@[0].alternate,
                        ra,
                        fuel as nat,
                    );
                }
                let name = self.0[0].name.clone();
                self.0[0] = Derivation { name, alternate: ra };
                Ok(())
            },
        }
    }
}


// ---------------------------------------------------------------------------
// Rendering to regular-expression syntax.
/// Regex text of a quantifier.
pub open spec fn spec_fmt_repeat(r: Repeat) -> Seq<char> {
    match r {
        Repeat::One => Seq::empty(),
        Repeat::Star => seq!['*'],
        Repeat::Plus => seq!['+'],
    }
}

/// Regex text of one class literal: the class's byte value and that value
/// with the high bit set, covering both tagging encodings.
pub open spec fn spec_fmt_gcb(g: GraphemeBreak) -> Seq<char> {
    seq!['\\', 'x'] + spec_hex2(g.spec_code() as nat) + seq!['\\', 'x'] + spec_hex2(
        (g.spec_code() + 0x80) as nat,
    )
}

/// Regex text of the class literals `[k, ..)`.
pub open spec fn spec_fmt_gcb_items(gcbs: Seq<GcbValue>, k: int) -> Seq<char>
    decreases gcbs.len() - k,
{
    if !(0 <= k < gcbs.len()) {
        Seq::empty()
    } else {
        spec_fmt_gcb(gcbs[k].0) + spec_fmt_gcb_items(gcbs, k + 1)
    }
}

/// Regex text of one term.
pub open spec fn spec_fmt_term(t: Term) -> Seq<char>
    decreases t, 0int, 0int,
{
    match t {
        Term::Nonterminal(_) => Seq::empty(),
        Term::GcbValue(g) => seq!['['] + spec_fmt_gcb(g.0) + seq![']'],
        Term::PropertyName(_) => seq!['[', '\\', 'x', '8', '0', '-', '\\', 'x', 'F', 'F', ']'],
        Term::GcbClass(not, gcbs) => seq!['['] + (if not {
            seq!['^']
        } else {
            Seq::empty()
        }) + spec_fmt_gcb_items(gcbs@, 0) + seq![']'],
        Term::Group(a) => seq!['(', '?', ':'] + spec_fmt_alt(a) + seq![')'],
    }
}

/// Regex text of one quantified term.
pub open spec fn spec_fmt_term_repeat(tr: TermRepeat) -> Seq<char>
    decreases tr, 0int, 0int,
{
    spec_fmt_term(tr.term) + spec_fmt_repeat(tr.repeat)
}

/// Regex text of the quantified terms `[k, ..)`.
pub open spec fn spec_fmt_seq_items(sq: Sequence, k: int) -> Seq<char>
    decreases sq, 1int, sq.0@.len() - k,
{
    if !(0 <= k < sq.0@.len()) {
        Seq::empty()
    } else {
        spec_fmt_term_repeat(sq.0@[k]) + spec_fmt_seq_items(sq, k + 1)
    }
}

/// Regex text of one sequence.
pub open spec fn spec_fmt_seq(sq: Sequence) -> Seq<char>
    decreases sq, 2int, 0int,
{
    spec_fmt_seq_items(sq, 0)
}

/// Regex text of the alternatives `[k, ..)`, pipe-separated.
pub open spec fn spec_fmt_alt_items(a: Alternate, k: int) -> Seq<char>
    decreases a, 3int, a.0@.len() - k,
{
    if !(0 <= k < a.0@.len()) {
        Seq::empty()
    } else if k == a.0@.len() - 1 {
        spec_fmt_seq(a.0@[k])
    } else {
        spec_fmt_seq(a.0@[k]) + seq!['|'] + spec_fmt_alt_items(a, k + 1)
    }
}

/// Regex text of one alternation.
pub open spec fn spec_fmt_alt(a: Alternate) -> Seq<char>
    decreases a, 4int, 0int,
{
    spec_fmt_alt_items(a, 0)
}

/// Whether a term can be rendered: no nonterminal remains, and the only
/// supported named property is `Extended_Pictographic`.
pub open spec fn term_renderable(t: Term) -> bool
    decreases t, 0int, 0int,
{
    match t {
        Term::Nonterminal(_) => false,
        Term::GcbValue(_) => true,
        Term::PropertyName(n) => n@ == "Extended_Pictographic"@,
        Term::GcbClass(_, _) => true,
        Term::Group(a) => alt_renderable(a),
    }
}

/// Whether the quantified terms `[k, ..)` can be rendered.
pub open spec fn seq_renderable_from(sq: Sequence, k: int) -> bool
    decreases sq, 1int, sq.0@.len() - k,
{
    if k >= sq.0@.len() {
        true
    } else {
        &&& 0 <= k
        &&& term_renderable(sq.0@[k].term)
        &&& seq_renderable_from(sq, k + 1)
    }
}

/// Whether the alternatives `[k, ..)` can be rendered.
pub open spec fn alt_renderable_from(a: Alternate, k: int) -> bool
    decreases a, 2int, a.0@.len() - k,
{
    if k >= a.0@.len() {
        true
    } else {
        &&& 0 <= k
        &&& seq_renderable_from(a.0@[k], 0)
        &&& alt_renderable_from(a, k + 1)
    }
}

/// Whether an alternation can be rendered.
pub open spec fn alt_renderable(a: Alternate) -> bool
    decreases a, 3int, 0int,
{
    alt_renderable_from(a, 0)
}

/// Whether a character may stand in rendered regex text: never the arrow
/// character `'='`, and no lowercase letter but the `'x'` of byte escapes —
/// so no production arrow and no nonterminal name survives rendering.
pub open spec fn render_char_ok(c: char) -> bool {
    &&& c != '='
    &&& (is_lower(c) ==> c == 'x')
}

/// Every character of the sequence may stand in rendered regex text.
pub open spec fn render_chars_ok(t: Seq<char>) -> bool {
    forall|k: int| 0 <= k < t.len() ==> render_char_ok(#[trigger] t[k])
}

proof fn lemma_render_chars_concat(a: Seq<char>, b: Seq<char>)
    requires
        render_chars_ok(a),
        render_chars_ok(b),
    ensures
        render_chars_ok(a + b),
{
    assert forall|k: int| 0 <= k < (a + b).len() implies render_char_ok(#[trigger] (a + b)[k]) by {
        if k < a.len() {
            assert((a + b)[k] == a[k]);
        } else {
            assert((a + b)[k] == b[k - a.len()]);
        }
    }
}

proof fn lemma_hex_digits_render_ok(x: nat)
    ensures
        render_chars_ok(crate::text::spec_hex_digits(x)),
    decreases x,
{
    if x < 16 {
        assert(render_char_ok(crate::text::spec_hex_digit(x)));
    } else {
        lemma_hex_digits_render_ok(x / 16);
        assert(render_char_ok(crate::text::spec_hex_digit(x % 16)));
        assert forall|k: int| 0 <= k < crate::text::spec_hex_digits(x).len() implies
            render_char_ok(#[trigger] crate::text::spec_hex_digits(x)[k]) by {
            let d = crate::text::spec_hex_digits(x / 16);
            if k < d.len() {
                assert(crate::text::spec_hex_digits(x)[k] == d[k]);
            }
        }
    }
}

proof fn lemma_hex2_render_ok(x: nat)
    ensures
        render_chars_ok(spec_hex2(x)),
{
    lemma_hex_digits_render_ok(x);
    let d = crate::text::spec_hex_digits(x);
    if d.len() < 2 {
        assert forall|k: int| 0 <= k < spec_hex2(x).len() implies render_char_ok(
            #[trigger] spec_hex2(x)[k],
        ) by {
            if k < 2 - d.len() {
                assert(spec_hex2(x)[k] == '0');
            } else {
                assert(spec_hex2(x)[k] == d[k - (2 - d.len())]);
            }
        }
    }
}

proof fn lemma_fmt_gcb_render_ok(g: GraphemeBreak)
    ensures
        render_chars_ok(spec_fmt_gcb(g)),
{
    lemma_hex2_render_ok(g.spec_code() as nat);
    lemma_hex2_render_ok((g.spec_code() + 0x80) as nat);
    assert(render_chars_ok(seq!['\\', 'x'])) by {
        assert(seq!['\\', 'x'][0] == '\\');
        assert(seq!['\\', 'x'][1] == 'x');
    }
    lemma_render_chars_concat(seq!['\\', 'x'], spec_hex2(g.spec_code() as nat));
    lemma_render_chars_concat(
        seq!['\\', 'x'] + spec_hex2(g.spec_code() as nat),
        seq!['\\', 'x'],
    );
    lemma_render_chars_concat(
        seq!['\\', 'x'] + spec_hex2(g.spec_code() as nat) + seq!['\\', 'x'],
        spec_hex2((g.spec_code() + 0x80) as nat),
    );
}

proof fn lemma_fmt_gcb_items_render_ok(gcbs: Seq<GcbValue>, k: int)
    ensures
        render_chars_ok(spec_fmt_gcb_items(gcbs, k)),
    decreases gcbs.len() - k,
{
    if 0 <= k < gcbs.len() {
        lemma_fmt_gcb_render_ok(gcbs[k].0);
        lemma_fmt_gcb_items_render_ok(gcbs, k + 1);
        lemma_render_chars_concat(spec_fmt_gcb(gcbs[k].0), spec_fmt_gcb_items(gcbs, k + 1));
    }
}

proof fn lemma_fmt_term_render_ok(t: Term)
    requires
        term_renderable(t),
    ensures
        render_chars_ok(spec_fmt_term(t)),
    decreases t, 4int, 0int,
{
    match t {
        Term::Nonterminal(_) => {},
        Term::GcbValue(g) => {
            lemma_fmt_gcb_render_ok(g.0);
            lemma_render_chars_concat(seq!['['], spec_fmt_gcb(g.0));
            lemma_render_chars_concat(seq!['['] + spec_fmt_gcb(g.0), seq![']']);
        },
        Term::PropertyName(_) => {
            let fixed = seq!['[', '\\', 'x', '8', '0', '-', '\\', 'x', 'F', 'F', ']'];
            assert forall|k: int| 0 <= k < fixed.len() implies render_char_ok(
                #[trigger] fixed[k],
            ) by {
                assert(fixed[0] == '[');
                assert(fixed[1] == '\\');
                assert(fixed[2] == 'x');
                assert(fixed[3] == '8');
                assert(fixed[4] == '0');
                assert(fixed[5] == '-');
                assert(fixed[6] == '\\');
                assert(fixed[7] == 'x');
                assert(fixed[8] == 'F');
                assert(fixed[9] == 'F');
                assert(fixed[10] == ']');
            }
        },
        Term::GcbClass(not, gcbs) => {
            lemma_fmt_gcb_items_render_ok(gcbs@, 0);
            let opener: Seq<char> = if not {
                seq!['^']
            } else {
                Seq::empty()
            };
            assert(render_chars_ok(opener));
            lemma_render_chars_concat(seq!['['], opener);
            lemma_render_chars_concat(seq!['['] + opener, spec_fmt_gcb_items(gcbs@, 0));
            lemma_render_chars_concat(
                seq!['['] + opener + spec_fmt_gcb_items(gcbs@, 0),
                seq![']'],
            );
        },
        Term::Group(a) => {
            lemma_fmt_alt_items_render_ok(a, 0);
            assert(render_chars_ok(seq!['(', '?', ':'])) by {
                assert(seq!['(', '?', ':'][0] == '(');
                assert(seq!['(', '?', ':'][1] == '?');
                assert(seq!['(', '?', ':'][2] == ':');
            }
            lemma_render_chars_concat(seq!['(', '?', ':'], spec_fmt_alt(a));
            lemma_render_chars_concat(seq!['(', '?', ':'] + spec_fmt_alt(a), seq![')']);
        },
    }
}

proof fn lemma_fmt_seq_items_render_ok(sq: Sequence, k: int)
    requires
        0 <= k ==> seq_renderable_from(sq, k),
    ensures
        0 <= k ==> render_chars_ok(spec_fmt_seq_items(sq, k)),
    decreases sq, 5int, sq.0@.len() - k,
{
    if 0 <= k < sq.0@.len() {
        lemma_fmt_term_render_ok(sq.0@[k].term);
        assert(render_chars_ok(spec_fmt_repeat(sq.0@[k].repeat)));
        lemma_render_chars_concat(
            spec_fmt_term(sq.0@[k].term),
            spec_fmt_repeat(sq.0@[k].repeat),
        );
        lemma_fmt_seq_items_render_ok(sq, k + 1);
        lemma_render_chars_concat(
            spec_fmt_term_repeat(sq.0@[k]),
            spec_fmt_seq_items(sq, k + 1),
        );
    }
}

proof fn lemma_fmt_alt_items_render_ok(a: Alternate, k: int)
    requires
        0 <= k ==> alt_renderable_from(a, k),
    ensures
        0 <= k ==> render_chars_ok(spec_fmt_alt_items(a, k)),
    decreases a, 6int, a.0@.len() - k,
{
    if 0 <= k < a.0@.len() {
        lemma_fmt_seq_items_render_ok(a.0@[k], 0);
        assert(spec_fmt_seq(a.0@[k]) == spec_fmt_seq_items(a.0@[k], 0));
        assert(render_chars_ok(spec_fmt_seq(a.0@[k])));
        if k == a.0@.len() - 1 {
            assert(spec_fmt_alt_items(a, k) == spec_fmt_seq(a.0@[k]));
        } else {
            lemma_fmt_alt_items_render_ok(a, k + 1);
            assert(render_chars_ok(seq!['|'])) by {
                assert(seq!['|'][0] == '|');
            }
            lemma_render_chars_concat(spec_fmt_seq(a.0@[k]), seq!['|']);
            lemma_render_chars_concat(
                spec_fmt_seq(a.0@[k]) + seq!['|'],
                spec_fmt_alt_items(a, k + 1),
            );
            assert(spec_fmt_alt_items(a, k) == spec_fmt_seq(a.0@[k]) + seq!['|']
                + spec_fmt_alt_items(a, k + 1));
        }
    }
}

/// Law: rendered regex text never contains the production arrow and never a
/// nonterminal name. Every character of the rendering of a renderable
/// alternation is admissible: no `'='` anywhere (so no `":="`), and no
/// lowercase letter but the `'x'` of byte escapes (so no nonterminal name,
/// which is lowercase throughout, can occur).
pub proof fn lemma_render_no_production_text(a: Alternate)
    requires
        alt_renderable(a),
    ensures
        render_chars_ok(spec_fmt_alt(a)),
    decreases a, 7int, 0int,
{
    lemma_fmt_alt_items_render_ok(a, 0);
}

impl Repeat {
    /// Regex text of the quantifier.
    pub fn fmt(&self) -> (r: String)
        ensures
            r@ == spec_fmt_repeat(*self),
    {
        match self {
            Repeat::One => {
                let out = String::new();
                proof {
                    assert(out@ =~= spec_fmt_repeat(Repeat::One));
                }
                out
            },
            Repeat::Star => {
                let mut chars: Vec<char> = Vec::new();
                chars.push('*');
                proof {
                    assert(chars@ =~= spec_fmt_repeat(Repeat::Star));
                }
                chars_to_string(&chars)
            },
            Repeat::Plus => {
                let mut chars: Vec<char> = Vec::new();
                chars.push('+');
                proof {
                    assert(chars@ =~= spec_fmt_repeat(Repeat::Plus));
                }
                chars_to_string(&chars)
            },
        }
    }
}

impl GcbValue {
    /// Regex text of the class literal: both byte encodings of the class.
    pub fn fmt(&self) -> (r: String)
        ensures
            r@ == spec_fmt_gcb(self.0),
    {
        let code = self.0.code();
        let mut out = String::new();
        let mut bs: Vec<char> = Vec::new();
        bs.push('\\');
        bs.push('x');
        let prefix = chars_to_string(&bs);
        out.append(prefix.as_str());
        let low = hex2(code);
        out.append(low.as_str());
        out.append(prefix.as_str());
        let high = hex2(code + 0x80);
        out.append(high.as_str());
        proof {
            assert(out@ =~= spec_fmt_gcb(self.0));
        }
        out
    }
}

/// Regex text of the class literals `[k, ..)`.
fn fmt_gcb_items(gcbs: &Vec<GcbValue>, k: usize) -> (r: String)
    requires
        k <= gcbs@.len(),
    ensures
        r@ == spec_fmt_gcb_items(gcbs@, k as int),
    decreases gcbs@.len() - k,
{
    if k == gcbs.len() {
        let out = String::new();
        proof {
            assert(out@ =~= spec_fmt_gcb_items(gcbs@, k as int));
        }
        out
    } else {
        let mut out = GcbValue(gcbs[k].0).fmt();
        let rest = fmt_gcb_items(gcbs, k + 1);
        out.append(rest.as_str());
        out
    }
}

impl TermRepeat {
    /// Regex text of the quantified term.
    pub fn fmt(&self) -> (r: String)
        requires
            term_renderable(self.term),
        ensures
            r@ == spec_fmt_term_repeat(*self),
        decreases self, 1int, 0int,
    {
        let mut out = self.term.fmt();
        let rep = self.repeat.fmt();
        out.append(rep.as_str());
        out
    }
}

impl Term {
    /// Regex text of the term: brackets for classes, a fixed byte range for
    /// the supported named property, non-capturing groups for alternations.
    pub fn fmt(&self) -> (r: String)
        requires
            term_renderable(*self),
        ensures
            r@ == spec_fmt_term(*self),
        decreases self, 0int, 0int,
    {
        match self {
            Term::Nonterminal(_) => {
                proof {
                    assert(false);
                }
                String::new()
            },
            Term::GcbValue(g) => {
                let mut out = String::new();
                let mut open: Vec<char> = Vec::new();
                open.push('[');
                out.append(chars_to_string(&open).as_str());
                let body = g.fmt();
                out.append(body.as_str());
                let mut close: Vec<char> = Vec::new();
                close.push(']');
                out.append(chars_to_string(&close).as_str());
                proof {
                    assert(out@ =~= spec_fmt_term(*self));
                }
                out
            },
            Term::PropertyName(_) => {
                let mut chars: Vec<char> = Vec::new();
                chars.push('[');
                chars.push('\\');
                chars.push('x');
                chars.push('8');
                chars.push('0');
                chars.push('-');
                chars.push('\\');
                chars.push('x');
                chars.push('F');
                chars.push('F');
                chars.push(']');
                proof {
                    assert(chars@ =~= spec_fmt_term(*self));
                }
                chars_to_string(&chars)
            },
            Term::GcbClass(not, gcbs) => {
                let mut out = String::new();
                let mut open: Vec<char> = Vec::new();
                open.push('[');
                if *not {
                    open.push('^');
                }
                out.append(chars_to_string(&open).as_str());
                let body = fmt_gcb_items(gcbs, 0);
                out.append(body.as_str());
                let mut close: Vec<char> = Vec::new();
                close.push(']');
                out.append(chars_to_string(&close).as_str());
                proof {
                    assert(out@ =~= spec_fmt_term(*self));
                }
                out
            },
            Term::Group(a) => {
                let mut chars: Vec<char> = Vec::new();
                chars.push('(');
                chars.push('?');
                chars.push(':');
                let mut out = chars_to_string(&chars);
                let body = a.fmt();
                out.append(body.as_str());
                let mut close: Vec<char> = Vec::new();
                close.push(')');
                out.append(chars_to_string(&close).as_str());
                proof {
                    assert(out@ =~= spec_fmt_term(*self));
                }
                out
            },
        }
    }
}

impl Sequence {
    /// Regex text of the sequence: its quantified terms, concatenated.
    pub fn fmt(&self) -> (r: String)
        requires
            seq_renderable_from(*self, 0),
        ensures
            r@ == spec_fmt_seq(*self),
        decreases self, 2int, 0int,
    {
        let mut out = String::new();
        let mut k: usize = 0;
        while k < self.0.len()
            invariant
                0 <= k <= self.0@.len(),
                seq_renderable_from(*self, k as int),
                out@ + spec_fmt_seq_items(*self, k as int) =~= spec_fmt_seq(*self),
            decreases self.0@.len() - k,
        {
            let piece = self.0[k].fmt();
            out.append(piece.as_str());
            k = k + 1;
        }
        proof {
            assert(spec_fmt_seq_items(*self, self.0@.len() as int).len() == 0);
            assert(out@ =~= spec_fmt_seq(*self));
        }
        out
    }
}

impl Alternate {
    /// Regex text of the alternation: its sequences, pipe-separated.
    pub fn fmt(&self) -> (r: String)
        requires
            alt_renderable(*self),
        ensures
            r@ == spec_fmt_alt(*self),
        decreases self, 3int, 0int,
    {
        let mut out = String::new();
        let mut k: usize = 0;
        while k < self.0.len()
            invariant
                0 <= k <= self.0@.len(),
                alt_renderable_from(*self, k as int),
                out@ + spec_fmt_alt_items(*self, k as int) =~= spec_fmt_alt(*self),
            decreases self.0@.len() - k,
        {
            let piece = self.0[k].fmt();
            out.append(piece.as_str());
            if k + 1 < self.0.len() {
                let mut bar: Vec<char> = Vec::new();
                bar.push('|');
                out.append(chars_to_string(&bar).as_str());
            }
            k = k + 1;
        }
        proof {
            assert(spec_fmt_alt_items(*self, self.0@.len() as int).len() == 0);
            assert(out@ =~= spec_fmt_alt(*self));
        }
        out
    }

    /// Whether the alternation can be rendered.
    pub fn renderable(&self) -> (r: bool)
        ensures
            r == alt_renderable(*self),
    {
        alt_renderable_exec(self, 0)
    }
}

fn term_renderable_exec(t: &Term) -> (r: bool)
    ensures
        r == term_renderable(*t),
    decreases t, 0int, 0int,
{
    match t {
        Term::Nonterminal(_) => false,
        Term::GcbValue(_) => true,
        Term::PropertyName(n) => str_eq(n.as_str(), "Extended_Pictographic"),
        Term::GcbClass(_, _) => true,
        Term::Group(a) => alt_renderable_exec(a, 0),
    }
}

fn seq_renderable_exec(sq: &Sequence, k: usize) -> (r: bool)
    requires
        k <= sq.0@.len(),
    ensures
        r == seq_renderable_from(*sq, k as int),
    decreases sq, 1int, sq.0@.len() - k,
{
    if k == sq.0.len() {
        true
    } else {
        let head = term_renderable_exec(&sq.0[k].term);
        if head {
            seq_renderable_exec(sq, k + 1)
        } else {
            false
        }
    }
}

fn alt_renderable_exec(a: &Alternate, k: usize) -> (r: bool)
    requires
        k <= a.0@.len(),
    ensures
        r == alt_renderable_from(*a, k as int),
    decreases a, 2int, a.0@.len() - k,
{
    if k == a.0.len() {
        true
    } else {
        let head = seq_renderable_exec(&a.0[k], 0);
        if head {
            alt_renderable_exec(a, k + 1)
        } else {
            false
        }
    }
}

impl Grammar {
    /// Regex text of the (expanded) root production.
    pub fn fmt(&self) -> (r: String)
        requires
            self.0@.len() >= 1,
            alt_renderable(self.0@[0].alternate),
        ensures
            r@ == spec_fmt_alt(self.0@[0].alternate),
    {
        self.0[0].alternate.fmt()
    }
}

// ---------------------------------------------------------------------------
// The fixed grapheme-cluster-boundary grammar and its compilation.
/// The fixed UAX #29 extended-grapheme-cluster grammar, as written here.
pub open spec fn egcbreak_grammar_text() -> Seq<char> {
    "egc := crlf | Control | precore* core postcore*\ncrlf := CR LF | CR | LF\nprecore := Prepend\ncore := hangul-syllable | ri-sequence | xpicto-sequence | [^Control CR LF]\npostcore := [Extend ZWJ SpacingMark]\nhangul-syllable := L* (V+ | LV V* | LVT) T* | L+ | T+\nri-sequence := Regional_Indicator Regional_Indicator\nxpicto-sequence := \\p{Extended_Pictographic} (Extend* ZWJ \\p{Extended_Pictographic})*"@
}

/// The fixed grammar text.
pub fn egcbreak_grammar() -> (r: &'static str)
    ensures
        r@ == egcbreak_grammar_text(),
{
    "egc := crlf | Control | precore* core postcore*\ncrlf := CR LF | CR | LF\nprecore := Prepend\ncore := hangul-syllable | ri-sequence | xpicto-sequence | [^Control CR LF]\npostcore := [Extend ZWJ SpacingMark]\nhangul-syllable := L* (V+ | LV V* | LVT) T* | L+ | T+\nri-sequence := Regional_Indicator Regional_Indicator\nxpicto-sequence := \\p{Extended_Pictographic} (Extend* ZWJ \\p{Extended_Pictographic})*"
}

/// Compiles the fixed grapheme-cluster-boundary grammar into one regular
/// expression: parses it, expands every nonterminal reference, and renders
/// the nonterminal-free tree. A reference to an undefined nonterminal, a
/// cyclic substitution chain, or an unsupported named property is rejected.
pub fn generate_egcbreak() -> (r: Result<String, GrammarError>)
    ensures
        r matches Ok(out) ==> render_chars_ok(out@),
        !sp_grammar_ok(egcbreak_grammar_text()) ==> r == Err::<String, GrammarError>(
            GrammarError::Syntax,
        ),
        sp_grammar_ok(egcbreak_grammar_text()) ==> exists|g: Grammar|
            {
                &&& #[trigger] grammar_parses(egcbreak_grammar_text(), g)
                &&& g.0@.len() >= 1
                &&& (r matches Ok(out) ==> (exists|e: Alternate|
                    {
                        &&& #[trigger] alt_expands(g.0@, g.0@[0].alternate, e, g.0@.len() as nat)
                        &&& alt_expanded(e)
                        &&& alt_renderable(e)
                        &&& out@ == spec_fmt_alt(e)
                    }))
                &&& (r matches Err(err) ==> (((err == GrammarError::TooDeep || err
                    == GrammarError::UndefinedNonterminal) && (forall|ra: Alternate|
                    !(#[trigger] alt_expands(g.0@, g.0@[0].alternate, ra, g.0@.len() as nat))))
                    || (err == GrammarError::UnsupportedProperty && (exists|e: Alternate|
                    {
                        &&& #[trigger] alt_expands(g.0@, g.0@[0].alternate, e, g.0@.len() as nat)
                        &&& !alt_renderable(e)
                    }))))
            },
{
    let parsed = Grammar::parse(egcbreak_grammar());
    match parsed {
        Err(e) => Err(e),
        Ok(mut g) => {
            let ghost parsed_g = g;
            match g.expand() {
                Err(e) => Err(e),
                Ok(()) => {
                    if g.0[0].alternate.renderable() {
                        let out = g.fmt();
                        proof {
                            lemma_render_no_production_text(g.0@[0].alternate);
                        }
                        proof {
                            let e = g.0@[0].alternate;
                            assert(grammar_parses(egcbreak_grammar_text(), parsed_g));
                            assert(alt_expands(
                                parsed_g.0@,
                                parsed_g.0@[0].alternate,
                                e,
                                parsed_g.0@.len() as nat,
                            ));
                        }
                        Ok(out)
                    } else {
                        Err(GrammarError::UnsupportedProperty)
                    }
                },
            }
        },
    }
}

} // verus!
