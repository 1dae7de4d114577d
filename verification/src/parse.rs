//! The line-oriented grammar text parser.
//!
//! The input is a sequence of `key value` lines, order-independent and
//! last-one-wins per key, except that production rules keep the first
//! definition per left-hand symbol.  A `;` begins a trailing comment.  The
//! numeric keys `angle` and `order` take an integer from 0 to 255 and
//! `rotate` a signed 32-bit integer; a malformed number silently falls back
//! to the unset default for that key.  Any other line is read as a
//! production rule `symbol=replacement` after removal of its spaces; a line
//! that does not fit that shape is ignored.

use crate::turtle::Rule;
use crate::turtle::TurtleGraphConfig;
use crate::turtle::TurtleSymbol;
use crate::turtle::symbol_of_char;
use vstd::prelude::*;

verus! {

/// The parsed form of a grammar text, as the specification sees it.
#[verifier::ext_equal]
pub struct GrammarModel {
    /// Turn angle divisor.
    pub angle: Option<u8>,
    /// Number of rewriting passes.
    pub order: Option<u8>,
    /// Whole-image rotation in degrees.
    pub rotate: Option<i32>,
    /// The axiom: the initial symbol sequence.
    pub start: Seq<TurtleSymbol>,
    /// The production rules, in order of their first definitions.
    pub rules: Seq<(TurtleSymbol, Seq<TurtleSymbol>)>,
}

/// The model before any line is read.
pub open spec fn empty_model() -> GrammarModel {
    GrammarModel {
        angle: None,
        order: None,
        rotate: None,
        start: Seq::empty(),
        rules: Seq::empty(),
    }
}

/// Whether a character counts as whitespace for trimming, as Rust's
/// `char::is_whitespace` has it: the ASCII whitespace characters and the
/// Unicode `White_Space` code points.
pub open spec fn is_space_char(c: char) -> bool {
    ||| c == ' '
    ||| c == '\t'
    ||| c == '\n'
    ||| c == '\r'
    ||| c == '\u{b}'
    ||| c == '\u{c}'
    ||| c == '\u{85}'
    ||| c == '\u{a0}'
    ||| c == '\u{1680}'
    ||| ('\u{2000}' <= c && c <= '\u{200a}')
    ||| c == '\u{2028}'
    ||| c == '\u{2029}'
    ||| c == '\u{202f}'
    ||| c == '\u{205f}'
    ||| c == '\u{3000}'
}

/// Whether a character is a decimal digit.
pub open spec fn is_digit_char(c: char) -> bool {
    '0' <= c && c <= '9'
}

/// The value of a decimal digit.
pub open spec fn digit_val(c: char) -> int {
    (c as u32) - ('0' as u32)
}

/// The index of the first newline at or after `i`, or the end.
pub open spec fn line_end(s: Seq<char>, i: int) -> int
    decreases s.len() - i,
{
    if i < 0 || i >= s.len() {
        s.len() as int
    } else if s[i] == '\n' {
        i
    } else {
        line_end(s, i + 1)
    }
}

/// The index of the first non-whitespace character at or after `i`, or the
/// end.
pub open spec fn skip_spaces(s: Seq<char>, i: int) -> int
    decreases s.len() - i,
{
    if i < 0 || i >= s.len() {
        s.len() as int
    } else if is_space_char(s[i]) {
        skip_spaces(s, i + 1)
    } else {
        i
    }
}

/// The index just past the last non-whitespace character before `j`.
pub open spec fn trim_end(s: Seq<char>, j: int) -> int
    decreases j,
{
    if j <= 0 || j > s.len() {
        0
    } else if is_space_char(s[j - 1]) {
        trim_end(s, j - 1)
    } else {
        j
    }
}

/// The sequence without its leading and trailing whitespace.
pub open spec fn trimmed(s: Seq<char>) -> Seq<char> {
    let a = skip_spaces(s, 0);
    let b = trim_end(s, s.len() as int);
    if a >= b {
        Seq::empty()
    } else {
        s.subrange(a, b)
    }
}

/// The index of the first `;` at or after `i`, or the end: a `;` begins a
/// trailing comment.
pub open spec fn semi_end(s: Seq<char>, i: int) -> int
    decreases s.len() - i,
{
    if i < 0 || i >= s.len() {
        s.len() as int
    } else if s[i] == ';' {
        i
    } else {
        semi_end(s, i + 1)
    }
}

/// The meaningful part of a line: trimmed, and cut before any comment.
pub open spec fn word_of_line(line: Seq<char>) -> Seq<char> {
    let t = trimmed(line);
    t.take(semi_end(t, 0))
}

/// Whether `p` is a prefix of `s`.
pub open spec fn starts_with(s: Seq<char>, p: Seq<char>) -> bool {
    p.len() <= s.len() && s.take(p.len() as int) == p
}

/// The `angle` keyword.
pub open spec fn angle_kw() -> Seq<char> {
    seq!['a', 'n', 'g', 'l', 'e']
}

/// The `order` keyword.
pub open spec fn order_kw() -> Seq<char> {
    seq!['o', 'r', 'd', 'e', 'r']
}

/// The `rotate` keyword.
pub open spec fn rotate_kw() -> Seq<char> {
    seq!['r', 'o', 't', 'a', 't', 'e']
}

/// The axiom keyword.
pub open spec fn start_kw() -> Seq<char> {
    seq!['a', 'x', 'i', 'o', 'm']
}

/// Whether every character is a decimal digit.
pub open spec fn all_digits(s: Seq<char>) -> bool {
    forall|i: int| 0 <= i < s.len() ==> is_digit_char(#[trigger] s[i])
}

/// The value of a sequence of decimal digits, most significant first.
pub open spec fn dec_val(s: Seq<char>) -> int
    decreases s.len(),
{
    if s.len() == 0 {
        0
    } else {
        dec_val(s.drop_last()) * 10 + digit_val(s.last())
    }
}

/// An unsigned byte read from decimal text: an optional `+` sign, then one
/// or more digits, value at most 255; anything else is no number.
pub open spec fn parse_u8(s: Seq<char>) -> Option<u8> {
    let d = if s.len() >= 1 && s[0] == '+' {
        s.drop_first()
    } else {
        s
    };
    if d.len() >= 1 && all_digits(d) && dec_val(d) <= 255 {
        Some(dec_val(d) as u8)
    } else {
        None
    }
}

/// A signed 32-bit integer read from decimal text: an optional sign, then
/// one or more digits, value in the type's range; anything else is no
/// number.
pub open spec fn parse_i32(s: Seq<char>) -> Option<i32> {
    if s.len() >= 1 && s[0] == '-' {
        let d = s.drop_first();
        if d.len() >= 1 && all_digits(d) && dec_val(d) <= 0x8000_0000 {
            Some((-dec_val(d)) as i32)
        } else {
            None
        }
    } else {
        let d = if s.len() >= 1 && s[0] == '+' {
            s.drop_first()
        } else {
            s
        };
        if d.len() >= 1 && all_digits(d) && dec_val(d) <= 0x7fff_ffff {
            Some(dec_val(d) as i32)
        } else {
            None
        }
    }
}

/// The sequence with its space characters (only `' '`) removed, from `i`
/// on.
pub open spec fn remove_spaces_from(s: Seq<char>, i: int) -> Seq<char>
    decreases s.len() - i,
{
    if i < 0 || i >= s.len() {
        Seq::empty()
    } else if s[i] == ' ' {
        remove_spaces_from(s, i + 1)
    } else {
        seq![s[i]] + remove_spaces_from(s, i + 1)
    }
}

/// The symbols the characters denote, in order.
pub open spec fn symbols_of(s: Seq<char>) -> Seq<TurtleSymbol> {
    s.map(|i: int, c: char| symbol_of_char(c))
}

/// The rules of an exec rule vector, as the specification sees them.
pub open spec fn rules_views(rs: Seq<Rule>) -> Seq<(TurtleSymbol, Seq<TurtleSymbol>)> {
    rs.map(|i: int, r: Rule| (r.0, r.1@))
}

/// Whether a left-hand symbol already has a production.
pub open spec fn rules_has_key(
    rules: Seq<(TurtleSymbol, Seq<TurtleSymbol>)>,
    k: TurtleSymbol,
) -> bool {
    exists|j: int| 0 <= j < rules.len() && (#[trigger] rules[j]).0 == k
}

/// One line folded into the model.  The four keyword lines each overwrite
/// their key (a malformed number overwrites with the unset default); any
/// other line is a production rule when, after space removal, its second
/// character is `=` — and is kept only when its left-hand symbol has no
/// production yet.
pub open spec fn apply_line(m: GrammarModel, line: Seq<char>) -> GrammarModel {
    let w = word_of_line(line);
    if starts_with(w, angle_kw()) {
        GrammarModel { angle: parse_u8(trimmed(w.skip(5))), ..m }
    } else if starts_with(w, order_kw()) {
        GrammarModel { order: parse_u8(trimmed(w.skip(5))), ..m }
    } else if starts_with(w, rotate_kw()) {
        GrammarModel { rotate: parse_i32(trimmed(w.skip(6))), ..m }
    } else if starts_with(w, start_kw()) {
        GrammarModel { start: symbols_of(trimmed(w.skip(5))), ..m }
    } else {
        let r = remove_spaces_from(w, 0);
        if r.len() >= 2 && r[1] == '=' && !rules_has_key(m.rules, symbol_of_char(r[0])) {
            GrammarModel {
                rules: m.rules.push((symbol_of_char(r[0]), symbols_of(r.skip(2)))),
                ..m
            }
        } else {
            m
        }
    }
}

/// The start and end of each line lie within the text.
pub proof fn lemma_line_end_bounds(s: Seq<char>, i: int)
    requires
        0 <= i <= s.len(),
    ensures
        i <= line_end(s, i) <= s.len(),
    decreases s.len() - i,
{
    if i < s.len() && s[i] != '\n' {
        lemma_line_end_bounds(s, i + 1);
    }
}

/// The text folded line by line into the model, starting at `i`.
pub open spec fn parse_from(s: Seq<char>, i: int, m: GrammarModel) -> GrammarModel
    decreases s.len() - i,
    via parse_from_dec
{
    if i < 0 || i > s.len() {
        m
    } else {
        let e = line_end(s, i);
        let m2 = apply_line(m, s.subrange(i, e));
        if e >= s.len() {
            m2
        } else {
            parse_from(s, e + 1, m2)
        }
    }
}

#[via_fn]
proof fn parse_from_dec(s: Seq<char>, i: int, m: GrammarModel) {
    if 0 <= i <= s.len() {
        lemma_line_end_bounds(s, i);
    }
}

/// The whole grammar text, parsed.
pub open spec fn parse_config(s: Seq<char>) -> GrammarModel {
    parse_from(s, 0, empty_model())
}

/// The characters of a string, in order.
fn chars_of(s: &str) -> (v: Vec<char>)
    ensures
        v@ == s@,
{
    let mut v: Vec<char> = Vec::new();
    for c in it: s.chars()
        invariant
            v@ == it.seq().take(it.index() as int),
    {
        v.push(c);
    }
    proof {
        assert(v@ =~= s@);
    }
    v
}

/// The index of the first newline at or after `from`, or the end.
fn find_line_end(cs: &Vec<char>, from: usize) -> (e: usize)
    requires
        from <= cs@.len(),
    ensures
        from <= e <= cs@.len(),
        e == line_end(cs@, from as int),
{
    let n = cs.len();
    let mut k = from;
    while k < n
        invariant
            from <= k <= n,
            n == cs@.len(),
            line_end(cs@, from as int) == line_end(cs@, k as int),
        decreases n - k,
    {
        if cs[k] == '\n' {
            return k;
        }
        k = k + 1;
    }
    k
}

/// A copy of the characters in `[a, b)`.
fn copy_range(cs: &Vec<char>, a: usize, b: usize) -> (v: Vec<char>)
    requires
        a <= b <= cs@.len(),
    ensures
        v@ == cs@.subrange(a as int, b as int),
{
    let mut v: Vec<char> = Vec::new();
    let mut k = a;
    while k < b
        invariant
            a <= k <= b <= cs@.len(),
            v@ == cs@.subrange(a as int, k as int),
        decreases b - k,
    {
        v.push(cs[k]);
        k = k + 1;
        proof {
            assert(v@ =~= cs@.subrange(a as int, k as int));
        }
    }
    v
}

/// Whether a character counts as whitespace for trimming.
fn is_space(c: char) -> (r: bool)
    ensures
        r == is_space_char(c),
{
    c == ' ' || c == '\t' || c == '\n' || c == '\r' || c == '\u{b}' || c == '\u{c}'
        || c == '\u{85}' || c == '\u{a0}' || c == '\u{1680}' || ('\u{2000}' <= c && c
        <= '\u{200a}') || c == '\u{2028}' || c == '\u{2029}' || c == '\u{202f}' || c
        == '\u{205f}' || c == '\u{3000}'
}

/// A copy of the characters without leading and trailing whitespace.
fn trimmed_vec(cs: &Vec<char>) -> (t: Vec<char>)
    ensures
        t@ == trimmed(cs@),
{
    let n = cs.len();
    let mut a: usize = 0;
    while a < n && is_space(cs[a])
        invariant
            0 <= a <= n,
            n == cs@.len(),
            skip_spaces(cs@, 0) == skip_spaces(cs@, a as int),
        decreases n - a,
    {
        a = a + 1;
    }
    let mut b: usize = n;
    while b > 0 && is_space(cs[b - 1])
        invariant
            0 <= b <= n,
            n == cs@.len(),
            trim_end(cs@, n as int) == trim_end(cs@, b as int),
        decreases b,
    {
        b = b - 1;
    }
    if a >= b {
        Vec::new()
    } else {
        copy_range(cs, a, b)
    }
}

/// The index of the first `;`, or the end.
fn find_semi(t: &Vec<char>) -> (e: usize)
    ensures
        e <= t@.len(),
        e == semi_end(t@, 0),
{
    let n = t.len();
    let mut k: usize = 0;
    while k < n
        invariant
            0 <= k <= n,
            n == t@.len(),
            semi_end(t@, 0) == semi_end(t@, k as int),
        decreases n - k,
    {
        if t[k] == ';' {
            return k;
        }
        k = k + 1;
    }
    k
}

/// The meaningful part of a line: trimmed, and cut before any comment.
fn word_of(line: &Vec<char>) -> (w: Vec<char>)
    ensures
        w@ == word_of_line(line@),
{
    let t = trimmed_vec(line);
    let k = find_semi(&t);
    proof {
        assert(t@.take(k as int) =~= t@.subrange(0, k as int));
    }
    copy_range(&t, 0, k)
}

/// Whether the word begins with the five given characters.
fn prefix5(w: &Vec<char>, c0: char, c1: char, c2: char, c3: char, c4: char) -> (r: bool)
    ensures
        r == (w@.len() >= 5 && w@[0] == c0 && w@[1] == c1 && w@[2] == c2 && w@[3] == c3 && w@[4]
            == c4),
{
    w.len() >= 5 && w[0] == c0 && w[1] == c1 && w[2] == c2 && w[3] == c3 && w[4] == c4
}

/// Whether the word begins with the six given characters.
fn prefix6(w: &Vec<char>, c0: char, c1: char, c2: char, c3: char, c4: char, c5: char) -> (r: bool)
    ensures
        r == (w@.len() >= 6 && w@[0] == c0 && w@[1] == c1 && w@[2] == c2 && w@[3] == c3 && w@[4]
            == c4 && w@[5] == c5),
{
    w.len() >= 6 && w[0] == c0 && w[1] == c1 && w[2] == c2 && w[3] == c3 && w[4] == c4 && w[5]
        == c5
}

/// A prefix of five characters, spelled out.
proof fn lemma_prefix5(s: Seq<char>, c0: char, c1: char, c2: char, c3: char, c4: char)
    ensures
        starts_with(s, seq![c0, c1, c2, c3, c4]) <==> (s.len() >= 5 && s[0] == c0 && s[1] == c1
            && s[2] == c2 && s[3] == c3 && s[4] == c4),
{
    let p = seq![c0, c1, c2, c3, c4];
    if s.len() >= 5 {
        assert forall|x: int| 0 <= x < 5 implies s.take(5)[x] == s[x] by {}
        if s.len() >= 5 && s[0] == c0 && s[1] == c1 && s[2] == c2 && s[3] == c3 && s[4] == c4 {
            assert(s.take(5) =~= p);
        }
        if s.take(5) == p {
            assert(s[0] == c0 && s[1] == c1 && s[2] == c2 && s[3] == c3 && s[4] == c4);
        }
    }
}

/// A prefix of six characters, spelled out.
proof fn lemma_prefix6(s: Seq<char>, c0: char, c1: char, c2: char, c3: char, c4: char, c5: char)
    ensures
        starts_with(s, seq![c0, c1, c2, c3, c4, c5]) <==> (s.len() >= 6 && s[0] == c0 && s[1]
            == c1 && s[2] == c2 && s[3] == c3 && s[4] == c4 && s[5] == c5),
{
    let p = seq![c0, c1, c2, c3, c4, c5];
    if s.len() >= 6 {
        assert forall|x: int| 0 <= x < 6 implies s.take(6)[x] == s[x] by {}
        if s.len() >= 6 && s[0] == c0 && s[1] == c1 && s[2] == c2 && s[3] == c3 && s[4] == c4
            && s[5] == c5 {
            assert(s.take(6) =~= p);
        }
        if s.take(6) == p {
            assert(s[0] == c0 && s[1] == c1 && s[2] == c2 && s[3] == c3 && s[4] == c4 && s[5]
                == c5);
        }
    }
}

/// Appending one more digit multiplies the value by ten and adds the digit.
proof fn lemma_dec_val_step(d: Seq<char>, k: int)
    requires
        0 <= k < d.len(),
    ensures
        dec_val(d.take(k + 1)) == dec_val(d.take(k)) * 10 + digit_val(d[k]),
{
    assert(d.take(k + 1).drop_last() =~= d.take(k));
    assert(d.take(k + 1).last() == d[k]);
}

/// An unsigned byte read from decimal text.
fn parse_u8_vec(s: &Vec<char>) -> (r: Option<u8>)
    ensures
        r == parse_u8(s@),
{
    let n = s.len();
    let start: usize = if n >= 1 && s[0] == '+' {
        1
    } else {
        0
    };
    let ghost d = if s@.len() >= 1 && s@[0] == '+' {
        s@.drop_first()
    } else {
        s@
    };
    proof {
        assert(d =~= s@.subrange(start as int, n as int));
    }
    if start >= n {
        return None;
    }
    let mut k = start;
    let mut val: u32 = 0;
    let mut over: bool = false;
    while k < n
        invariant
            start <= k <= n,
            start < n,
            n == s@.len(),
            d == s@.subrange(start as int, n as int),
            d == (if s@.len() >= 1 && s@[0] == '+' {
                s@.drop_first()
            } else {
                s@
            }),
            d.len() == n - start,
            forall|j: int| 0 <= j < k - start ==> is_digit_char(#[trigger] d[j]),
            !over ==> val == dec_val(d.take(k - start)) && val <= 255,
            over ==> dec_val(d.take(k - start)) > 255,
        decreases n - k,
    {
        let c = s[k];
        proof {
            assert(d[k - start] == s@[k as int]);
        }
        if c < '0' || c > '9' {
            return None;
        }
        proof {
            lemma_dec_val_step(d, k - start);
        }
        let dv: u32 = (c as u32) - ('0' as u32);
        if over {
        } else {
            val = val * 10 + dv;
            if val > 255 {
                over = true;
            }
        }
        k = k + 1;
    }
    proof {
        assert(d.take(n - start) =~= d);
        assert(all_digits(d));
    }
    if over {
        None
    } else {
        Some(val as u8)
    }
}

/// A signed 32-bit integer read from decimal text.
fn parse_i32_vec(s: &Vec<char>) -> (r: Option<i32>)
    ensures
        r == parse_i32(s@),
{
    let n = s.len();
    let neg: bool = n >= 1 && s[0] == '-';
    let start: usize = if n >= 1 && (s[0] == '+' || s[0] == '-') {
        1
    } else {
        0
    };
    let ghost d = if neg {
        s@.drop_first()
    } else if s@.len() >= 1 && s@[0] == '+' {
        s@.drop_first()
    } else {
        s@
    };
    proof {
        assert(d =~= s@.subrange(start as int, n as int));
    }
    if start >= n {
        return None;
    }
    let mut k = start;
    let mut val: u64 = 0;
    let mut over: bool = false;
    while k < n
        invariant
            start <= k <= n,
            start < n,
            n == s@.len(),
            d == s@.subrange(start as int, n as int),
            neg == (s@.len() >= 1 && s@[0] == '-'),
            d == (if neg {
                s@.drop_first()
            } else if s@.len() >= 1 && s@[0] == '+' {
                s@.drop_first()
            } else {
                s@
            }),
            d.len() == n - start,
            forall|j: int| 0 <= j < k - start ==> is_digit_char(#[trigger] d[j]),
            !over ==> val == dec_val(d.take(k - start)) && val <= 0x8000_0000,
            over ==> dec_val(d.take(k - start)) > 0x8000_0000,
        decreases n - k,
    {
        let c = s[k];
        proof {
            assert(d[k - start] == s@[k as int]);
        }
        if c < '0' || c > '9' {
            return None;
        }
        proof {
            lemma_dec_val_step(d, k - start);
        }
        let dv: u64 = ((c as u32) - ('0' as u32)) as u64;
        if over {
        } else {
            val = val * 10 + dv;
            if val > 0x8000_0000 {
                over = true;
            }
        }
        k = k + 1;
    }
    proof {
        assert(d.take(n - start) =~= d);
        assert(all_digits(d));
    }
    if over {
        None
    } else if neg {
        Some((-(val as i64)) as i32)
    } else if val <= 0x7fff_ffff {
        Some(val as i32)
    } else {
        None
    }
}

/// A copy of the characters with the spaces removed.
fn remove_spaces_vec(w: &Vec<char>) -> (r: Vec<char>)
    ensures
        r@ == remove_spaces_from(w@, 0),
{
    let n = w.len();
    let mut r: Vec<char> = Vec::new();
    let mut k: usize = 0;
    while k < n
        invariant
            0 <= k <= n,
            n == w@.len(),
            remove_spaces_from(w@, 0) == r@ + remove_spaces_from(w@, k as int),
        decreases n - k,
    {
        if w[k] != ' ' {
            r.push(w[k]);
            proof {
                assert(r@.drop_last() + (seq![w@[k as int]] + remove_spaces_from(
                    w@,
                    k + 1,
                )) =~= r@ + remove_spaces_from(w@, k + 1));
            }
        }
        k = k + 1;
    }
    proof {
        assert(remove_spaces_from(w@, n as int) =~= Seq::<char>::empty());
        assert(r@ + remove_spaces_from(w@, n as int) =~= r@);
    }
    r
}

/// The symbols the characters denote, in order.
fn symbols_vec(cs: &Vec<char>) -> (v: Vec<TurtleSymbol>)
    ensures
        v@ == symbols_of(cs@),
{
    let n = cs.len();
    let mut v: Vec<TurtleSymbol> = Vec::new();
    let mut k: usize = 0;
    while k < n
        invariant
            0 <= k <= n,
            n == cs@.len(),
            v@ == symbols_of(cs@.take(k as int)),
        decreases n - k,
    {
        v.push(TurtleSymbol::from(cs[k]));
        k = k + 1;
        proof {
            assert(v@ =~= symbols_of(cs@.take(k as int)));
        }
    }
    proof {
        assert(cs@.take(n as int) =~= cs@);
    }
    v
}

/// Whether a left-hand symbol already has a production in the rule vector.
fn rules_contain(rules: &Vec<Rule>, key: TurtleSymbol) -> (r: bool)
    ensures
        r == rules_has_key(rules_views(rules@), key),
{
    let n = rules.len();
    let mut k: usize = 0;
    while k < n
        invariant
            0 <= k <= n,
            n == rules@.len(),
            forall|j: int| 0 <= j < k ==> (#[trigger] rules_views(rules@)[j]).0 != key,
        decreases n - k,
    {
        if rules[k].0 == key {
            proof {
                assert(rules_views(rules@)[k as int].0 == key);
            }
            return true;
        }
        k = k + 1;
    }
    false
}

impl TurtleGraphConfig {
    /// The grammar as the specification sees it.
    pub open spec fn model(&self) -> GrammarModel {
        GrammarModel {
            angle: self.angle,
            order: self.order,
            rotate: self.rotate,
            start: self.start@,
            rules: self.rules_view(),
        }
    }

    /// Parses a whole grammar text.  Parsing never fails: a malformed
    /// numeric field falls back to the unset default for its key, and an
    /// unknown character in the axiom or a rule is captured as a custom
    /// symbol.
    pub fn from_str(s: &str) -> (r: TurtleGraphConfig)
        ensures
            r.model() == parse_config(s@),
    {
        let cs = chars_of(s);
        let n = cs.len();
        let mut cfg = TurtleGraphConfig {
            angle: None,
            order: None,
            rotate: None,
            start: Vec::new(),
            rules: Vec::new(),
        };
        proof {
            assert(cfg.rules_view() =~= Seq::<(TurtleSymbol, Seq<TurtleSymbol>)>::empty());
            assert(cfg.model() =~= empty_model());
        }
        let mut i: usize = 0;
        loop
            invariant_except_break
                parse_config(s@) == parse_from(s@, i as int, cfg.model()),
            invariant
                cs@ == s@,
                n == cs@.len(),
                0 <= i <= n,
            ensures
                cfg.model() == parse_config(s@),
            decreases n - i,
        {
            let ghost m0 = cfg.model();
            let e = find_line_end(&cs, i);
            let line = copy_range(&cs, i, e);
            apply_line_exec(&mut cfg, &line);
            proof {
                assert(line@ == s@.subrange(i as int, line_end(s@, i as int)));
                assert(cfg.model() == apply_line(m0, s@.subrange(i as int, line_end(s@, i as int))));
            }
            if e >= n {
                proof {
                    assert(parse_from(s@, i as int, m0) == cfg.model());
                }
                break ;
            }
            i = e + 1;
        }
        cfg
    }
}

/// One line folded into the grammar.
fn apply_line_exec(cfg: &mut TurtleGraphConfig, line: &Vec<char>)
    ensures
        final(cfg).model() == apply_line(old(cfg).model(), line@),
{
    let w = word_of(line);
    let ghost wv = w@;
    if prefix5(&w, 'a', 'n', 'g', 'l', 'e') {
        proof {
            lemma_prefix5(wv, 'a', 'n', 'g', 'l', 'e');
        }
        let vp = trimmed_vec(&copy_range(&w, 5, w.len()));
        cfg.angle = parse_u8_vec(&vp);
        proof {
            assert(wv.subrange(5, wv.len() as int) =~= wv.skip(5));
            assert(final(cfg).model() =~= apply_line(old(cfg).model(), line@));
        }
    } else if prefix5(&w, 'o', 'r', 'd', 'e', 'r') {
        proof {
            lemma_prefix5(wv, 'a', 'n', 'g', 'l', 'e');
            lemma_prefix5(wv, 'o', 'r', 'd', 'e', 'r');
        }
        let vp = trimmed_vec(&copy_range(&w, 5, w.len()));
        cfg.order = parse_u8_vec(&vp);
        proof {
            assert(wv.subrange(5, wv.len() as int) =~= wv.skip(5));
            assert(final(cfg).model() =~= apply_line(old(cfg).model(), line@));
        }
    } else if prefix6(&w, 'r', 'o', 't', 'a', 't', 'e') {
        proof {
            lemma_prefix5(wv, 'a', 'n', 'g', 'l', 'e');
            lemma_prefix5(wv, 'o', 'r', 'd', 'e', 'r');
            lemma_prefix6(wv, 'r', 'o', 't', 'a', 't', 'e');
        }
        let vp = trimmed_vec(&copy_range(&w, 6, w.len()));
        cfg.rotate = parse_i32_vec(&vp);
        proof {
            assert(wv.subrange(6, wv.len() as int) =~= wv.skip(6));
            assert(final(cfg).model() =~= apply_line(old(cfg).model(), line@));
        }
    } else if prefix5(&w, 'a', 'x', 'i', 'o', 'm') {
        proof {
            lemma_prefix5(wv, 'a', 'n', 'g', 'l', 'e');
            lemma_prefix5(wv, 'o', 'r', 'd', 'e', 'r');
            lemma_prefix6(wv, 'r', 'o', 't', 'a', 't', 'e');
            lemma_prefix5(wv, 'a', 'x', 'i', 'o', 'm');
        }
        let vp = trimmed_vec(&copy_range(&w, 5, w.len()));
        cfg.start = symbols_vec(&vp);
        proof {
            assert(wv.subrange(5, wv.len() as int) =~= wv.skip(5));
            assert(final(cfg).model() =~= apply_line(old(cfg).model(), line@));
        }
    } else {
        proof {
            lemma_prefix5(wv, 'a', 'n', 'g', 'l', 'e');
            lemma_prefix5(wv, 'o', 'r', 'd', 'e', 'r');
            lemma_prefix6(wv, 'r', 'o', 't', 'a', 't', 'e');
            lemma_prefix5(wv, 'a', 'x', 'i', 'o', 'm');
        }
        let r = remove_spaces_vec(&w);
        let ghost rv = remove_spaces_from(wv, 0);
        if r.len() >= 2 && r[1] == '=' {
            let key = TurtleSymbol::from(r[0]);
            let already = rules_contain(&cfg.rules, key);
            proof {
                assert(rules_views(cfg.rules@) =~= cfg.rules_view());
                assert(already == rules_has_key(old(cfg).model().rules, symbol_of_char(rv[0])));
            }
            if !already {
                let rhs = symbols_vec(&copy_range(&r, 2, r.len()));
                proof {
                    assert(rv.subrange(2, rv.len() as int) =~= rv.skip(2));
                }
                cfg.rules.push((key, rhs));
                proof {
                    assert(final(cfg).rules_view() =~= old(cfg).rules_view().push(
                        (symbol_of_char(rv[0]), symbols_of(rv.skip(2)))));
                    assert(final(cfg).model() =~= apply_line(old(cfg).model(), line@));
                }
            } else {
                proof {
                    assert(final(cfg).model() =~= apply_line(old(cfg).model(), line@));
                }
            }
        } else {
            proof {
                assert(final(cfg).model() =~= apply_line(old(cfg).model(), line@));
            }
        }
    }
}

} // verus
