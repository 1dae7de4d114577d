//! The L-system grammar, rewriter and turtle interpreter.
//!
//! A grammar ([`TurtleGraphConfig`]) holds an axiom, a set of production
//! rules and numeric parameters.  The rewriter expands the axiom for a fixed
//! number of passes over a [`List`] of symbols, splicing each matched symbol
//! with a fresh copy of its production.  The interpreter walks the expanded
//! sequence once and emits drawing segments while tracking heading, pen
//! color and a bounded undo-stack of turtle states.

use crate::list::List;
use vstd::prelude::*;
use vstd::string::StringExecFns;

verus! {

/// One symbol of the L-system alphabet.  Six characters map to the fixed
/// variants; any other character is a custom symbol carrying its literal
/// character payload.
#[derive(Debug, PartialEq, Eq, Structural, Hash, Clone, Copy)]
pub enum TurtleSymbol {
    F,
    G,
    Plus,
    Minus,
    PushStack,
    PopStack,
    CustomSymbol(char),
}

/// The symbol a character denotes.
pub open spec fn symbol_of_char(c: char) -> TurtleSymbol {
    if c == 'F' {
        TurtleSymbol::F
    } else if c == 'G' {
        TurtleSymbol::G
    } else if c == '+' {
        TurtleSymbol::Plus
    } else if c == '-' {
        TurtleSymbol::Minus
    } else if c == '[' {
        TurtleSymbol::PushStack
    } else if c == ']' {
        TurtleSymbol::PopStack
    } else {
        TurtleSymbol::CustomSymbol(c)
    }
}

/// The single-character textual form of a symbol.
pub open spec fn char_of_symbol(s: TurtleSymbol) -> char {
    match s {
        TurtleSymbol::F => 'F',
        TurtleSymbol::G => 'G',
        TurtleSymbol::Plus => '+',
        TurtleSymbol::Minus => '-',
        TurtleSymbol::PushStack => '[',
        TurtleSymbol::PopStack => ']',
        TurtleSymbol::CustomSymbol(c) => c,
    }
}

impl From<char> for TurtleSymbol {
    fn from(c: char) -> (r: TurtleSymbol) {
        match c {
            'F' => TurtleSymbol::F,
            'G' => TurtleSymbol::G,
            '+' => TurtleSymbol::Plus,
            '-' => TurtleSymbol::Minus,
            '[' => TurtleSymbol::PushStack,
            ']' => TurtleSymbol::PopStack,
            c => TurtleSymbol::CustomSymbol(c),
        }
    }
}

impl vstd::std_specs::convert::FromSpecImpl<char> for TurtleSymbol {
    open spec fn obeys_from_spec() -> bool {
        true
    }

    open spec fn from_spec(c: char) -> TurtleSymbol {
        symbol_of_char(c)
    }
}

impl TurtleSymbol {
    /// The symbol's single-character textual form.
    pub fn to_char(&self) -> (c: char)
        ensures
            c == char_of_symbol(*self),
    {
        match self {
            TurtleSymbol::F => 'F',
            TurtleSymbol::G => 'G',
            TurtleSymbol::Plus => '+',
            TurtleSymbol::Minus => '-',
            TurtleSymbol::PushStack => '[',
            TurtleSymbol::PopStack => ']',
            TurtleSymbol::CustomSymbol(c) => *c,
        }
    }
}

/// The seven named pen colors; each maps to a fixed RGB triple.  The
/// starting color of the interpreter is black.
#[derive(Debug, PartialEq, Eq, Structural, Clone, Copy)]
pub enum Colors {
    Red,
    Green,
    DarkBlue,
    Black,
    Brown,
    DarkGreen,
    White,
}

/// The color-set drawing command for a color's fixed RGB triple.
pub open spec fn color_command(c: Colors) -> Seq<char> {
    match c {
        Colors::Red => "1 0 0 setrgbcolor"@,
        Colors::Green => "0 1 0 setrgbcolor"@,
        Colors::DarkBlue => "0 0 1 setrgbcolor"@,
        Colors::Black => "0 0 0 setrgbcolor"@,
        Colors::Brown => "0.7 0.3 0 setrgbcolor"@,
        Colors::DarkGreen => "0.0 0.5 0.0 setrgbcolor"@,
        Colors::White => "1 1 1 setrgbcolor"@,
    }
}

/// The palette entry a digit selects, if any: digits `0` to `6` name the
/// seven colors.
pub open spec fn color_of_digit(c: char) -> Option<Colors> {
    if c == '0' {
        Some(Colors::Black)
    } else if c == '1' {
        Some(Colors::Red)
    } else if c == '2' {
        Some(Colors::DarkBlue)
    } else if c == '3' {
        Some(Colors::Green)
    } else if c == '4' {
        Some(Colors::Brown)
    } else if c == '5' {
        Some(Colors::DarkGreen)
    } else if c == '6' {
        Some(Colors::White)
    } else {
        None
    }
}

impl Colors {
    /// The textual color-set command, RGB components up to two decimals.
    pub fn setrgbcolor(&self) -> (s: String)
        ensures
            s@ == color_command(*self),
    {
        match self {
            Colors::Red => String::from_str("1 0 0 setrgbcolor"),
            Colors::Green => String::from_str("0 1 0 setrgbcolor"),
            Colors::DarkBlue => String::from_str("0 0 1 setrgbcolor"),
            Colors::Black => String::from_str("0 0 0 setrgbcolor"),
            Colors::Brown => String::from_str("0.7 0.3 0 setrgbcolor"),
            Colors::DarkGreen => String::from_str("0.0 0.5 0.0 setrgbcolor"),
            Colors::White => String::from_str("1 1 1 setrgbcolor"),
        }
    }
}

/// One production rule: a left-hand symbol and its replacement sequence.
pub type Rule = (TurtleSymbol, Vec<TurtleSymbol>);

/// A parsed grammar: optional numeric parameters, the axiom, and the
/// production rules in the order their first definitions appear in the text.
/// Rule keys are unique: at most one production per left-hand symbol, the
/// first definition wins.
pub struct TurtleGraphConfig {
    /// Turn angle divisor: one turn step is a full circle over `angle`.
    pub angle: Option<u8>,
    /// Number of rewriting passes.
    pub order: Option<u8>,
    /// Whole-image rotation in degrees.
    pub rotate: Option<i32>,
    /// The initial symbol sequence.
    pub start: Vec<TurtleSymbol>,
    /// The production rules, first definition of each key first.
    pub rules: Vec<Rule>,
}

/// One pass of one rule over a symbol sequence: every element equal to
/// `lhs` is replaced by the whole of `rhs`, elements spliced in by the pass
/// itself are not examined again.  An empty `rhs` leaves matched elements
/// unchanged.
pub open spec fn apply_rule(
    s: Seq<TurtleSymbol>,
    lhs: TurtleSymbol,
    rhs: Seq<TurtleSymbol>,
) -> Seq<TurtleSymbol>
    decreases s.len(),
{
    if s.len() == 0 {
        Seq::empty()
    } else {
        (if s[0] == lhs && rhs.len() > 0 {
            rhs
        } else {
            seq![s[0]]
        }) + apply_rule(s.drop_first(), lhs, rhs)
    }
}

/// `apply_rule` distributes over concatenation.
pub proof fn lemma_apply_rule_concat(
    a: Seq<TurtleSymbol>,
    b: Seq<TurtleSymbol>,
    lhs: TurtleSymbol,
    rhs: Seq<TurtleSymbol>,
)
    ensures
        apply_rule(a + b, lhs, rhs) == apply_rule(a, lhs, rhs) + apply_rule(b, lhs, rhs),
    decreases a.len(),
{
    if a.len() == 0 {
        assert(a + b =~= b);
        assert(apply_rule(a, lhs, rhs) + apply_rule(b, lhs, rhs) =~= apply_rule(b, lhs, rhs));
    } else {
        assert((a + b).len() > 0);
        assert((a + b)[0] == a[0]);
        assert((a + b).drop_first() =~= a.drop_first() + b);
        lemma_apply_rule_concat(a.drop_first(), b, lhs, rhs);
        let hd = if a[0] == lhs && rhs.len() > 0 {
            rhs
        } else {
            seq![a[0]]
        };
        assert(apply_rule(a + b, lhs, rhs) == hd + (apply_rule(a.drop_first(), lhs, rhs)
            + apply_rule(b, lhs, rhs)));
        assert(hd + (apply_rule(a.drop_first(), lhs, rhs) + apply_rule(b, lhs, rhs)) =~= (hd
            + apply_rule(a.drop_first(), lhs, rhs)) + apply_rule(b, lhs, rhs));
    }
}

/// `apply_rule` over one more element: the transformed prefix grows by the
/// element's replacement (or by the element itself where the rule does not
/// bite).
pub proof fn lemma_apply_rule_snoc(
    s: Seq<TurtleSymbol>,
    j: int,
    lhs: TurtleSymbol,
    rhs: Seq<TurtleSymbol>,
)
    requires
        0 <= j < s.len(),
    ensures
        apply_rule(s.take(j + 1), lhs, rhs) == apply_rule(s.take(j), lhs, rhs) + (if s[j] == lhs
            && rhs.len() > 0 {
            rhs
        } else {
            seq![s[j]]
        }),
{
    let one = seq![s[j]];
    let hd = if s[j] == lhs && rhs.len() > 0 {
        rhs
    } else {
        one
    };
    assert(s.take(j + 1) =~= s.take(j) + one);
    lemma_apply_rule_concat(s.take(j), one, lhs, rhs);
    assert(one.len() == 1 && one[0] == s[j]);
    assert(one.drop_first() =~= Seq::<TurtleSymbol>::empty());
    assert(apply_rule(Seq::<TurtleSymbol>::empty(), lhs, rhs) =~= Seq::<TurtleSymbol>::empty());
    assert(apply_rule(one, lhs, rhs) == hd + apply_rule(one.drop_first(), lhs, rhs));
    assert(hd + Seq::<TurtleSymbol>::empty() =~= hd);
    assert(apply_rule(s.take(j + 1), lhs, rhs) == apply_rule(s.take(j), lhs, rhs) + hd);
}

/// One whole pass: the rules applied one after the other, starting at rule
/// `k`, each over the result of the one before.  A production that
/// introduces a symbol of a later rule is therefore expanded again within
/// the same pass; one that introduces a symbol of an earlier rule is not.
pub open spec fn apply_rules_from(
    s: Seq<TurtleSymbol>,
    rules: Seq<(TurtleSymbol, Seq<TurtleSymbol>)>,
    k: int,
) -> Seq<TurtleSymbol>
    decreases rules.len() - k,
{
    if k < 0 || k >= rules.len() {
        s
    } else {
        apply_rules_from(apply_rule(s, rules[k].0, rules[k].1), rules, k + 1)
    }
}

/// The expanded symbol sequence: `passes` whole passes of the rule set over
/// the axiom.
pub open spec fn expand(
    start: Seq<TurtleSymbol>,
    rules: Seq<(TurtleSymbol, Seq<TurtleSymbol>)>,
    passes: nat,
) -> Seq<TurtleSymbol>
    decreases passes,
{
    if passes == 0 {
        start
    } else {
        apply_rules_from(expand(start, rules, (passes - 1) as nat), rules, 0)
    }
}

/// An expanded drawing: the numeric parameters with their defaults filled
/// in, and the fully expanded symbol sequence.
pub struct TurtleSyntax {
    /// The expanded symbol sequence.
    pub list: List<TurtleSymbol>,
    /// Turn angle divisor, `0` when unset.
    pub angle: u8,
    /// Number of rewriting passes that produced `list`.
    pub order: u8,
    /// Whole-image rotation in degrees, `0` when unset.
    pub rotate: i32,
}

/// A fresh [`List`] holding the symbols of `v`, in order.
fn list_of_symbols(v: &Vec<TurtleSymbol>) -> (l: List<TurtleSymbol>)
    ensures
        l.wf(),
        l@ == v@,
{
    let mut l: List<TurtleSymbol> = List::new();
    let n = v.len();
    let mut k: usize = 0;
    while k < n
        invariant
            l.wf(),
            n == v@.len(),
            0 <= k <= n,
            l@ == v@.take(k as int),
        decreases n - k,
    {
        l.push(v[k]);
        k = k + 1;
        proof {
            assert(l@ =~= v@.take(k as int));
        }
    }
    proof {
        assert(v@.take(n as int) =~= v@);
    }
    l
}

impl TurtleSyntax {
    /// One rule pass over the expanded sequence: every element whose symbol
    /// equals `symbol` is splice-replaced with a fresh copy of `value`.
    /// Elements spliced in are skipped, not examined again in this pass.
    pub fn apply_production(&mut self, symbol: &TurtleSymbol, value: &Vec<TurtleSymbol>)
        requires
            old(self).list.wf(),
        ensures
            final(self).list.wf(),
            final(self).list@ == apply_rule(old(self).list@, *symbol, value@),
            final(self).angle == old(self).angle,
            final(self).order == old(self).order,
            final(self).rotate == old(self).rotate,
    {
        let ghost orig = self.list@;
        let ghost lhs = *symbol;
        let ghost rhs = value@;
        let mut it = self.list.iter_mut();
        let ghost mut j: int = 0;
        proof {
            assert(apply_rule(orig.take(0), lhs, rhs) =~= Seq::<TurtleSymbol>::empty());
            assert(orig.skip(0) =~= orig);
            assert(self.list@ =~= apply_rule(orig.take(0), lhs, rhs) + orig.skip(0));
        }
        loop
            invariant
                self.list.wf(),
                orig == old(self).list@,
                lhs == *symbol,
                rhs == value@,
                0 <= j <= orig.len(),
                it.valid_for(&self.list),
                it.pos_in(&self.list) == apply_rule(orig.take(j), lhs, rhs).len(),
                self.list@ == apply_rule(orig.take(j), lhs, rhs) + orig.skip(j),
                self.angle == old(self).angle,
                self.order == old(self).order,
                self.rotate == old(self).rotate,
            ensures
                j == orig.len(),
                self.list.wf(),
                self.list@ == apply_rule(orig.take(j), lhs, rhs) + orig.skip(j),
                self.angle == old(self).angle,
                self.order == old(self).order,
                self.rotate == old(self).rotate,
            decreases orig.len() - j,
        {
            let ghost done = apply_rule(orig.take(j), lhs, rhs);
            let ghost p = it.pos_in(&self.list);
            match it.next(&self.list) {
                None => {
                    proof {
                        // The cursor is at the end, so no original suffix
                        // remains.
                        assert(self.list@.len() == done.len() + orig.skip(j).len());
                        assert(j == orig.len());
                    }
                    break ;
                }
                Some(h) => {
                    proof {
                        assert(orig.skip(j).len() > 0);
                        assert(j < orig.len());
                        assert(self.list@[p] == orig.skip(j)[0]);
                        assert(orig.skip(j)[0] == orig[j]);
                        self.list.lemma_handles_len();
                        self.list.lemma_handle_index(p);
                        assert(self.list.handles().index_of(h) == p);
                    }
                    let matched = {
                        let d = self.list.get(h);
                        *d == *symbol
                    };
                    proof {
                        lemma_apply_rule_snoc(orig, j, lhs, rhs);
                    }
                    if matched && value.len() > 0 {
                        let donor = list_of_symbols(value);
                        let ghost before = self.list;
                        self.list.replace_with_list(h, donor);
                        proof {
                            let k = rhs.len() as int;
                            assert(rhs.len() > 0);
                            assert(before.handles().index_of(h) == p);
                            assert(self.list@ == before@.take(p) + rhs + before@.skip(p + 1));
                            assert(before@.take(p) =~= done);
                            assert(before@.skip(p + 1) =~= orig.skip(j + 1));
                            assert(self.list@ =~= done + rhs + orig.skip(j + 1));
                            assert(apply_rule(orig.take(j + 1), lhs, rhs) == done + rhs);
                            assert(self.list@ =~= apply_rule(orig.take(j + 1), lhs, rhs)
                                + orig.skip(j + 1));
                            it.lemma_revalidate(&before, &self.list, p + 1, p + k);
                            j = j + 1;
                        }
                    } else {
                        proof {
                            assert(apply_rule(orig.take(j + 1), lhs, rhs) == done + seq![
                                orig[j]
                            ]);
                            assert(orig.skip(j) =~= seq![orig[j]] + orig.skip(j + 1));
                            assert(self.list@ =~= apply_rule(orig.take(j + 1), lhs, rhs)
                                + orig.skip(j + 1));
                            j = j + 1;
                        }
                    }
                }
            }
        }
        proof {
            assert(orig.take(orig.len() as int) =~= orig);
            assert(orig.skip(orig.len() as int) =~= Seq::<TurtleSymbol>::empty());
            assert(self.list@ =~= apply_rule(orig, lhs, rhs));
        }
    }
}

impl TurtleGraphConfig {
    /// The rules as a sequence of (left-hand symbol, replacement) pairs.
    pub open spec fn rules_view(&self) -> Seq<(TurtleSymbol, Seq<TurtleSymbol>)> {
        self.rules@.map(|i: int, r: Rule| (r.0, r.1@))
    }

    /// Builds the expanded drawing: the axiom is copied into a fresh
    /// sequence and the rule set is applied to it for `order` whole passes
    /// (none when `order` is unset); the numeric parameters are carried
    /// over with their defaults filled in.
    pub fn generate_syntax(&self) -> (syntax: TurtleSyntax)
        ensures
            syntax.list.wf(),
            syntax.list@ == expand(
                self.start@,
                self.rules_view(),
                (match self.order {
                    Some(o) => o,
                    None => 0,
                }) as nat,
            ),
            syntax.angle == (match self.angle {
                Some(a) => a,
                None => 0,
            }),
            syntax.order == (match self.order {
                Some(o) => o,
                None => 0,
            }),
            syntax.rotate == (match self.rotate {
                Some(r) => r,
                None => 0,
            }),
    {
        let angle = match self.angle {
            Some(a) => a,
            None => 0,
        };
        let order = match self.order {
            Some(o) => o,
            None => 0,
        };
        let rotate = match self.rotate {
            Some(r) => r,
            None => 0,
        };
        let mut syntax = TurtleSyntax { list: list_of_symbols(&self.start), angle, order, rotate };
        let ghost rules = self.rules_view();
        let mut pass: u8 = 0;
        while pass < order
            invariant
                syntax.list.wf(),
                0 <= pass <= order,
                rules == self.rules_view(),
                syntax.list@ == expand(self.start@, rules, pass as nat),
                syntax.angle == angle,
                syntax.order == order,
                syntax.rotate == rotate,
            decreases order - pass,
        {
            let ghost pass_start = syntax.list@;
            let n_rules = self.rules.len();
            let mut k: usize = 0;
            while k < n_rules
                invariant
                    syntax.list.wf(),
                    n_rules == self.rules@.len(),
                    rules == self.rules_view(),
                    rules.len() == n_rules,
                    0 <= k <= n_rules,
                    apply_rules_from(pass_start, rules, 0) == apply_rules_from(
                        syntax.list@,
                        rules,
                        k as int,
                    ),
                    syntax.angle == angle,
                    syntax.order == order,
                    syntax.rotate == rotate,
                decreases n_rules - k,
            {
                let rule = &self.rules[k];
                syntax.apply_production(&rule.0, &rule.1);
                proof {
                    assert(rules[k as int] == (self.rules@[k as int].0, self.rules@[k as int].1@));
                }
                k = k + 1;
            }
            pass = pass + 1;
        }
        syntax
    }
}

} // verus!
