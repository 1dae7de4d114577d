//! The turtle interpreter: walks an expanded symbol sequence once and emits
//! drawing segments while tracking cursor position, heading, pen color and a
//! stack of saved states.
//!
//! Positions are identified by handles (allocation order of the positions
//! the turtle visits), not coordinates: every segment starts at the position
//! the turtle stands at and ends at a fresh position, one step of length
//! `z` along the current heading.  The heading is the net number of turn
//! steps, each one a full circle over the grammar's angle divisor.  A
//! renderer resolves handles and headings to plane coordinates; everything
//! the interpreter itself decides — which symbols draw, move, turn, save or
//! restore state, and how the color look-ahead consumes its following
//! symbol — is settled here.

use crate::list::List;
use crate::turtle::Colors;
use crate::turtle::TurtleSymbol;
use crate::turtle::TurtleSyntax;
use crate::turtle::char_of_symbol;
use crate::turtle::color_of_digit;
use vstd::prelude::*;
use vstd::string::StringExecFns;

verus! {

/// One emitted drawing step.  `pen` tells a line-draw primitive from a bare
/// reposition; either way the turtle advances from the position with handle
/// `from` to the fresh position with handle `to`, one step of length `z`
/// along `heading` (in turn steps).
#[derive(Debug, PartialEq, Eq, Structural, Clone, Copy)]
pub struct Segment {
    /// Handle of the position the step starts at; handle `0` is the origin.
    pub from: usize,
    /// Fresh handle of the position the step ends at.
    pub to: usize,
    /// Net turn steps at the time the step was emitted.
    pub heading: i128,
    /// Step length in drawing units.
    pub z: u32,
    /// Pen color of the step.
    pub color: Colors,
    /// Whether the step draws a line or only moves.
    pub pen: bool,
}

/// A saved turtle state, as the specification sees it.
pub struct SavedState {
    /// Handle of the position the turtle stood at.
    pub point: int,
    /// Step length.
    pub z: int,
    /// Net turn steps.
    pub heading: int,
    /// Pen color.
    pub color: Colors,
}

/// The interpreter's state, as the specification sees it.
pub struct InterpState {
    /// Handle of the position the turtle stands at.
    pub point: int,
    /// The next fresh position handle.
    pub next_point: int,
    /// Net turn steps.
    pub heading: int,
    /// Step length.
    pub z: int,
    /// Pen color.
    pub color: Colors,
    /// The saved states, oldest first.
    pub stack: Seq<SavedState>,
}

/// A segment as the specification sees it.
pub struct SegmentModel {
    /// Handle of the position the step starts at.
    pub from: int,
    /// Handle of the position the step ends at.
    pub to: int,
    /// Net turn steps.
    pub heading: int,
    /// Step length.
    pub z: int,
    /// Pen color.
    pub color: Colors,
    /// Whether the step draws a line.
    pub pen: bool,
}

impl View for Segment {
    type V = SegmentModel;

    open spec fn view(&self) -> SegmentModel {
        SegmentModel {
            from: self.from as int,
            to: self.to as int,
            heading: self.heading as int,
            z: self.z as int,
            color: self.color,
            pen: self.pen,
        }
    }
}

/// The segments of a vector, as the specification sees them.
pub open spec fn seg_views(s: Seq<Segment>) -> Seq<SegmentModel> {
    s.map(|i: int, g: Segment| g@)
}

/// The state the interpreter starts from: at the origin, heading zero, step
/// length one hundred drawing units, pen black, no saved states.
pub open spec fn init_state() -> InterpState {
    InterpState {
        point: 0,
        next_point: 1,
        heading: 0,
        z: 100,
        color: Colors::Black,
        stack: Seq::empty(),
    }
}

/// The drawing step emitted from a state.
pub open spec fn seg_of(st: InterpState, pen: bool) -> SegmentModel {
    SegmentModel {
        from: st.point,
        to: st.next_point,
        heading: st.heading,
        z: st.z,
        color: st.color,
        pen,
    }
}

/// The state after advancing one step: the fresh position becomes current.
pub open spec fn advance(st: InterpState) -> InterpState {
    InterpState { point: st.next_point, next_point: st.next_point + 1, ..st }
}

/// The state after turning by `d` turn steps.
pub open spec fn turn(st: InterpState, d: int) -> InterpState {
    InterpState { heading: st.heading + d, ..st }
}

/// The state with the current position, step length, heading and color
/// saved on the stack.
pub open spec fn push_state(st: InterpState) -> InterpState {
    InterpState {
        stack: st.stack.push(
            SavedState { point: st.point, z: st.z, heading: st.heading, color: st.color },
        ),
        ..st
    }
}

/// The state after a pop: the most recently saved state is restored, or
/// nothing happens when the stack is empty.
pub open spec fn pop_state(st: InterpState) -> InterpState {
    if st.stack.len() == 0 {
        st
    } else {
        let s = st.stack.last();
        InterpState {
            point: s.point,
            z: s.z,
            heading: s.heading,
            color: s.color,
            stack: st.stack.drop_last(),
            ..st
        }
    }
}

/// The state with another pen color.
pub open spec fn with_color(st: InterpState, c: Colors) -> InterpState {
    InterpState { color: c, ..st }
}

/// The whole interpretation: the segments emitted for a symbol sequence
/// starting from a state, and the state it ends in.  A custom `C` consumes
/// the one symbol after it: a custom digit `0` to `6` there sets the pen
/// color, anything else is ignored — but consumed either way.
pub open spec fn run(syms: Seq<TurtleSymbol>, st: InterpState) -> (Seq<SegmentModel>, InterpState)
    decreases syms.len(),
{
    if syms.len() == 0 {
        (Seq::empty(), st)
    } else {
        let rest = syms.drop_first();
        match syms[0] {
            TurtleSymbol::F => {
                let r = run(rest, advance(st));
                (seq![seg_of(st, true)] + r.0, r.1)
            },
            TurtleSymbol::G => {
                let r = run(rest, advance(st));
                (seq![seg_of(st, false)] + r.0, r.1)
            },
            TurtleSymbol::Plus => run(rest, turn(st, 1)),
            TurtleSymbol::Minus => run(rest, turn(st, -1)),
            TurtleSymbol::PushStack => run(rest, push_state(st)),
            TurtleSymbol::PopStack => run(rest, pop_state(st)),
            TurtleSymbol::CustomSymbol(c) => {
                if c == 'C' {
                    if rest.len() == 0 {
                        (Seq::empty(), st)
                    } else {
                        let st2 = match rest[0] {
                            TurtleSymbol::CustomSymbol(d) => match color_of_digit(d) {
                                Some(col) => with_color(st, col),
                                None => st,
                            },
                            _ => st,
                        };
                        run(rest.drop_first(), st2)
                    }
                } else {
                    run(rest, st)
                }
            },
        }
    }
}

/// The textual serialization of a symbol sequence: each symbol's
/// single-character form, in sequence order.
pub open spec fn string_of(s: Seq<TurtleSymbol>) -> Seq<char> {
    s.map(|i: int, sym: TurtleSymbol| char_of_symbol(sym))
}

/// A saved turtle state: the position handle the turtle stood at, the step
/// length, the heading and the pen color at the time of the save.
struct TurtleSyntaxState {
    point: usize,
    z: u32,
    heading: i128,
    color: Colors,
}

impl View for TurtleSyntaxState {
    type V = SavedState;

    closed spec fn view(&self) -> SavedState {
        SavedState {
            point: self.point as int,
            z: self.z as int,
            heading: self.heading as int,
            color: self.color,
        }
    }
}

/// The saved states of the exec stack, as the specification sees them.
spec fn stack_views(s: Seq<TurtleSyntaxState>) -> Seq<SavedState> {
    s.map(|i: int, t: TurtleSyntaxState| t@)
}

/// Relies on `String::push`: appends the one character to the string.
#[verifier::external_body]
fn push_char(s: &mut String, c: char)
    ensures
        final(s)@ == old(s)@.push(c),
{
    s.push(c)
}

/// The palette entry a digit selects, if any.
fn color_for_digit(c: char) -> (r: Option<Colors>)
    ensures
        r == color_of_digit(c),
{
    match c {
        '0' => Some(Colors::Black),
        '1' => Some(Colors::Red),
        '2' => Some(Colors::DarkBlue),
        '3' => Some(Colors::Green),
        '4' => Some(Colors::Brown),
        '5' => Some(Colors::DarkGreen),
        '6' => Some(Colors::White),
        _ => None,
    }
}

impl TurtleSyntax {
    /// Walks the expanded sequence once and emits its drawing segments, the
    /// interpretation of the sequence from the initial state.  The sequence
    /// must leave room for one position handle more than there are symbols.
    pub fn render(&self) -> (out: Vec<Segment>)
        requires
            self.list.wf(),
            self.list@.len() < usize::MAX,
        ensures
            seg_views(out@) == run(self.list@, init_state()).0,
    {
        let ghost full = self.list@;
        let mut out: Vec<Segment> = Vec::new();
        let mut point: usize = 0;
        let mut heading: i128 = 0;
        let z: u32 = 100;
        let mut color = Colors::Black;
        let mut stack: List<TurtleSyntaxState> = List::new();
        let ghost mut st = init_state();
        let mut it = self.list.iter();
        proof {
            assert(full.skip(0) =~= full);
            assert(seg_views(out@) =~= Seq::<SegmentModel>::empty());
        }
        loop
            invariant
                full == self.list@,
                full.len() < usize::MAX,
                it.valid(),
                it.list() == self.list,
                0 <= it.pos() <= full.len(),
                stack.wf(),
                run(full, init_state()).0 == seg_views(out@) + run(full.skip(it.pos()), st).0,
                run(full, init_state()).1 == run(full.skip(it.pos()), st).1,
                st.point == point,
                st.next_point == out@.len() + 1,
                st.heading == heading,
                z == 100,
                st.z == z,
                st.color == color,
                st.stack == stack_views(stack@),
                out@.len() <= it.pos(),
                -(it.pos()) <= st.heading <= it.pos(),
                forall|k: int|
                    0 <= k < st.stack.len() ==> -(it.pos()) <= (#[trigger] st.stack[k]).heading
                        <= it.pos() && st.stack[k].z == 100,
            ensures
                it.pos() == full.len(),
                seg_views(out@) == run(full, init_state()).0,
            decreases full.len() - it.pos(),
        {
            let ghost p = it.pos();
            let ghost rem = full.skip(p);
            let sym = match it.next() {
                None => {
                    proof {
                        assert(rem =~= Seq::<TurtleSymbol>::empty());
                    }
                    break ;
                },
                Some(sym) => sym,
            };
            proof {
                assert(rem.len() > 0);
                assert(rem[0] == full[p]);
                assert(*sym == full[p]);
                assert(rem.drop_first() =~= full.skip(p + 1));
            }
            match sym {
                TurtleSymbol::F | TurtleSymbol::G => {
                    let pen = match sym {
                        TurtleSymbol::F => true,
                        _ => false,
                    };
                    let to = out.len() + 1;
                    let seg = Segment { from: point, to, heading, z, color, pen };
                    proof {
                        assert(seg@ == seg_of(st, pen));
                    }
                    out.push(seg);
                    point = to;
                    proof {
                        st = advance(st);
                        assert(seg_views(out@) =~= seg_views(out@.drop_last()) + seq![seg@]);
                        assert(seg_views(out@.drop_last()) + seq![seg@] + run(
                            full.skip(p + 1),
                            st,
                        ).0 =~= seg_views(out@.drop_last()) + (seq![seg@] + run(
                            full.skip(p + 1),
                            st,
                        ).0));
                    }
                }
                TurtleSymbol::Plus => {
                    heading = heading + 1;
                    proof {
                        st = turn(st, 1);
                    }
                }
                TurtleSymbol::Minus => {
                    heading = heading - 1;
                    proof {
                        st = turn(st, -1);
                    }
                }
                TurtleSymbol::PushStack => {
                    stack.push(TurtleSyntaxState { point, z, heading, color });
                    proof {
                        st = push_state(st);
                        assert(st.stack =~= stack_views(stack@));
                    }
                }
                TurtleSymbol::PopStack => {
                    match stack.pop_tail() {
                        Some(saved) => {
                            point = saved.point;
                            heading = saved.heading;
                            color = saved.color;
                            proof {
                                st = pop_state(st);
                                assert(st.stack =~= stack_views(stack@));
                            }
                        }
                        None => {
                            proof {
                                st = pop_state(st);
                            }
                        }
                    }
                }
                TurtleSymbol::CustomSymbol(c) => {
                    if *c == 'C' {
                        let ghost rem2 = full.skip(p + 1);
                        match it.next() {
                            None => {
                                proof {
                                    assert(rem2 =~= Seq::<TurtleSymbol>::empty());
                                }
                            }
                            Some(la) => {
                                proof {
                                    assert(rem2.len() > 0);
                                    assert(*la == full[p + 1]);
                                    assert(rem2[0] == full[p + 1]);
                                    assert(rem2.drop_first() =~= full.skip(p + 2));
                                }
                                match la {
                                    TurtleSymbol::CustomSymbol(d) => {
                                        match color_for_digit(*d) {
                                            Some(col) => {
                                                color = col;
                                                proof {
                                                    st = with_color(st, col);
                                                }
                                            }
                                            None => {}
                                        }
                                    }
                                    _ => {}
                                }
                            }
                        }
                    }
                }
            }
        }
        out
    }

    /// The pure textual serialization of the expanded sequence: each
    /// symbol's single-character form concatenated in sequence order.
    pub fn string(&self) -> (r: String)
        requires
            self.list.wf(),
        ensures
            r@ == string_of(self.list@),
    {
        let ghost full = self.list@;
        let mut r = String::from_str("");
        proof {
            reveal_strlit("");
            assert(r@ =~= string_of(full.take(0)));
        }
        let mut it = self.list.iter();
        loop
            invariant
                full == self.list@,
                it.valid(),
                it.list() == self.list,
                0 <= it.pos() <= full.len(),
                r@ == string_of(full.take(it.pos())),
            ensures
                r@ == string_of(full),
            decreases full.len() - it.pos(),
        {
            let ghost p = it.pos();
            match it.next() {
                None => {
                    proof {
                        assert(full.take(p) =~= full);
                    }
                    break ;
                }
                Some(sym) => {
                    push_char(&mut r, sym.to_char());
                    proof {
                        assert(r@ =~= string_of(full.take(p + 1)));
                    }
                }
            }
        }
        r
    }
}

/// Law: a pop of the state stack when the stack is empty is a no-op and no
/// error arises: the remaining symbols are interpreted from the unchanged
/// state.
pub proof fn lemma_pop_state_empty_noop(syms: Seq<TurtleSymbol>, st: InterpState)
    requires
        st.stack.len() == 0,
    ensures
        run(seq![TurtleSymbol::PopStack] + syms, st) == run(syms, st),
{
    let s = seq![TurtleSymbol::PopStack] + syms;
    assert(s[0] == TurtleSymbol::PopStack);
    assert(s.drop_first() =~= syms);
    assert(pop_state(st) == st);
}

/// Law: a custom `C` immediately followed by a custom digit sets the pen
/// color to that digit's palette entry and consumes both symbols: the rest
/// is interpreted, from the recolored state, starting at the symbol after
/// the digit.
pub proof fn lemma_color_lookahead(
    syms: Seq<TurtleSymbol>,
    st: InterpState,
    d: char,
    col: Colors,
)
    requires
        color_of_digit(d) == Some(col),
    ensures
        run(seq![TurtleSymbol::CustomSymbol('C'), TurtleSymbol::CustomSymbol(d)] + syms, st)
            == run(syms, with_color(st, col)),
{
    let s = seq![TurtleSymbol::CustomSymbol('C'), TurtleSymbol::CustomSymbol(d)] + syms;
    assert(s.len() == syms.len() + 2);
    assert(s[0] == TurtleSymbol::CustomSymbol('C'));
    assert(s[1] == TurtleSymbol::CustomSymbol(d));
    let rest = s.drop_first();
    assert(rest[0] == TurtleSymbol::CustomSymbol(d));
    assert(rest.drop_first() =~= syms);
}

} // verus!
