use turtle_graph::interp::Segment;
use turtle_graph::turtle::Colors;
use turtle_graph::turtle::TurtleGraphConfig;
use turtle_graph::turtle::TurtleSymbol;

#[allow(non_upper_case_globals)]
const helloworld: &str = "angle 8 ; means 360/8\norder 2\naxiom ++F\nF = F+F\n    ";

#[test]
fn basic_config() {
    let preamble = TurtleGraphConfig::from_str(helloworld);
    assert_eq!(preamble.angle, Some(8));
    assert_eq!(preamble.order, Some(2));
    assert_eq!(preamble.rotate, None);
    assert_eq!(
        preamble.start,
        vec![TurtleSymbol::Plus, TurtleSymbol::Plus, TurtleSymbol::F]
    );
    let syntax = preamble.generate_syntax();
    println!("{}", syntax.string());
}

#[test]
fn expansion_order_one() {
    let config = TurtleGraphConfig::from_str("order 1\naxiom F\nF = F+F\n");
    let syntax = config.generate_syntax();
    assert_eq!(syntax.list.len(), 3);
    assert_eq!(syntax.string(), "F+F");
}

#[test]
fn expansion_order_two() {
    // Each pass splices a fresh copy of the production over every `F` that
    // was already there; the interior `+` stays unexpanded, so order 2 gives
    // exactly seven symbols.
    let config = TurtleGraphConfig::from_str("order 2\naxiom F\nF = F+F\n");
    let syntax = config.generate_syntax();
    assert_eq!(syntax.list.len(), 7);
    assert_eq!(syntax.string(), "F+F+F+F");
}

#[test]
fn expansion_of_helloworld() {
    let config = TurtleGraphConfig::from_str(helloworld);
    let syntax = config.generate_syntax();
    assert_eq!(syntax.angle, 8);
    assert_eq!(syntax.order, 2);
    assert_eq!(syntax.rotate, 0);
    assert_eq!(syntax.string(), "++F+F+F+F");
}

#[test]
fn symbol_with_no_rule_is_kept() {
    let config = TurtleGraphConfig::from_str("order 3\naxiom GX\nF = FF\n");
    let syntax = config.generate_syntax();
    assert_eq!(syntax.string(), "GX");
}

#[test]
fn first_rule_definition_wins() {
    let config = TurtleGraphConfig::from_str("order 1\naxiom F\nF = FF\nF = GG\n");
    let syntax = config.generate_syntax();
    assert_eq!(syntax.string(), "FF");
}

#[test]
fn empty_production_leaves_symbol_unchanged() {
    let config = TurtleGraphConfig::from_str("order 1\naxiom F+F\nF =\n");
    let syntax = config.generate_syntax();
    assert_eq!(syntax.string(), "F+F");
}

#[test]
fn malformed_numbers_fall_back_to_unset() {
    let config = TurtleGraphConfig::from_str("angle 300\norder abc\nrotate 12x\n");
    assert_eq!(config.angle, None);
    assert_eq!(config.order, None);
    assert_eq!(config.rotate, None);
}

#[test]
fn numbers_with_signs_and_defaults() {
    let config = TurtleGraphConfig::from_str("angle +8\nrotate -45\norder 255\n");
    assert_eq!(config.angle, Some(8));
    assert_eq!(config.rotate, Some(-45));
    assert_eq!(config.order, Some(255));
    let syntax = config.generate_syntax();
    assert_eq!(syntax.rotate, -45);
}

#[test]
fn numeric_bounds() {
    let config = TurtleGraphConfig::from_str("angle 255\norder 256\n");
    assert_eq!(config.angle, Some(255));
    assert_eq!(config.order, None);
    let config = TurtleGraphConfig::from_str("rotate 2147483647\n");
    assert_eq!(config.rotate, Some(2147483647));
    let config = TurtleGraphConfig::from_str("rotate 2147483648\n");
    assert_eq!(config.rotate, None);
    let config = TurtleGraphConfig::from_str("rotate -2147483648\n");
    assert_eq!(config.rotate, Some(-2147483648));
    let config = TurtleGraphConfig::from_str("rotate -2147483649\n");
    assert_eq!(config.rotate, None);
    let config = TurtleGraphConfig::from_str("angle 00000000008\n");
    assert_eq!(config.angle, Some(8));
    let config = TurtleGraphConfig::from_str("angle\n");
    assert_eq!(config.angle, None);
}

#[test]
fn last_keyword_line_wins() {
    let config = TurtleGraphConfig::from_str("angle 4\nangle 6\n");
    assert_eq!(config.angle, Some(6));
    let config = TurtleGraphConfig::from_str("angle 4\nangle oops\n");
    assert_eq!(config.angle, None);
}

#[test]
fn comments_and_blank_lines_are_ignored() {
    let config = TurtleGraphConfig::from_str("; nothing here\n\n   \nangle 8 ; trailing\n");
    assert_eq!(config.angle, Some(8));
    assert_eq!(config.rules.len(), 0);
}

#[test]
fn unknown_characters_become_custom_symbols() {
    let config = TurtleGraphConfig::from_str("axiom F?]\n");
    assert_eq!(
        config.start,
        vec![
            TurtleSymbol::F,
            TurtleSymbol::CustomSymbol('?'),
            TurtleSymbol::PopStack
        ]
    );
}

fn render_of(text: &str) -> Vec<Segment> {
    TurtleGraphConfig::from_str(text).generate_syntax().render()
}

#[test]
fn single_forward_draws_one_unit_line() {
    // A single `F` with angle unset: one line-draw primitive from the
    // origin to (100, 0) — heading 0, step length 100.
    let segs = render_of("axiom F\n");
    assert_eq!(segs.len(), 1);
    let seg = segs[0];
    assert_eq!(seg.from, 0);
    assert_eq!(seg.to, 1);
    assert_eq!(seg.heading, 0);
    assert_eq!(seg.z, 100);
    assert_eq!(seg.color, Colors::Black);
    assert!(seg.pen);
    // Resolved to plane coordinates the segment runs from (0,0) to (100,0).
    let (x0, y0) = (0.0f64, 0.0f64);
    let angle = 0.0f64;
    let x1 = x0 + angle.cos() * seg.z as f64;
    let y1 = y0 + angle.sin() * seg.z as f64;
    assert_eq!((x0, y0), (0.0, 0.0));
    assert_eq!((x1, y1), (100.0, 0.0));
}

#[test]
fn move_emits_no_line_but_advances() {
    let segs = render_of("axiom GF\n");
    assert_eq!(segs.len(), 2);
    assert!(!segs[0].pen);
    assert!(segs[1].pen);
    assert_eq!(segs[0].from, 0);
    assert_eq!(segs[0].to, 1);
    assert_eq!(segs[1].from, 1);
    assert_eq!(segs[1].to, 2);
}

#[test]
fn turns_change_heading() {
    let segs = render_of("axiom +F--F\n");
    assert_eq!(segs.len(), 2);
    assert_eq!(segs[0].heading, 1);
    assert_eq!(segs[1].heading, -1);
}

#[test]
fn pop_on_empty_stack_is_a_no_op() {
    // An unmatched `]` is silently ignored: the drawing is the same as
    // without it, and nothing fails.
    let with_pop = render_of("axiom ]F\n");
    let without = render_of("axiom F\n");
    assert_eq!(with_pop, without);
}

#[test]
fn push_and_pop_restore_state() {
    let segs = render_of("axiom F[+F]F\n");
    assert_eq!(segs.len(), 3);
    assert_eq!((segs[0].from, segs[0].to, segs[0].heading), (0, 1, 0));
    assert_eq!((segs[1].from, segs[1].to, segs[1].heading), (1, 2, 1));
    // After `]` the turtle is back at position 1 with heading 0.
    assert_eq!((segs[2].from, segs[2].to, segs[2].heading), (1, 3, 0));
}

#[test]
fn unmatched_push_is_not_an_error() {
    let segs = render_of("axiom [F\n");
    assert_eq!(segs.len(), 1);
}

#[test]
fn color_lookahead_sets_palette_entry() {
    // `C` followed by `3` sets the pen to palette entry 3 and consumes both
    // symbols; the `F` after the digit is the next symbol interpreted.
    let segs = render_of("axiom FC3F\n");
    assert_eq!(segs.len(), 2);
    assert_eq!(segs[0].color, Colors::Black);
    assert_eq!(segs[1].color, Colors::Green);
}

#[test]
fn color_lookahead_consumes_non_digit() {
    let segs = render_of("axiom FCFF\n");
    assert_eq!(segs.len(), 2);
    assert_eq!(segs[0].color, Colors::Black);
    assert_eq!(segs[1].color, Colors::Black);
}

#[test]
fn color_lookahead_ignores_digit_out_of_range() {
    let segs = render_of("axiom FC9F\n");
    assert_eq!(segs.len(), 2);
    assert_eq!(segs[1].color, Colors::Black);
}

#[test]
fn color_at_end_of_sequence() {
    let segs = render_of("axiom FC\n");
    assert_eq!(segs.len(), 1);
}

#[test]
fn whole_palette() {
    let expected = [
        Colors::Black,
        Colors::Red,
        Colors::DarkBlue,
        Colors::Green,
        Colors::Brown,
        Colors::DarkGreen,
        Colors::White,
    ];
    let segs = render_of("axiom C0FC1FC2FC3FC4FC5FC6F\n");
    assert_eq!(segs.len(), 7);
    for (seg, want) in segs.iter().zip(expected.iter()) {
        assert_eq!(seg.color, *want);
    }
}

#[test]
fn custom_symbol_has_no_effect() {
    let segs = render_of("axiom XFY\n");
    assert_eq!(segs.len(), 1);
}

#[test]
fn serialization_concatenates_symbol_characters() {
    let config = TurtleGraphConfig::from_str("axiom ++F[G]x\n");
    let syntax = config.generate_syntax();
    assert_eq!(syntax.string(), "++F[G]x");
}

#[test]
fn color_commands_have_fixed_rgb_triples() {
    assert_eq!(Colors::Red.setrgbcolor(), "1 0 0 setrgbcolor");
    assert_eq!(Colors::Brown.setrgbcolor(), "0.7 0.3 0 setrgbcolor");
    assert_eq!(Colors::DarkGreen.setrgbcolor(), "0.0 0.5 0.0 setrgbcolor");
}

#[test]
fn symbol_character_round_trip() {
    for c in ['F', 'G', '+', '-', '[', ']', 'q'] {
        assert_eq!(TurtleSymbol::from(c).to_char(), c);
    }
}
