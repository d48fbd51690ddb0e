//! ANSI styling of render output.
//!
//! When colorized output is enabled, every structural or content token is
//! wrapped in a fixed bold ANSI style chosen per token class: content in
//! yellow, group markers in green, alternation pipes in red, quantifiers
//! and occurrence braces in magenta, character-class punctuation and
//! numbers in cyan.  Color codes are inserted around a token, never
//! substituted into it.

use vstd::prelude::*;
use crate::unicode::{dec_rep, append_decimal, push_char};

verus! {

/// A bold ANSI foreground style.
#[derive(Clone, Copy, Debug, PartialEq, Eq, Structural)]
pub enum ColorStyle {
    Red,
    Green,
    Yellow,
    Magenta,
    Cyan,
}

/// The final digit of the ANSI foreground color code of `style`.
pub open spec fn style_code(style: ColorStyle) -> char {
    match style {
        ColorStyle::Red => '1',
        ColorStyle::Green => '2',
        ColorStyle::Yellow => '3',
        ColorStyle::Magenta => '5',
        ColorStyle::Cyan => '6',
    }
}

/// The ANSI escape sequence that switches `style` on, in bold.
pub open spec fn style_prefix(style: ColorStyle) -> Seq<char> {
    seq!['\u{1b}', '[', '1', ';', '3', style_code(style), 'm']
}

/// The ANSI escape sequence that resets all styling.
pub open spec fn ansi_reset() -> Seq<char> {
    seq!['\u{1b}', '[', '0', 'm']
}

/// `text` wrapped in `style` when `colorize` is on, `text` itself otherwise.
pub open spec fn colorized(text: Seq<char>, style: ColorStyle, colorize: bool) -> Seq<char> {
    if colorize {
        style_prefix(style) + text + ansi_reset()
    } else {
        text
    }
}

/// Appends the escape sequence switching `style` on.
pub fn append_style_prefix(out: &mut String, style: ColorStyle)
    ensures
        final(out)@ == old(out)@ + style_prefix(style),
{
    push_char(out, '\u{1b}');
    push_char(out, '[');
    push_char(out, '1');
    push_char(out, ';');
    push_char(out, '3');
    match style {
        ColorStyle::Red => push_char(out, '1'),
        ColorStyle::Green => push_char(out, '2'),
        ColorStyle::Yellow => push_char(out, '3'),
        ColorStyle::Magenta => push_char(out, '5'),
        ColorStyle::Cyan => push_char(out, '6'),
    }
    push_char(out, 'm');
    assert(out@ =~= old(out)@ + style_prefix(style));
}

/// Appends the escape sequence that resets all styling.
pub fn append_reset(out: &mut String)
    ensures
        final(out)@ == old(out)@ + ansi_reset(),
{
    push_char(out, '\u{1b}');
    push_char(out, '[');
    push_char(out, '0');
    push_char(out, 'm');
    assert(out@ =~= old(out)@ + ansi_reset());
}

/// The characters that open a group: `(` when capturing groups are enabled,
/// `(?:` otherwise.
pub open spec fn group_open_chars(capturing: bool) -> Seq<char> {
    if capturing {
        seq!['(']
    } else {
        seq!['(', '?', ':']
    }
}

/// Appends `text`, wrapped in `style` when `colorize` is on.
pub fn append_colorized_str(out: &mut String, text: &str, style: ColorStyle, colorize: bool)
    ensures
        final(out)@ == old(out)@ + colorized(text@, style, colorize),
{
    if colorize {
        append_style_prefix(out, style);
        out.append(text);
        append_reset(out);
        assert(out@ =~= old(out)@ + colorized(text@, style, colorize));
    } else {
        out.append(text);
    }
}

/// Appends the decimal representation of `n`, wrapped in `style` when
/// `colorize` is on.
pub fn append_colorized_decimal(out: &mut String, n: u32, style: ColorStyle, colorize: bool)
    ensures
        final(out)@ == old(out)@ + colorized(dec_rep(n as int), style, colorize),
{
    if colorize {
        append_style_prefix(out, style);
        append_decimal(out, n);
        append_reset(out);
        assert(out@ =~= old(out)@ + colorized(dec_rep(n as int), style, colorize));
    } else {
        append_decimal(out, n);
    }
}

/// Appends a group opener, wrapped in green when `colorize` is on.
pub fn append_group_open(out: &mut String, capturing: bool, colorize: bool)
    ensures
        final(out)@ == old(out)@ + colorized(group_open_chars(capturing), ColorStyle::Green, colorize),
{
    if colorize {
        append_style_prefix(out, ColorStyle::Green);
    }
    push_char(out, '(');
    if !capturing {
        push_char(out, '?');
        push_char(out, ':');
    }
    if colorize {
        append_reset(out);
    }
    assert(out@ =~= old(out)@ + colorized(group_open_chars(capturing), ColorStyle::Green, colorize));
}

/// Appends a group closer, wrapped in green when `colorize` is on.
pub fn append_group_close(out: &mut String, colorize: bool)
    ensures
        final(out)@ == old(out)@ + colorized(seq![')'], ColorStyle::Green, colorize),
{
    append_colorized_char(out, ')', ColorStyle::Green, colorize);
}

/// Appends the single character `c`, wrapped in `style` when `colorize` is
/// on.
pub fn append_colorized_char(out: &mut String, c: char, style: ColorStyle, colorize: bool)
    ensures
        final(out)@ == old(out)@ + colorized(seq![c], style, colorize),
{
    if colorize {
        append_style_prefix(out, style);
        push_char(out, c);
        append_reset(out);
        assert(out@ =~= old(out)@ + colorized(seq![c], style, colorize));
    } else {
        push_char(out, c);
        assert(out@ =~= old(out)@ + colorized(seq![c], style, colorize));
    }
}

} // verus!
