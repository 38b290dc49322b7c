//! Terminal colouring of messages, and the message lines of the command-line tool.
//! Whether colours are emitted depends on the terminal and the environment, so each
//! coloured text is either the plain text or the text wrapped in ANSI escapes.
use vstd::prelude::*;
use colored::{Color, Colorize};
use crate::text::{chars_of, decimal, decimal_chars, extend_chars, extend_str, string_of};

verus! {

/// The foreground colours the tool uses.
#[derive(Clone, Copy)]
pub enum Hue {
    Red,
    Green,
    Yellow,
    Blue,
    Magenta,
    Cyan,
    White,
    BrightGreen,
    BrightBlue,
    BrightCyan,
}

/// The SGR parameter of a foreground colour.
pub open spec fn fg_code(h: Hue) -> Seq<char> {
    match h {
        Hue::Red => seq!['3', '1'],
        Hue::Green => seq!['3', '2'],
        Hue::Yellow => seq!['3', '3'],
        Hue::Blue => seq!['3', '4'],
        Hue::Magenta => seq!['3', '5'],
        Hue::Cyan => seq!['3', '6'],
        Hue::White => seq!['3', '7'],
        Hue::BrightGreen => seq!['9', '2'],
        Hue::BrightBlue => seq!['9', '4'],
        Hue::BrightCyan => seq!['9', '6'],
    }
}

/// The escape sequence that resets all attributes: ESC "[0m".
pub open spec fn reset_seq() -> Seq<char> {
    seq!['\x1b', '[', '0', 'm']
}

/// The escape sequence that selects the given SGR parameters: ESC "[" params "m".
pub open spec fn open_seq(params: Seq<char>) -> Seq<char> {
    seq!['\x1b', '['] + params + seq!['m']
}

/// `t` with `open` inserted after every reset sequence in it (scanning left to right),
/// so that text already coloured inside keeps the outer style afterwards.
pub open spec fn escape_resets(t: Seq<char>, open: Seq<char>) -> Seq<char>
    decreases t.len(),
{
    if t.len() == 0 {
        t
    } else if t.len() >= 4 && t.take(4) == reset_seq() {
        reset_seq() + open + escape_resets(t.skip(4), open)
    } else {
        seq![t[0]] + escape_resets(t.drop_first(), open)
    }
}

/// `t` shown with the SGR parameters `params`, when colours are on.
pub open spec fn painted(t: Seq<char>, params: Seq<char>) -> Seq<char> {
    open_seq(params) + escape_resets(t, open_seq(params)) + reset_seq()
}

/// The possible displays of `t` with the SGR parameters `params`: the plain text when
/// colours are off, the painted text when they are on.
pub open spec fn shown(r: Seq<char>, t: Seq<char>, params: Seq<char>) -> bool {
    r == t || r == painted(t, params)
}

/// The SGR parameters of bold text in a colour: "1;" and the colour.
pub open spec fn bold_code(h: Hue) -> Seq<char> {
    seq!['1', ';'] + fg_code(h)
}

/// The SGR parameter of dimmed text: "2".
pub open spec fn dimmed_code() -> Seq<char> {
    seq!['2']
}

/// `Colorize::color` then `to_string` (the `Display` of `ColoredString`): the text in a
/// foreground colour. The contract claims the display is the plain text or the text
/// painted with that colour's code, as `ColoredString::fmt` writes it; which of the two
/// depends on the terminal and the environment and is left unsaid.
#[verifier::external_body]
pub(crate) fn paint(text: &str, h: Hue) -> (r: String)
    ensures
        shown(r@, text@, fg_code(h)),
{
    let c = match h {
        Hue::Red => Color::Red,
        Hue::Green => Color::Green,
        Hue::Yellow => Color::Yellow,
        Hue::Blue => Color::Blue,
        Hue::Magenta => Color::Magenta,
        Hue::Cyan => Color::Cyan,
        Hue::White => Color::White,
        Hue::BrightGreen => Color::BrightGreen,
        Hue::BrightBlue => Color::BrightBlue,
        Hue::BrightCyan => Color::BrightCyan,
    };
    text.color(c).to_string()
}

/// `Colorize::color`, `bold` then `to_string`: the text bold in a colour. The contract
/// is that of `paint`, with the parameters "1;" and the colour's code.
#[verifier::external_body]
pub(crate) fn paint_bold(text: &str, h: Hue) -> (r: String)
    ensures
        shown(r@, text@, bold_code(h)),
{
    let c = match h {
        Hue::Red => Color::Red,
        Hue::Green => Color::Green,
        Hue::Yellow => Color::Yellow,
        Hue::Blue => Color::Blue,
        Hue::Magenta => Color::Magenta,
        Hue::Cyan => Color::Cyan,
        Hue::White => Color::White,
        Hue::BrightGreen => Color::BrightGreen,
        Hue::BrightBlue => Color::BrightBlue,
        Hue::BrightCyan => Color::BrightCyan,
    };
    text.color(c).bold().to_string()
}

/// `Colorize::dimmed` then `to_string`: the text dimmed. The contract is that of
/// `paint`, with the parameter "2".
#[verifier::external_body]
pub(crate) fn paint_dimmed(text: &str) -> (r: String)
    ensures
        shown(r@, text@, dimmed_code()),
{
    text.dimmed().to_string()
}

/// The SGR parameter of bold text: "1".
pub open spec fn strong_code() -> Seq<char> {
    seq!['1']
}

/// `Colorize::bold` then `to_string`: the text bold, in no particular colour. The
/// contract is that of `paint`, with the parameter "1".
#[verifier::external_body]
pub(crate) fn paint_strong(text: &str) -> (r: String)
    ensures
        shown(r@, text@, strong_code()),
{
    text.bold().to_string()
}

/// Concatenation of two texts.
pub fn concat2(a: &str, b: &str) -> (r: String)
    ensures
        r@ == a@ + b@,
{
    let mut v = chars_of(a);
    extend_str(&mut v, b);
    string_of(v.as_slice())
}

/// The line of a message with a bold symbol and text in one colour: the symbol, a
/// space, the text.
pub open spec fn symbol_line(r: Seq<char>, symbol: Seq<char>, msg: Seq<char>, h: Hue) -> bool {
    exists|a: Seq<char>, b: Seq<char>|
        shown(a, symbol, bold_code(h)) && shown(b, msg, fg_code(h)) && r == a + seq![' '] + b
}

/// Builds a message line: the symbol bold in the colour, a space, the message in the
/// colour.
fn message_line(symbol: &str, msg: &str, h: Hue) -> (r: String)
    ensures
        symbol_line(r@, symbol@, msg@, h),
{
    let a = paint_bold(symbol, h);
    let b = paint(msg, h);
    let mut v = chars_of(a.as_str());
    v.push(' ');
    extend_str(&mut v, b.as_str());
    let r = string_of(v.as_slice());
    assert(r@ == a@ + seq![' '] + b@);
    r
}

/// The line that reports a success: a green "✓" and the message in green.
pub fn success(msg: &str) -> (r: String)
    ensures
        symbol_line(r@, "✓"@, msg@, Hue::Green),
{
    message_line("✓", msg, Hue::Green)
}

/// The line that reports an error: a red "✗" and the message in red.
pub fn error(msg: &str) -> (r: String)
    ensures
        symbol_line(r@, "✗"@, msg@, Hue::Red),
{
    message_line("✗", msg, Hue::Red)
}

/// The line that informs: a blue "i" and the message in blue.
pub fn info(msg: &str) -> (r: String)
    ensures
        symbol_line(r@, "i"@, msg@, Hue::Blue),
{
    message_line("i", msg, Hue::Blue)
}

/// The line that warns: a yellow "⚠" and the message in yellow.
pub fn warning(msg: &str) -> (r: String)
    ensures
        symbol_line(r@, "⚠"@, msg@, Hue::Yellow),
{
    message_line("⚠", msg, Hue::Yellow)
}

/// The line of a step: "[n/total] " and the message in cyan.
pub fn step(step_num: usize, total: usize, msg: &str) -> (r: String)
    ensures
        exists|b: Seq<char>|
            shown(b, msg@, fg_code(Hue::Cyan)) && r@ == seq!['['] + decimal(step_num as nat)
                + seq!['/'] + decimal(total as nat) + seq![']', ' '] + b,
{
    let b = paint(msg, Hue::Cyan);
    let mut v: Vec<char> = Vec::new();
    v.push('[');
    let n = decimal_chars(step_num as u64);
    extend_chars(&mut v, n.as_slice());
    v.push('/');
    let t = decimal_chars(total as u64);
    extend_chars(&mut v, t.as_slice());
    v.push(']');
    v.push(' ');
    extend_str(&mut v, b.as_str());
    let r = string_of(v.as_slice());
    assert(r@ =~= seq!['['] + decimal(step_num as nat) + seq!['/'] + decimal(total as nat) + seq![
        ']',
        ' ',
    ] + b@);
    r
}

/// A commit hash for display: bold bright green.
pub fn commit_hash(hash: &str) -> (r: String)
    ensures
        shown(r@, hash@, bold_code(Hue::BrightGreen)),
{
    paint_bold(hash, Hue::BrightGreen)
}

/// A branch name for display: bold cyan.
pub fn branch_name(name: &str) -> (r: String)
    ensures
        shown(r@, name@, bold_code(Hue::Cyan)),
{
    paint_bold(name, Hue::Cyan)
}

/// A file path for display: white.
pub fn file_path(path: &str) -> (r: String)
    ensures
        shown(r@, path@, fg_code(Hue::White)),
{
    paint(path, Hue::White)
}

} // verus!
