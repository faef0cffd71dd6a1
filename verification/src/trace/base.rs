//! Labelled log lines: a coloured label, a space, then the message.

use vstd::prelude::*;

use crate::config;
use crate::text::decimal;

verus! {

/// `msg` between the ANSI escape that selects the 256-colour palette entry
/// `code` as foreground and the escape that resets all styles.
pub open spec fn ansi_fixed(code: u8, msg: Seq<char>) -> Seq<char> {
    seq!['\x1B', '[', '3', '8', ';', '5', ';'] + decimal(code as nat) + seq!['m'] + msg + seq![
        '\x1B',
        '[',
        '0',
        'm',
    ]
}

/// Calls `nu_ansi_term::Color::Fixed(code).paint(msg)` and renders it with
/// `to_string`. In nu-ansi-term's source (without the `gnu_legacy` feature)
/// a fixed foreground colour writes the prefix `ESC[38;5;{code}m`, then the
/// text, then the reset `ESC[0m`; the contract states exactly that.
#[verifier::external_body]
fn paint_fixed(code: u8, msg: &str) -> (s: String)
    ensures
        s@ == ansi_fixed(code, msg@),
{
    nu_ansi_term::Color::Fixed(code).paint(msg).to_string()
}

/// `msg`, painted with colour `code` when `config::DEBUG` is set.
pub open spec fn painted_on_debug(msg: Seq<char>, code: u8) -> Seq<char> {
    if config::DEBUG {
        ansi_fixed(code, msg)
    } else {
        msg
    }
}

fn paint_on_debug(msg: &str, code: u8) -> (s: String)
    ensures
        s@ == painted_on_debug(msg@, code),
{
    if config::DEBUG {
        paint_fixed(code, msg)
    } else {
        String::from_str(msg)
    }
}

/// A log line: the label painted with `code`, a space, then the message.
pub open spec fn labelled(label: Seq<char>, code: u8, msg: Seq<char>) -> Seq<char> {
    painted_on_debug(label, code) + seq![' '] + msg
}

fn label_line(label: &str, code: u8, msg: &str) -> (s: String)
    ensures
        s@ == labelled(label@, code, msg@),
{
    let mut s = paint_on_debug(label, code);
    s.append(" ");
    proof {
        reveal_strlit(" ");
    }
    s.append(msg);
    s
}

/// The label of success lines.
pub open spec fn ok_label() -> Seq<char> {
    "[  O K  ]"@
}

/// The label of error lines.
pub open spec fn error_label() -> Seq<char> {
    "[  ERR  ]"@
}

/// The label of information lines.
pub open spec fn info_label() -> Seq<char> {
    "[  INF  ]"@
}

/// The label of debug lines.
pub open spec fn debug_label() -> Seq<char> {
    "[  DBG  ]"@
}

/// The label of warning lines.
pub open spec fn warn_label() -> Seq<char> {
    "[  WRN  ]"@
}

/// A success line: `[  O K  ]` in colour 70, a space, then `msg`.
pub fn ok(msg: &str) -> (s: String)
    ensures
        s@ == labelled(ok_label(), 70, msg@),
{
    label_line("[  O K  ]", 70, msg)
}

/// An error line: `[  ERR  ]` in colour 160, a space, then `msg`.
pub fn error(msg: &str) -> (s: String)
    ensures
        s@ == labelled(error_label(), 160, msg@),
{
    label_line("[  ERR  ]", 160, msg)
}

/// An information line: `[  INF  ]` in colour 39, a space, then `msg`.
pub fn info(msg: &str) -> (s: String)
    ensures
        s@ == labelled(info_label(), 39, msg@),
{
    label_line("[  INF  ]", 39, msg)
}

/// A debug line: `[  DBG  ]` in colour 190, a space, then `msg`.
pub fn debug(msg: &str) -> (s: String)
    ensures
        s@ == labelled(debug_label(), 190, msg@),
{
    label_line("[  DBG  ]", 190, msg)
}

/// A warning line: `[  WRN  ]` in colour 199, a space, then `msg`.
pub fn warn(msg: &str) -> (s: String)
    ensures
        s@ == labelled(warn_label(), 199, msg@),
{
    label_line("[  WRN  ]", 199, msg)
}

} // verus!
