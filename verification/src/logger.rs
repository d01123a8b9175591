//! Console reporting: one line per event, with an optional epoch-seconds
//! stamp, an indent, a symbol and the message.
//!
//! The line's text is computed and specified here; only the final write to
//! the standard streams and the clock reading are taken on trust.

use crate::semver::{push_char, spec_u64_digits, u64_to_string};
use vstd::prelude::*;
use vstd::string::*;

use std::io::Write;

verus! {

/// Two spaces per indent level.
pub open spec fn spec_indent(n: nat) -> Seq<char>
    decreases n,
{
    if n == 0 {
        Seq::<char>::empty()
    } else {
        seq![' ', ' '] + spec_indent((n - 1) as nat)
    }
}

/// A stamp as the log prints it: the seconds in brackets.
pub open spec fn spec_timestamp(n: u64) -> Seq<char> {
    seq!['['] + spec_u64_digits(n as nat) + seq![']']
}

/// A full log line: optional stamp and space, indent, symbol, space,
/// message.
pub open spec fn spec_log_line(
    ts: Option<u64>,
    indent: nat,
    symbol: Seq<char>,
    msg: Seq<char>,
) -> Seq<char> {
    (match ts {
        Some(t) => spec_timestamp(t) + seq![' '],
        None => Seq::<char>::empty(),
    }) + spec_indent(indent) + symbol + seq![' '] + msg
}

/// Relies on std's `SystemTime::now` and `duration_since`: seconds since
/// the epoch, zero if the clock stands before it.
#[verifier::external_body]
fn unix_now_secs() -> u64 {
    match std::time::SystemTime::now().duration_since(std::time::UNIX_EPOCH) {
        Ok(d) => d.as_secs(),
        Err(_) => 0,
    }
}

/// Relies on std's `writeln!` to standard output; the text is not
/// inspected.
#[verifier::external_body]
fn emit_out(line: &str) {
    let _ = writeln!(std::io::stdout(), "{}", line);
}

/// Relies on std's `writeln!` to standard error; the text is not
/// inspected.
#[verifier::external_body]
fn emit_err(line: &str) {
    let _ = writeln!(std::io::stderr(), "{}", line);
}

/// The bracketed stamp for given seconds, as `spec_timestamp` names it.
pub fn timestamp_for(secs: u64) -> (r: String)
    ensures
        r@ == spec_timestamp(secs),
{
    let mut out = String::new();
    push_char(&mut out, '[');
    let digits = u64_to_string(secs);
    out.append(digits.as_str());
    push_char(&mut out, ']');
    proof {
        assert(out@ =~= spec_timestamp(secs));
    }
    out
}

/// The bracketed stamp of the moment of the call.
pub fn timestamp() -> (r: String)
    ensures
        exists|n: u64| r@ == spec_timestamp(n),
{
    let now = unix_now_secs();
    let r = timestamp_for(now);
    proof {
        assert(r@ == spec_timestamp(now));
    }
    r
}

/// The text of one log line, as `spec_log_line` names it.
pub fn format_log_line(ts: Option<u64>, indent: usize, symbol: &str, msg: &str) -> (r: String)
    ensures
        r@ == spec_log_line(ts, indent as nat, symbol@, msg@),
{
    let mut out = String::new();
    match ts {
        Some(t) => {
            let stamp = timestamp_for(t);
            out.append(stamp.as_str());
            push_char(&mut out, ' ');
        },
        None => {},
    }
    let mut level: usize = 0;
    while level < indent
        invariant
            0 <= level <= indent,
            out@ == (match ts {
                Some(t) => spec_timestamp(t) + seq![' '],
                None => Seq::<char>::empty(),
            }) + spec_indent(level as nat),
        decreases indent - level,
    {
        push_char(&mut out, ' ');
        push_char(&mut out, ' ');
        proof {
            lemma_indent_snoc((level + 1) as nat);
            assert(out@ =~= (match ts {
                Some(t) => spec_timestamp(t) + seq![' '],
                None => Seq::<char>::empty(),
            }) + spec_indent((level + 1) as nat));
        }
        level = level + 1;
    }
    out.append(symbol);
    push_char(&mut out, ' ');
    out.append(msg);
    proof {
        assert(out@ =~= spec_log_line(ts, indent as nat, symbol@, msg@));
    }
    out
}

/// One more indent level appends two spaces.
proof fn lemma_indent_snoc(n: nat)
    ensures
        n > 0 ==> spec_indent(n) == spec_indent((n - 1) as nat) + seq![' ', ' '],
    decreases n,
{
    if n > 1 {
        lemma_indent_snoc((n - 1) as nat);
        assert(spec_indent(n) == seq![' ', ' '] + spec_indent((n - 1) as nat));
        assert(spec_indent(n) =~= spec_indent((n - 1) as nat) + seq![' ', ' ']);
    } else if n == 1 {
        assert(spec_indent(1nat) =~= spec_indent(0nat) + seq![' ', ' ']);
    }
}

fn log_line(symbol: &str, msg: &str, time: bool, stderr: bool, indent: usize) {
    let ts: Option<u64> = if time {
        Some(unix_now_secs())
    } else {
        None
    };
    let line = format_log_line(ts, indent, symbol, msg);
    if stderr {
        emit_err(line.as_str());
    } else {
        emit_out(line.as_str());
    }
}

/// An informational line.
pub fn info(msg: &str, time: bool) {
    log_line("i", msg, time, false, 0);
}

/// A success line.
pub fn success(msg: &str, time: bool) {
    log_line("+", msg, time, false, 0);
}

/// A warning line.
pub fn warn(msg: &str, time: bool) {
    log_line("!", msg, time, false, 0);
}

/// An error line, on standard error.
pub fn error(msg: &str, time: bool) {
    log_line("x", msg, time, true, 0);
}

/// An indented informational line.
pub fn sub_info(msg: &str, time: bool) {
    log_line("-", msg, time, false, 1);
}

/// An indented success line.
pub fn sub_success(msg: &str, time: bool) {
    log_line("-", msg, time, false, 1);
}

/// An indented warning line.
pub fn sub_warn(msg: &str, time: bool) {
    log_line("-", msg, time, false, 1);
}

/// An indented error line, on standard error.
pub fn sub_error(msg: &str, time: bool) {
    log_line("-", msg, time, true, 1);
}

/// An indented line on the stream of the caller's choice.
pub fn sub_log(msg: &str, time: bool, stderr: bool) {
    log_line("-", msg, time, stderr, 1);
}

/// A doubly indented line on the stream of the caller's choice.
pub fn sub_sub_log(msg: &str, time: bool, stderr: bool) {
    log_line("-", msg, time, stderr, 2);
}

/// A step line: `[n/total] message`.
pub fn step(step_num: usize, total_steps: usize, msg: &str, time: bool) {
    let mut sym = String::new();
    push_char(&mut sym, '[');
    let a = u64_to_string(step_num as u64);
    sym.append(a.as_str());
    push_char(&mut sym, '/');
    let b = u64_to_string(total_steps as u64);
    sym.append(b.as_str());
    push_char(&mut sym, ']');
    log_line(sym.as_str(), msg, time, false, 0);
}

/// An indented step line.
pub fn sub_step(msg: &str, time: bool) {
    log_line("|", msg, time, false, 1);
}

/// A titled horizontal rule.
pub fn separator(title: &str) {
    let mut line = String::from_str("--- ");
    line.append(title);
    line.append(" ---");
    emit_out(line.as_str());
}

} // verus!
