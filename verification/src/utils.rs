//! Console interaction helpers.

use vstd::prelude::*;
use std::io::Read;
use std::io::Write;

verus! {

/// Relies on std::io::Write::flush on stdout, after printing a prompt with
/// write!: shows "press enter key to continue...".
#[verifier::external_body]
fn show_continue_prompt() {
    let mut out = std::io::stdout();
    let _ = write!(out, "press enter key to continue...");
    let _ = out.flush();
}

/// Relies on std::io::Read::read on stdin: blocks until a byte arrives or
/// input is closed, and discards what was read.
#[verifier::external_body]
fn read_one_byte() {
    let mut buf = [0u8; 1];
    let _ = std::io::stdin().read(&mut buf);
}

/// Prints a prompt and waits for the user to press a key.
pub fn pause() {
    show_continue_prompt();
    read_one_byte();
}

} // verus!
