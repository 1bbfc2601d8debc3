//! The lines that say how far the estimators are.

use vstd::prelude::*;
use crate::readout;
use crate::text;

verus! {

/// Two numbers and a memory size, with words around them.
pub open spec fn line(
    before: Seq<char>,
    first: nat,
    between: Seq<char>,
    second: nat,
    after: Seq<char>,
    bytes: nat,
) -> Seq<char> {
    before + text::decimal(first) + between + text::decimal(second) + after + "  ["@
        + readout::memory_words(bytes) + "]"@
}

/// Writes two numbers and a memory size, with words around them.
fn write_line(
    before: &str,
    first: usize,
    between: &str,
    second: usize,
    after: &str,
    bytes: usize,
) -> (out: String)
    ensures
        out@ == line(before@, first as nat, between@, second as nat, after@, bytes as nat),
{
    let mut out: String = String::new();
    text::append_text(&mut out, before);
    text::append_decimal(&mut out, first as u64);
    text::append_text(&mut out, between);
    text::append_decimal(&mut out, second as u64);
    text::append_text(&mut out, after);
    append_memory(&mut out, bytes);
    assert(out@ =~= line(before@, first as nat, between@, second as nat, after@, bytes as nat));
    out
}

/// Appends a memory size in brackets.
fn append_memory(out: &mut String, bytes: usize)
    ensures
        final(out)@ == old(out)@ + ("  ["@ + readout::memory_words(bytes as nat) + "]"@),
{
    let ghost before = out@;
    text::append_text(out, "  [");
    let size: String = readout::fmt_memory(bytes);
    text::append_text(out, size.as_str());
    text::append_text(out, "]");
    assert(out@ =~= before + ("  ["@ + readout::memory_words(bytes as nat) + "]"@));
}

/// The result of sampling.
pub fn sampling_result(valid: usize, attempts: usize, bytes: usize) -> (out: String)
    ensures
        out@ == line(
            "MC: "@,
            valid as nat,
            " valid / "@,
            attempts as nat,
            " sampled"@,
            bytes as nat,
        ),
{
    write_line("MC: ", valid, " valid / ", attempts, " sampled", bytes)
}

/// The result of the exact search.
pub fn search_result(valid: usize, attempts: usize, bytes: usize) -> (out: String)
    ensures
        out@ == line(
            "CS: "@,
            valid as nat,
            " layouts / "@,
            attempts as nat,
            " steps"@,
            bytes as nat,
        ),
{
    write_line("CS: ", valid, " layouts / ", attempts, " steps", bytes)
}

/// How sampling stands while it runs.
pub open spec fn sampling_words(
    valid: nat,
    attempts: nat,
    max_attempts: nat,
    bytes: nat,
) -> Seq<char> {
    "MC: "@ + text::decimal(valid) + " valid  /  "@ + text::decimal(attempts) + " of "@
        + text::decimal(max_attempts) + " sampled"@ + ("  ["@ + readout::memory_words(bytes)
        + "]"@)
}

/// Writes how sampling stands while it runs.
pub fn sampling_progress(
    valid: usize,
    attempts: usize,
    max_attempts: usize,
    bytes: usize,
) -> (out: String)
    ensures
        out@ == sampling_words(
            valid as nat,
            attempts as nat,
            max_attempts as nat,
            bytes as nat,
        ),
{
    let mut out: String = String::new();
    text::append_text(&mut out, "MC: ");
    text::append_decimal(&mut out, valid as u64);
    text::append_text(&mut out, " valid  /  ");
    text::append_decimal(&mut out, attempts as u64);
    text::append_text(&mut out, " of ");
    text::append_decimal(&mut out, max_attempts as u64);
    text::append_text(&mut out, " sampled");
    append_memory(&mut out, bytes);
    out
}

/// How sampling ended.
pub fn sampling_done(valid: usize, attempts: usize, bytes: usize) -> (out: String)
    ensures
        out@ == line(
            "✓ MC: "@,
            valid as nat,
            " valid  /  "@,
            attempts as nat,
            " sampled"@,
            bytes as nat,
        ),
{
    write_line("✓ MC: ", valid, " valid  /  ", attempts, " sampled", bytes)
}

/// How the exact search stands while it runs.
pub open spec fn search_words(valid: nat, attempts: nat, bytes: nat) -> Seq<char> {
    if valid > 0 {
        line("CS: "@, valid, " layouts / "@, attempts, " steps"@, bytes)
    } else {
        "CS: searching…"@ + ("  ["@ + readout::memory_words(bytes) + "]"@)
    }
}

/// Writes how the exact search stands while it runs.
pub fn search_progress(valid: usize, attempts: usize, bytes: usize) -> (out: String)
    ensures
        out@ == search_words(valid as nat, attempts as nat, bytes as nat),
{
    if valid > 0 {
        return search_result(valid, attempts, bytes);
    }
    let mut out: String = String::new();
    text::append_text(&mut out, "CS: searching…");
    append_memory(&mut out, bytes);
    assert(out@ =~= search_words(valid as nat, attempts as nat, bytes as nat));
    out
}

/// How the exact search ended.
pub fn search_done(valid: usize, attempts: usize, bytes: usize) -> (out: String)
    ensures
        out@ == line(
            "✓ CS: "@,
            valid as nat,
            " layouts / "@,
            attempts as nat,
            " steps"@,
            bytes as nat,
        ),
{
    write_line("✓ CS: ", valid, " layouts / ", attempts, " steps", bytes)
}

/// How the neural network ended.
pub open spec fn network_words(cells: nat, bytes: nat) -> Seq<char> {
    "✓ NN: "@ + text::decimal(cells) + " cells"@ + ("  ["@ + readout::memory_words(bytes) + "]"@)
}

/// Writes how the neural network ended.
pub fn network_done(cells: usize, bytes: usize) -> (out: String)
    ensures
        out@ == network_words(cells as nat, bytes as nat),
{
    let mut out: String = String::new();
    text::append_text(&mut out, "✓ NN: ");
    text::append_decimal(&mut out, cells as u64);
    text::append_text(&mut out, " cells");
    append_memory(&mut out, bytes);
    assert(out@ =~= network_words(cells as nat, bytes as nat));
    out
}

} // verus!
