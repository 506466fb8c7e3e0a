//! Checks made at startup, before any socket is opened.

use vstd::prelude::*;
use vstd::string::*;

verus! {

/// An ASCII whitespace character.
pub open spec fn is_space(c: char) -> bool {
    c == ' ' || c == '\t' || c == '\n' || c == '\r' || c == '\u{b}' || c == '\u{c}'
}

/// Whether the host is empty after trimming ASCII whitespace: such a
/// host is rejected as a configuration fault before serving starts.
#[verifier::loop_isolation(false)]
pub fn host_is_blank(host: &str) -> (r: bool)
    ensures
        r == forall|i: int| 0 <= i < host@.len() ==> is_space(#[trigger] host@[i]),
{
    let n = host.unicode_len();
    let mut i: usize = 0;
    while i < n
        invariant
            i <= n,
            forall|j: int| 0 <= j < i ==> is_space(#[trigger] host@[j]),
        decreases n - i,
    {
        let c = host.get_char(i);
        if !(c == ' ' || c == '\t' || c == '\n' || c == '\r' || c == '\u{b}' || c == '\u{c}') {
            return false;
        }
        i += 1;
    }
    true
}

/// The worker count actually used: coerced to a minimum of one.
pub fn effective_workers(workers: usize) -> (r: usize)
    ensures
        r == if workers == 0 {
            1usize
        } else {
            workers
        },
        r >= 1,
{
    if workers == 0 {
        1
    } else {
        workers
    }
}

} // verus!
