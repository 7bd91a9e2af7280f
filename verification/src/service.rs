//! What the storage service makes of the lines that a client sends.

use vstd::prelude::*;
use vstd::string::*;

verus! {

/// The line that tells a server to stop.
pub const FS_SHUTDOWN: &'static str = "shutdown";

/// What a connection asked for.
#[derive(Clone, Copy, Debug, PartialEq, Eq, Structural)]
pub enum FsOps {
    /// Nothing that changes the service.
    NoOp,
    /// Stop accepting connections and end.
    Shutdown,
    /// A request that the service does not offer.
    Unsupported,
}

/// The line is the shutdown message.
pub open spec fn is_shutdown(line: Seq<char>) -> bool {
    line == "shutdown"@
}

/// What one line asks for: the shutdown message asks for shutdown, and no
/// other line is a request that the service offers.
pub fn classify_line(line: &str) -> (op: FsOps)
    ensures
        op == (if is_shutdown(line@) {
            FsOps::Shutdown
        } else {
            FsOps::Unsupported
        }),
{
    let message = "shutdown";
    proof {
        reveal_strlit("shutdown");
    }
    if line.unicode_len() != 8 {
        return FsOps::Unsupported;
    }
    let mut k: usize = 0;
    while k < 8
        invariant
            k <= 8,
            line@.len() == 8,
            message@ == "shutdown"@,
            message@.len() == 8,
            forall|j: int| 0 <= j < k ==> line@[j] == message@[j],
        decreases 8 - k,
    {
        if line.get_char(k) != message.get_char(k) {
            return FsOps::Unsupported;
        }
        k += 1;
    }
    assert(line@ =~= message@);
    FsOps::Shutdown
}

/// What a connection asks for, given the lines it sent: shutdown where
/// one of them is the shutdown message, and nothing else.
pub fn handle_lines(lines: &Vec<String>) -> (op: FsOps)
    ensures
        op == (if exists|i: int| 0 <= i < lines@.len() && is_shutdown(#[trigger] lines@[i]@) {
            FsOps::Shutdown
        } else {
            FsOps::NoOp
        }),
{
    let mut i: usize = 0;
    while i < lines.len()
        invariant
            i <= lines@.len(),
            forall|j: int| 0 <= j < i ==> !is_shutdown(#[trigger] lines@[j]@),
        decreases lines@.len() - i,
    {
        match classify_line(lines[i].as_str()) {
            FsOps::Shutdown => {
                return FsOps::Shutdown;
            },
            _ => {},
        }
        i += 1;
    }
    FsOps::NoOp
}

} // verus!
