//! Starting the coordinator: the decisions taken while acquiring the project
//! lock, the session token's text form, and the comparison of tokens.

use vstd::prelude::*;
use crate::text::push_char;

verus! {

/// What a lock file records of the coordinator that holds it.
#[derive(Debug, Clone, PartialEq, Eq)]
pub struct LockInfo {
    pub pid: u32,
    pub started_at: String,
    pub project_root: String,
    pub core_version: String,
}

#[derive(Debug)]
pub enum LockOutcome {
    Acquired,
    HeldBy(LockInfo),
}

/// What an attempt to create the lock file found.
pub enum LockEvent {
    /// The file did not exist and has been created by us.
    Created,
    /// The file exists. `holder` is its content if it parses, and
    /// `holder_alive` whether that process is still running.
    Exists { holder: Option<LockInfo>, holder_alive: bool },
}

/// What to do next.
#[derive(Debug)]
pub enum LockAction {
    /// Write our own record into the new file: the lock is ours.
    Acquire,
    /// A live process holds the lock.
    Held(LockInfo),
    /// The lock is stale or unreadable: remove it and try once more, with no
    /// retry left.
    BreakStale,
    /// Still not ours after the one retry: fail.
    GiveUp,
}

pub open spec fn lock_step(may_retry: bool, event: LockEvent) -> LockAction {
    match event {
        LockEvent::Created => LockAction::Acquire,
        LockEvent::Exists { holder, holder_alive } => {
            if holder is Some && holder_alive {
                LockAction::Held(holder->0)
            } else if may_retry {
                LockAction::BreakStale
            } else {
                LockAction::GiveUp
            }
        },
    }
}

/// One step of acquiring the project lock: from whether a retry is left and
/// what the attempt found, the next action. A stale lock is broken only
/// while a retry is left, so acquiring tries at most twice.
pub fn acquire_lock(may_retry: bool, event: LockEvent) -> (r: LockAction)
    ensures
        r == lock_step(may_retry, event),
        r is BreakStale ==> may_retry,
{
    match event {
        LockEvent::Created => LockAction::Acquire,
        LockEvent::Exists { holder, holder_alive } => match holder {
            Some(info) if holder_alive => LockAction::Held(info),
            _ => {
                if may_retry {
                    LockAction::BreakStale
                } else {
                    LockAction::GiveUp
                }
            },
        },
    }
}

/// Acquiring tries at most twice: after breaking a stale lock with the one
/// retry, the second attempt never breaks another.
pub proof fn law_lock_retry_bounded(first: LockEvent, second: LockEvent)
    requires
        lock_step(true, first) is BreakStale,
    ensures
        !(lock_step(false, second) is BreakStale),
{
}

/// The lowercase hexadecimal digit for `d` (0..=15).
pub open spec fn hex_digit(d: int) -> char {
    if d < 10 {
        ((d + 48) as u8) as char
    } else {
        ((d - 10 + 97) as u8) as char
    }
}

/// Each byte as two lowercase hexadecimal digits, high digit first.
pub open spec fn hex_of(bytes: Seq<u8>) -> Seq<char> {
    Seq::new(
        2 * bytes.len(),
        |i: int| if i % 2 == 0 { hex_digit((bytes[i / 2] / 16) as int) } else { hex_digit((bytes[i / 2] % 16) as int) },
    )
}

fn hex_char(d: u8) -> (c: char)
    requires
        d < 16,
    ensures
        c == hex_digit(d as int),
{
    if d < 10 {
        (d + 48) as char
    } else {
        (d - 10 + 97) as char
    }
}

/// The bytes as lowercase hexadecimal text (the session token's form).
pub fn hex_encode(bytes: &Vec<u8>) -> (r: String)
    ensures
        r@ == hex_of(bytes@),
{
    let mut r = String::new();
    let mut i: usize = 0;
    while i < bytes.len()
        invariant
            i <= bytes@.len(),
            r@ == hex_of(bytes@.subrange(0, i as int)),
        decreases bytes.len() - i,
    {
        let b = bytes[i];
        let ghost before = r@;
        push_char(&mut r, hex_char(b / 16));
        push_char(&mut r, hex_char(b % 16));
        proof {
            let p = bytes@.subrange(0, i + 1);
            let q = bytes@.subrange(0, i as int);
            assert forall|k: int| 0 <= k < 2 * q.len() implies #[trigger] hex_of(p)[k] == hex_of(q)[k] by {
                assert(p[k / 2] == q[k / 2]);
            }
            assert(r@ =~= hex_of(p));
        }
        i = i + 1;
    }
    assert(bytes@.subrange(0, bytes@.len() as int) =~= bytes@);
    r
}

/// Whether two strings are equal, looking at every byte whatever the
/// earlier ones were, so that the time taken does not tell where they differ.
pub fn constant_time_eq(a: &str, b: &str) -> (r: bool)
    ensures
        r == (a@ == b@),
{
    let ab = a.as_bytes();
    let bb = b.as_bytes();
    proof {
        vstd::utf8::encode_utf8_decode_utf8(a@);
        vstd::utf8::encode_utf8_decode_utf8(b@);
    }
    if ab.len() != bb.len() {
        return false;
    }
    let mut diff: u8 = 0;
    let mut i: usize = 0;
    while i < ab.len()
        invariant
            ab@.len() == bb@.len(),
            i <= ab@.len(),
            diff == 0 <==> forall|j: int| 0 <= j < i ==> ab@[j] == bb@[j],
        decreases ab.len() - i,
    {
        let x = ab[i];
        let y = bb[i];
        let d = diff;
        assert((d | (x ^ y)) == 0 <==> (d == 0 && x == y)) by (bit_vector);
        diff = diff | (x ^ y);
        i = i + 1;
    }
    proof {
        if diff == 0 {
            assert(ab@ =~= bb@);
        }
    }
    diff == 0
}

} // verus!
