//! What the kernel decides about signals before it hands them to the
//! signal handling of a process: which numbers name a signal, and where the
//! records of a `sigaction` call lie.

use crate::io::{readable, readable_flags, writable, writable_flags};
use crate::kernel::Kernel;
use crate::space::{translated, AddressSpace, Pte};
use vstd::prelude::*;

verus! {

/// The largest number of a signal for which a handler can be registered.
pub const MAX_SIG: usize = 31;

/// The largest number that names a signal.
pub const LAST_SIGNAL: u8 = 63;

/// `SignalNo::try_from` of `tg_signal`: whether the number `signum` names a
/// signal.  The numbers 0 to 63 do; 0 names the signal `ERR`.
#[verifier::external_body]
fn signal_number_known(signum: u8) -> (known: bool)
    ensures
        known == (signum <= LAST_SIGNAL),
{
    tg_signal::SignalNo::try_from(signum).is_ok()
}

/// `MAX_SIG` of `tg_signal`: the largest number of a signal for which a
/// handler can be registered, 31.
#[verifier::external_body]
fn largest_handled_signal() -> (n: usize)
    ensures
        n == MAX_SIG,
{
    tg_signal::MAX_SIG
}

/// Whether `signum` names a signal that can be sent: any signal but `ERR`.
pub open spec fn can_send(signum: u8) -> bool {
    1 <= signum <= LAST_SIGNAL
}

/// Whether a handler can be asked about or registered for `signum`.
pub open spec fn can_handle(signum: u8) -> bool {
    1 <= signum <= MAX_SIG
}

/// Whether `signum` names a signal that can be sent.
pub fn sendable(signum: u8) -> (b: bool)
    ensures
        b == can_send(signum),
{
    signal_number_known(signum) && signum != 0
}

/// Whether a handler can be asked about or registered for `signum`.
pub fn handleable(signum: u8) -> (b: bool)
    ensures
        b == can_handle(signum),
{
    signum as usize <= largest_handled_signal() && signal_number_known(signum) && signum != 0
}

/// Where the records of a `sigaction` call lie in physical memory: the
/// place to store the old action, if the caller wants it, and the place to
/// read the new action from, if the caller gives one.
#[derive(Clone, Copy, PartialEq, Eq, Structural, Debug)]
pub struct SigactionPlan {
    pub old_action: Option<u64>,
    pub action: Option<u64>,
}

/// What a `sigaction` call for `signum` comes to in a space with the
/// mappings `map`: nothing if the signal cannot be handled, or if a record
/// that the caller names cannot be reached, the old one for writing and
/// the new one for reading; else the places of the records.  An address of
/// zero names no record.
pub open spec fn sigaction_planned(map: Map<u64, Pte>, signum: u8, action: usize,
    old_action: usize) -> Option<
    SigactionPlan,
> {
    let old_slot = translated(map, old_action as u64, writable_flags());
    let new_slot = translated(map, action as u64, readable_flags());
    if !can_handle(signum) || (old_action != 0 && old_slot is None) || (action != 0 && new_slot
        is None) {
        None
    } else {
        Some(
            SigactionPlan {
                old_action: if old_action != 0 {
                    old_slot
                } else {
                    None
                },
                action: if action != 0 {
                    new_slot
                } else {
                    None
                },
            },
        )
    }
}

/// Decides what a `sigaction` call comes to for a process with the address
/// space `space`.
pub fn plan_sigaction(space: &AddressSpace, signum: u8, action: usize, old_action: usize) -> (r:
    Option<SigactionPlan>)
    requires
        space.wf(),
    ensures
        r == sigaction_planned(space@, signum, action, old_action),
{
    if !handleable(signum) {
        return None;
    }
    let old_slot = if old_action != 0 {
        match space.translate(old_action as u64, writable()) {
            Some(slot) => Some(slot),
            None => {
                return None;
            },
        }
    } else {
        None
    };
    let new_slot = if action != 0 {
        match space.translate(action as u64, readable()) {
            Some(slot) => Some(slot),
            None => {
                return None;
            },
        }
    } else {
        None
    };
    Some(SigactionPlan { old_action: old_slot, action: new_slot })
}

impl Kernel {
    /// The process to which a `kill` call sends its signal: process `pid`,
    /// if there is such a process and `signum` names a signal that can be sent.
    pub fn kill_target(&self, pid: isize, signum: u8) -> (target: Option<usize>)
        ensures
            target is Some <==> pid >= 0 && self.alive(pid as int) && can_send(signum),
            target is Some ==> target->0 == pid,
    {
        if pid < 0 || !sendable(signum) {
            return None;
        }
        match self.get_proc(pid as usize) {
            Some(_) => Some(pid as usize),
            None => None,
        }
    }
}

} // verus!
