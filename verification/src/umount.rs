use vstd::prelude::*;

verus! {

/// What the handing of mount points to KernelSU for unmounting knows: whether
/// KernelSU runs, whether the handing is closed, and the targets handed so far.
pub struct UnmountState {
    pub ksu: bool,
    pub closed: bool,
    pub targets: Vec<String>,
}

impl UnmountState {
    /// No targets yet, KernelSU running or not.
    pub fn new(ksu: bool) -> (r: UnmountState)
        ensures
            r.ksu == ksu,
            !r.closed,
            r.targets@.len() == 0,
    {
        UnmountState { ksu, closed: false, targets: Vec::new() }
    }
}

/// Hands `target` to KernelSU for unmounting: it joins the targets where KernelSU runs
/// and the handing is not closed; otherwise nothing changes.
pub fn send_unmountable(state: &mut UnmountState, target: &str)
    ensures
        final(state).ksu == old(state).ksu,
        final(state).closed == old(state).closed,
        old(state).ksu && !old(state).closed ==> final(state).targets@.len() == old(
            state,
        ).targets@.len() + 1 && final(state).targets@.drop_last() == old(state).targets@
            && final(state).targets@.last()@ == target@,
        !(old(state).ksu && !old(state).closed) ==> final(state).targets@ == old(state).targets@,
{
    if !state.ksu {
        return;
    }
    if state.closed {
        return;
    }
    state.targets.push(target.to_owned());
    assert(state.targets@.drop_last() =~= old(state).targets@);
}

} // verus!
