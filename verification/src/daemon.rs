//! The decisions of the monitoring loop: when the hosts file must be
//! written, and what the loop remembers once it has been.

use vstd::prelude::*;

use crate::domains::{lemma_view_determined_by_names, DomainSet};

verus! {

/// What the loop remembers: the domains last written to the hosts file, and
/// whether nothing has been written yet.
pub struct DaemonState {
    active_blocks: DomainSet,
    first_run: bool,
}

/// The loop's memory as plain values.
pub struct DaemonView {
    pub active: Seq<Seq<char>>,
    pub first_run: bool,
}

impl View for DaemonState {
    type V = DaemonView;

    closed spec fn view(&self) -> DaemonView {
        DaemonView { active: self.active_blocks@, first_run: self.first_run }
    }
}

/// The hosts file is written on the first round, and afterwards whenever the
/// domains to block differ from those last written.
pub open spec fn should_apply(state: DaemonView, target: Seq<Seq<char>>) -> bool {
    state.first_run || target != state.active
}

impl DaemonState {
    /// The state before the first round: nothing written, no domains.
    pub fn new() -> (r: DaemonState)
        ensures
            r@.first_run,
            r@.active == Seq::<Seq<char>>::empty(),
    {
        DaemonState { active_blocks: DomainSet::new(), first_run: true }
    }

    /// Whether the hosts file must be written for the domains `target`.
    pub fn needs_apply(&self, target: &DomainSet) -> (r: bool)
        ensures
            r == should_apply(self@, target@),
    {
        self.first_run || !target.same_names(&self.active_blocks)
    }

    /// Remembers that the hosts file now blocks `target`.
    pub fn record_applied(&mut self, target: DomainSet)
        ensures
            final(self)@ == (DaemonView { active: target@, first_run: false }),
    {
        self.active_blocks = target;
        self.first_run = false;
    }

    /// The domains last written.
    pub fn active_blocks(&self) -> (r: &DomainSet)
        ensures
            r@ == self@.active,
    {
        &self.active_blocks
    }
}

/// Once the hosts file has been written for a set of domains, it is written
/// again exactly when the set of domains to block changes: the loop rests
/// while nothing changes.
pub proof fn lemma_rewrite_only_on_change(written: Seq<Seq<char>>, target: Seq<Seq<char>>)
    requires
        crate::domains::strictly_sorted(written),
        crate::domains::strictly_sorted(target),
    ensures
        should_apply(DaemonView { active: written, first_run: false }, target) <==> target.to_set()
            != written.to_set(),
{
    if target.to_set() == written.to_set() {
        lemma_view_determined_by_names(target, written);
    }
}

} // verus!
