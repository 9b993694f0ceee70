//! The hold on the pool gate of what a candidate flashblock executed.

use vstd::prelude::*;

use super::model::{executed, gate_restored};
use super::pool::XtPool;
use crate::ids::id_views;

verus! {

/// Restores the XT pool gate if a candidate flashblock is abandoned after
/// executing an XT locally but before publication succeeds.
#[derive(Debug)]
pub struct ExecutedXtGateGuard {
    instance_ids: Vec<String>,
    restore_on_drop: bool,
}

impl ExecutedXtGateGuard {
    /// The instances that the candidate executed, in order.
    pub closed spec fn ids(&self) -> Seq<Seq<char>> {
        id_views(self.instance_ids@)
    }

    /// The pool gate is to be closed again when the guard goes.
    pub closed spec fn armed(&self) -> bool {
        self.restore_on_drop
    }

    /// A guard of a candidate that has executed nothing yet.
    pub fn new() -> (res: Self)
        ensures
            res.ids() == Seq::<Seq<char>>::empty(),
            res.armed(),
    {
        let res = ExecutedXtGateGuard { instance_ids: Vec::new(), restore_on_drop: true };
        assert(res.ids() =~= Seq::<Seq<char>>::empty());
        res
    }

    /// Lifts the hold of `instance_id` on the pool gate, and remembers it.
    pub fn note_executed(&mut self, xt_pool: &mut XtPool, instance_id: String)
        requires
            old(xt_pool).wf(),
        ensures
            final(xt_pool).wf(),
            final(xt_pool)@ == executed(old(xt_pool)@, instance_id@),
            final(self).ids() == old(self).ids().push(instance_id@),
            final(self).armed() == old(self).armed(),
    {
        xt_pool.note_executed(instance_id.as_str());
        self.instance_ids.push(instance_id);
        assert(self.ids() =~= old(self).ids().push(instance_id@));
    }

    /// Keeps the pool gate as it is and hands out the instances.
    pub fn disarm(&mut self) -> (res: Vec<String>)
        ensures
            id_views(res@) == old(self).ids(),
            !final(self).armed(),
            final(self).ids() == Seq::<Seq<char>>::empty(),
    {
        self.restore_on_drop = false;
        let mut ids: Vec<String> = Vec::new();
        ids.append(&mut self.instance_ids);
        assert(id_views(ids@) =~= old(self).ids());
        assert(self.ids() =~= Seq::<Seq<char>>::empty());
        ids
    }

    /// What happens when the guard goes: where it is armed, the pool gate is
    /// closed again for the instances that are still live.
    pub fn restore(&self, xt_pool: &mut XtPool)
        requires
            old(xt_pool).wf(),
        ensures
            final(xt_pool).wf(),
            self.armed() ==> final(xt_pool)@ == gate_restored(old(xt_pool)@, self.ids()),
            !self.armed() ==> final(xt_pool)@ == old(xt_pool)@,
    {
        if self.restore_on_drop {
            xt_pool.restore_gate(self.instance_ids.as_slice());
        }
    }
}

} // verus!
