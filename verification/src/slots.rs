use crate::parse::copy_records;
use crate::parse::DeathRecord;
use crate::parse::DeathRecordV;
use vstd::prelude::*;

verus! {

/// Index-preserving fan-in for the worker pool: one slot per submitted
/// archive, written when its task completes, read out in submission order.
/// The assembled output depends only on what stands in which slot, never on
/// the order the slots were filled in.
pub struct ResultSlots {
    pub slots: Vec<Option<Vec<DeathRecord>>>,
}

/// The records of the filled slots, concatenated in slot order; an empty
/// slot contributes nothing.
pub open spec fn flatten_slots(s: Seq<Option<Seq<DeathRecordV>>>) -> Seq<DeathRecordV>
    decreases s.len(),
{
    if s.len() == 0 {
        seq![]
    } else {
        flatten_slots(s.drop_last()) + (match s.last() {
            Some(v) => v,
            None => seq![],
        })
    }
}

impl ResultSlots {
    /// The slots as mathematical values.
    pub open spec fn slot_view(&self) -> Seq<Option<Seq<DeathRecordV>>> {
        Seq::new(
            self.slots@.len(),
            |i: int|
                match self.slots@[i] {
                    Some(v) => Some(v.deep_view()),
                    None => None,
                },
        )
    }

    /// `n` empty slots, one per submitted task.
    pub fn new(n: usize) -> (r: ResultSlots)
        ensures
            r.slot_view().len() == n,
            forall|i: int| 0 <= i < n ==> #[trigger] r.slot_view()[i] is None,
    {
        let mut slots: Vec<Option<Vec<DeathRecord>>> = Vec::new();
        for k in 0..n
            invariant
                slots@.len() == k,
                forall|i: int| 0 <= i < k ==> (#[trigger] slots@[i]) is None,
        {
            slots.push(None);
        }
        let r = ResultSlots { slots };
        proof {
            assert forall|i: int| 0 <= i < n implies #[trigger] r.slot_view()[i] is None by {
                assert(r.slots@[i] is None);
            }
        }
        r
    }

    pub fn len(&self) -> (n: usize)
        ensures
            n == self.slot_view().len(),
    {
        self.slots.len()
    }

    /// Writes the result of task `i` into its slot; every other slot stays
    /// as it was, whatever order the tasks complete in.
    pub fn set(&mut self, i: usize, records: Vec<DeathRecord>)
        requires
            i < old(self).slot_view().len(),
        ensures
            final(self).slot_view() == old(self).slot_view().update(
                i as int,
                Some(records.deep_view()),
            ),
    {
        let ghost rdv: Seq<DeathRecordV> = records.deep_view();
        self.slots[i] = Some(records);
        proof {
            assert(self.slots@[i as int] == Some(self.slots@[i as int]->0));
            assert(self.slots@[i as int]->0.deep_view() == rdv);
            assert(final(self).slot_view() =~~= old(self).slot_view().update(
                i as int,
                Some(rdv),
            ));
        }
    }

    /// Whether the slot for task `i` has been filled.
    pub fn is_filled(&self, i: usize) -> (b: bool)
        requires
            i < self.slot_view().len(),
        ensures
            b == (self.slot_view()[i as int] is Some),
    {
        self.slots[i].is_some()
    }

    /// The records of all slots, concatenated in submission order. Requires
    /// every task to have completed; the result is a function of the slots
    /// alone, so completion order never shows in it.
    pub fn assemble(&self) -> (r: Vec<DeathRecord>)
        requires
            forall|i: int| 0 <= i < self.slot_view().len() ==> #[trigger] self.slot_view()[i] is Some,
        ensures
            r.deep_view() == flatten_slots(self.slot_view()),
    {
        let mut out: Vec<DeathRecord> = Vec::new();
        let n = self.slots.len();
        proof {
            assert(out.deep_view() =~~= flatten_slots(self.slot_view().take(0)));
        }
        for i in 0..n
            invariant
                n == self.slots@.len(),
                forall|t: int|
                    0 <= t < self.slot_view().len() ==> #[trigger] self.slot_view()[t] is Some,
                out.deep_view() == flatten_slots(self.slot_view().take(i as int)),
        {
            proof {
                assert(self.slot_view()[i as int] is Some);
                assert(self.slots@[i as int] is Some);
            }
            let part = match &self.slots[i] {
                Some(v) => copy_records(v),
                None => Vec::new(),
            };
            let ghost prev_dv: Seq<DeathRecordV> = out.deep_view();
            let ghost prev_v: Seq<DeathRecord> = out@;
            let ghost part_dv: Seq<DeathRecordV> = part.deep_view();
            let ghost part_v: Seq<DeathRecord> = part@;
            let mut part_mut = part;
            out.append(&mut part_mut);
            proof {
                let sv = self.slot_view();
                assert(sv.take(i + 1).drop_last() =~= sv.take(i as int));
                assert(sv.take(i + 1).last() == sv[i as int]);
                assert(part_dv == self.slots@[i as int]->0.deep_view());
                assert(sv[i as int] == Some(self.slots@[i as int]->0.deep_view()));
                assert forall|k: int|
                    0 <= k < out.deep_view().len() implies #[trigger] out.deep_view()[k] == (
                prev_dv + part_dv)[k] by {
                    assert(out.deep_view()[k] == out@[k]@);
                    if k < prev_v.len() {
                        assert(out@[k] == prev_v[k]);
                        assert(prev_dv[k] == prev_v[k]@);
                    } else {
                        assert(out@[k] == part_v[k - prev_v.len()]);
                        assert(part_dv[k - prev_v.len()] == part_v[k - prev_v.len()]@);
                    }
                }
                assert(out.deep_view() =~~= prev_dv + part_dv);
                assert(out.deep_view() =~~= flatten_slots(sv.take(i + 1)));
            }
        }
        proof {
            assert(self.slot_view().take(n as int) =~= self.slot_view());
        }
        out
    }
}

/// Filling two different slots commutes: the slots, and so the assembled
/// output, end the same whichever task finishes first.
pub proof fn lemma_set_commutes(
    s: Seq<Option<Seq<DeathRecordV>>>,
    i: int,
    j: int,
    x: Option<Seq<DeathRecordV>>,
    y: Option<Seq<DeathRecordV>>,
)
    requires
        0 <= i < s.len(),
        0 <= j < s.len(),
        i != j,
    ensures
        s.update(i, x).update(j, y) == s.update(j, y).update(i, x),
{
    assert(s.update(i, x).update(j, y) =~~= s.update(j, y).update(i, x));
}

/// The archive records followed by the live records, in that order.
pub fn merge_events(archived: Vec<DeathRecord>, live: Vec<DeathRecord>) -> (r: Vec<DeathRecord>)
    ensures
        r.deep_view() == archived.deep_view() + live.deep_view(),
{
    let ghost a_dv: Seq<DeathRecordV> = archived.deep_view();
    let ghost a_v: Seq<DeathRecord> = archived@;
    let ghost l_dv: Seq<DeathRecordV> = live.deep_view();
    let ghost l_v: Seq<DeathRecord> = live@;
    let mut out = archived;
    let mut tail = live;
    out.append(&mut tail);
    proof {
        assert forall|k: int|
            0 <= k < out.deep_view().len() implies #[trigger] out.deep_view()[k] == (a_dv
            + l_dv)[k] by {
            assert(out.deep_view()[k] == out@[k]@);
            if k < a_v.len() {
                assert(out@[k] == a_v[k]);
                assert(a_dv[k] == a_v[k]@);
            } else {
                assert(out@[k] == l_v[k - a_v.len()]);
                assert(l_dv[k - a_v.len()] == l_v[k - a_v.len()]@);
            }
        }
        assert(out.deep_view() =~~= a_dv + l_dv);
    }
    out
}

} // verus!
