use crate::field::is_canonical;
use vstd::prelude::*;

verus! {

/// The wire in column `column` of row `row`.
#[derive(Clone, Copy, Debug, PartialEq, Eq, Structural)]
pub struct Wire {
    pub row: usize,
    pub column: usize,
}

/// A reference to one value of the witness: a wire of the trace, or a virtual
/// value that no row holds.
#[derive(Clone, Copy, Debug, PartialEq, Eq, Structural)]
pub enum Target {
    Wire(Wire),
    VirtualTarget { index: usize },
}

impl Target {
    pub fn wire(row: usize, column: usize) -> (r: Target)
        ensures
            r == Target::Wire(Wire { row, column }),
    {
        Target::Wire(Wire { row, column })
    }
}

/// Why the witness could not be read or written.
#[derive(Clone, Copy, Debug, PartialEq, Eq, Structural)]
pub enum WitnessError {
    /// A target was read before any value was assigned to it.
    Unassigned(Target),
    /// A target already holds a different value.
    Conflict(Target),
}

/// The value last assigned to `t` among `entries`.
pub open spec fn lookup(entries: Seq<(Target, u64)>, t: Target) -> Option<u64>
    decreases entries.len(),
{
    if entries.len() == 0 {
        None
    } else if entries.last().0 == t {
        Some(entries.last().1)
    } else {
        lookup(entries.drop_last(), t)
    }
}

/// A partial assignment of field values to targets.
#[derive(Clone, Debug)]
pub struct PartitionWitness {
    pub entries: Vec<(Target, u64)>,
}

impl PartitionWitness {
    /// Every assigned value is a canonical field element.
    pub open spec fn wf(self) -> bool {
        forall|k: int| 0 <= k < self.entries@.len() ==> is_canonical(#[trigger] self.entries@[k].1 as int)
    }

    /// The value of `t`, if it has one.
    pub open spec fn value(self, t: Target) -> Option<u64> {
        lookup(self.entries@, t)
    }

    pub fn new() -> (r: Self)
        ensures
            r.wf(),
            forall|t: Target| r.value(t).is_none(),
    {
        PartitionWitness { entries: Vec::new() }
    }

    pub fn try_get_target(&self, t: Target) -> (r: Option<u64>)
        requires
            self.wf(),
        ensures
            r == self.value(t),
            r matches Some(v) ==> is_canonical(v as int),
    {
        let mut found: Option<u64> = None;
        let mut k: usize = 0;
        while k < self.entries.len()
            invariant
                k <= self.entries.len(),
                self.wf(),
                found == lookup(self.entries@.subrange(0, k as int), t),
                found matches Some(v) ==> is_canonical(v as int),
            decreases self.entries.len() - k,
        {
            assert(self.entries@.subrange(0, k + 1).drop_last() =~= self.entries@.subrange(0, k as int));
            if self.entries[k].0 == t {
                found = Some(self.entries[k].1);
            }
            k = k + 1;
        }
        assert(self.entries@.subrange(0, self.entries.len() as int) =~= self.entries@);
        found
    }

    /// Assigns `v` to `t`. A target keeps the first value it is given: giving
    /// it another one fails, giving it the same one again changes nothing.
    pub fn set_target(&mut self, t: Target, v: u64) -> (r: Result<(), WitnessError>)
        requires
            old(self).wf(),
            is_canonical(v as int),
        ensures
            final(self).wf(),
            match old(self).value(t) {
                None => r is Ok && final(self).value(t) == Some(v) && forall|u: Target|
                    u != t ==> final(self).value(u) == old(self).value(u),
                Some(w) => if w == v {
                    r is Ok && *final(self) == *old(self)
                } else {
                    r == Err::<(), WitnessError>(WitnessError::Conflict(t)) && *final(self)
                        == *old(self)
                },
            },
    {
        match self.try_get_target(t) {
            Some(w) => {
                if w == v {
                    Ok(())
                } else {
                    Err(WitnessError::Conflict(t))
                }
            },
            None => {
                self.entries.push((t, v));
                assert(self.entries@.drop_last() =~= old(self).entries@);
                Ok(())
            },
        }
    }
}

/// Values that a generator has computed, in the order it computed them,
/// waiting to be committed to the witness.
#[derive(Clone, Debug)]
pub struct GeneratedValues {
    pub target_values: Vec<(Target, u64)>,
}

impl GeneratedValues {
    pub fn empty() -> (r: Self)
        ensures
            r.target_values@.len() == 0,
    {
        GeneratedValues { target_values: Vec::new() }
    }

    pub fn set_target(&mut self, t: Target, v: u64)
        ensures
            final(self).target_values@ == old(self).target_values@.push((t, v)),
    {
        self.target_values.push((t, v));
    }
}

} // verus!
