use vstd::prelude::*;

use crate::phase::Phasor;
use crate::sample::{Sample, ONE_RAW};

verus! {

/// Weighted mix of two table entries: `(1 - w) * x0 + w * x1`.
pub open spec fn spec_linear(x0: Sample, x1: Sample, w: Sample) -> Sample {
    Sample { raw: ONE_RAW }.spec_sub(w).spec_mul(x0).spec_add(w.spec_mul(x1))
}

/// Weighted mix of two table entries: `(1 - w) * x0 + w * x1`.
pub fn linear(x0: Sample, x1: Sample, w: Sample) -> (r: Sample)
    ensures
        r == spec_linear(x0, x1, w),
{
    Sample { raw: ONE_RAW }.sub(w).mul(x0).add(w.mul(x1))
}

/// The slot an index selects: its whole-number part. A negative index
/// selects slot zero and an index at or past the table's end selects the
/// last slot.
pub open spec fn spec_slot(table: Seq<Sample>, index: Sample) -> int {
    if index.raw < 0 {
        0
    } else if (index.raw as int) / (ONE_RAW as int) >= table.len() {
        table.len() - 1
    } else {
        (index.raw as int) / (ONE_RAW as int)
    }
}

/// The mixing weight: how far the index lies past its slot. A negative
/// index keeps its whole (negative) distance below slot zero, so the mix
/// extrapolates below the table's first entry; an index at or past the
/// table's end weighs zero, so it reads the last slot alone.
pub open spec fn spec_weight(table: Seq<Sample>, index: Sample) -> Sample {
    if index.raw < 0 {
        index
    } else if (index.raw as int) / (ONE_RAW as int) < table.len() {
        Sample { raw: ((index.raw as int) % (ONE_RAW as int)) as i64 }
    } else {
        Sample { raw: 0 }
    }
}

/// Read the table at a fractional index: mix the indexed slot with the
/// next one (wrapping) by the index's fractional part.
pub open spec fn spec_lookup(table: Seq<Sample>, index: Sample) -> Sample {
    let slot = spec_slot(table, index);
    let next = (slot + 1) % (table.len() as int);
    spec_linear(table[slot], table[next], spec_weight(table, index))
}

/// Read `table` at the fractional `index`, mixing the selected slot with
/// its (wrapping) neighbor by the index's fractional part. A negative
/// index extrapolates from slot zero with its negative distance as the
/// weight; an index at or past the table's end reads the last slot
/// whole.
pub fn lookup(table: &Vec<Sample>, index: Sample) -> (r: Sample)
    requires
        table@.len() > 0,
    ensures
        r == spec_lookup(table@, index),
{
    let len = table.len();
    let mut slot: usize = 0;
    let mut weight = Sample { raw: 0 };
    if index.raw < 0 {
        weight = index;
    } else {
        let whole = index.raw / ONE_RAW;
        if (whole as u128) >= (len as u128) {
            slot = len - 1;
        } else {
            slot = whole as usize;
            weight = Sample { raw: index.raw % ONE_RAW };
        }
    }
    let next = (slot + 1) % len;
    linear(table[slot], table[next], weight)
}

/// A wavetable with its own phasor: each advance steps the phase and
/// reads the table at the new fractional position.
#[derive(Debug)]
pub struct OwnedLut {
    pub phasor: Phasor,
    pub table: Vec<Sample>,
}

/// What the verifier sees of a wavetable: the phasor and the table's
/// values.
pub struct OwnedLutView {
    pub phasor: Phasor,
    pub table: Seq<Sample>,
}

impl View for OwnedLut {
    type V = OwnedLutView;

    open spec fn view(&self) -> OwnedLutView {
        OwnedLutView { phasor: self.phasor, table: self.table@ }
    }
}

impl OwnedLut {
    /// Wrap a table; the phasor sweeps one table length per cycle, one
    /// slot per step until the increment is changed.
    pub fn new(table: Vec<Sample>) -> (r: OwnedLut)
        requires
            0 < table@.len() <= 0x7FFF_FFFF,
        ensures
            r@.table == table@,
            r@.phasor == (Phasor {
                accumulator: Sample { raw: 0 },
                increment: Sample { raw: ONE_RAW },
                max: Sample { raw: ((table@.len() * ONE_RAW) as i64) },
            }),
    {
        let max = Sample { raw: (table.len() as i64) * ONE_RAW };
        OwnedLut { phasor: Phasor::with_max(max), table }
    }

    /// The lookup table after one advance, and the value it reads.
    pub open spec fn spec_advance(v: OwnedLutView) -> (OwnedLutView, Sample) {
        let phasor = v.phasor.spec_shift(v.phasor.increment);
        (OwnedLutView { phasor, ..v }, spec_lookup(v.table, phasor.accumulator))
    }

    /// Step the phase and read the table at the new position.
    pub fn advance(&mut self) -> (r: Sample)
        requires
            old(self)@.table.len() > 0,
        ensures
            (*final(self))@ == OwnedLut::spec_advance(old(self)@).0,
            r == OwnedLut::spec_advance(old(self)@).1,
    {
        let index = self.phasor.advance();
        lookup(&self.table, index)
    }
}

impl Clone for OwnedLut {
    /// The clone carries the same view: same phasor, same table values.
    fn clone(&self) -> (r: Self)
        ensures
            r@ == self@,
    {
        let mut table: Vec<Sample> = Vec::new();
        let mut k: usize = 0;
        while k < self.table.len()
            invariant
                k <= self.table@.len(),
                table@ == self.table@.subrange(0, k as int),
            decreases self.table@.len() - k,
        {
            table.push(self.table[k]);
            k = k + 1;
        }
        proof {
            assert(table@ =~= self.table@);
        }
        OwnedLut { phasor: self.phasor, table }
    }
}

} // verus!
