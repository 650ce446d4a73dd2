//! Profiled inference: each boundary the model reports is charged the
//! instructions since the previous one, so the phases add up to the whole run.
use vstd::prelude::*;
use vstd::string::StringExecFns;
use crate::types::Digest;

verus! {

/// The cost of one phase of a profiled inference: the instructions since the
/// previous boundary.
pub struct PhaseCostDto {
    pub name: String,
    pub instructions: u64,
}

/// A profiled inference: the phases in execution order.
pub struct ProfileReply {
    pub model: Digest,
    pub input_tokens: u32,
    pub measured_instructions: u64,
    pub phases: Vec<PhaseCostDto>,
}

pub open spec fn phase_views(v: Seq<PhaseCostDto>) -> Seq<(Seq<char>, u64)> {
    v.map_values(|e: PhaseCostDto| (e.name@, e.instructions))
}

pub open spec fn sat_sub(a: u64, b: u64) -> u64 {
    if a >= b { (a - b) as u64 } else { 0 }
}

/// The sum of the instructions of all phases.
pub open spec fn total(ph: Seq<(Seq<char>, u64)>) -> int
    decreases ph.len(),
{
    if ph.len() == 0 { 0 } else { total(ph.drop_last()) + ph.last().1 }
}

/// The phases recorded from `start` for the boundary readings `marks`
/// (a name and the counter's value there), each charged the saturating
/// difference from the previous reading.
pub open spec fn recorded(start: u64, marks: Seq<(Seq<char>, u64)>) -> Seq<(Seq<char>, u64)>
    decreases marks.len(),
{
    if marks.len() == 0 {
        Seq::empty()
    } else {
        let prev = last_reading(start, marks.drop_last());
        recorded(start, marks.drop_last()).push((marks.last().0, sat_sub(marks.last().1, prev)))
    }
}

/// The last counter reading (the start when there is none).
pub open spec fn last_reading(start: u64, marks: Seq<(Seq<char>, u64)>) -> u64 {
    if marks.len() == 0 { start } else { marks.last().1 }
}

/// The counter never runs backwards over the readings.
pub open spec fn monotone(start: u64, marks: Seq<(Seq<char>, u64)>) -> bool {
    forall|i: int| 0 <= i < marks.len() ==> (#[trigger] marks[i]).1 >= (if i == 0 { start } else { marks[i - 1].1 })
}

/// Records the phases of one profiled run.
pub struct ProfileRecorder {
    pub start: u64,
    pub last: u64,
    pub phases: Vec<PhaseCostDto>,
}

impl ProfileRecorder {
    pub fn new(start: u64) -> (r: ProfileRecorder)
        ensures
            r.start == start,
            r.last == start,
            r.phases@.len() == 0,
    {
        ProfileRecorder { start, last: start, phases: Vec::new() }
    }

    /// A boundary: the phase `name` ends with the counter at `now`.
    pub fn record(&mut self, name: &str, now: u64)
        ensures
            final(self).start == old(self).start,
            final(self).last == now,
            phase_views(final(self).phases@) == phase_views(old(self).phases@).push((name@, sat_sub(now, old(self).last))),
    {
        let instructions = if now >= self.last { now - self.last } else { 0 };
        let ghost before = phase_views(self.phases@);
        self.phases.push(PhaseCostDto { name: String::from_str(name), instructions });
        assert(phase_views(self.phases@) =~= before.push((name@, sat_sub(now, old(self).last))));
        self.last = now;
    }

    /// The instructions of the whole run.
    pub fn measured(&self) -> (r: u64)
        ensures
            r == sat_sub(self.last, self.start),
    {
        if self.last >= self.start { self.last - self.start } else { 0 }
    }

    /// The reply of a profiled run.
    pub fn finish(self, model: Digest, input_tokens: u32) -> (r: ProfileReply)
        ensures
            r.model == model,
            r.input_tokens == input_tokens,
            r.measured_instructions == sat_sub(self.last, self.start),
            r.phases@ == self.phases@,
    {
        let measured_instructions = self.measured();
        ProfileReply { model, input_tokens, measured_instructions, phases: self.phases }
    }
}

/// While the counter only grows, the phases of a profile add up exactly to the
/// instructions measured between the start and the last boundary.
pub proof fn law_phases_sum_to_measured(start: u64, marks: Seq<(Seq<char>, u64)>)
    requires
        monotone(start, marks),
    ensures
        total(recorded(start, marks)) == sat_sub(last_reading(start, marks), start),
        last_reading(start, marks) >= start,
    decreases marks.len(),
{
    if marks.len() > 0 {
        let d = marks.drop_last();
        assert(monotone(start, d)) by {
            assert forall|i: int| 0 <= i < d.len() implies (#[trigger] d[i]).1 >= (if i == 0 { start } else { d[i - 1].1 }) by {
                assert(d[i] == marks[i]);
                if i > 0 {
                    assert(d[i - 1] == marks[i - 1]);
                }
            }
        }
        law_phases_sum_to_measured(start, d);
        let k = marks.len() - 1;
        assert(marks[k].1 >= (if k == 0 { start } else { marks[k - 1].1 }));
        if k > 0 {
            assert(d.last() == marks[k - 1]);
        }
        assert(recorded(start, marks).drop_last() =~= recorded(start, d));
    }
}

} // verus!
