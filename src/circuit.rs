//! The ordering constraint system over a trace in limb form: the first
//! record is at time zero, and each record's time is greater than the one
//! before, certified limb by limb.
use crate::base::{
    be_encode, be_value, fixed_be, lemma_be_encode_value, lemma_be_value_bound, lemma_pow256_widths,
    lemma_small_mod_u64, pow256, Base, B256, B64,
};
use crate::machine::{MemoryInstruction, RamMachine, TraceRecord};
use vstd::prelude::*;

verus! {

/// A trace record as the constraint system sees it: address and value as 32
/// big-endian byte limbs, time as 8, and the kind as one element (1 for a
/// write, 0 for a read).
#[derive(Clone, Copy, PartialEq, Eq, Debug)]
pub struct ConvertedTraceRecord {
    pub address: [u8; 32],
    pub time_log: [u8; 8],
    pub instruction: u8,
    pub value: [u8; 32],
}

/// The witness of the greater-than gadget on one row: the first limb at
/// which the current time differs from the previous one, and the difference
/// of the two limbs there.
#[derive(Clone, Copy, PartialEq, Eq, Debug)]
pub struct GreaterThanWitness {
    pub first_difference_limb: usize,
    pub difference: i16,
}

/// What is assigned to one row of the witness table.
#[derive(Clone, Copy, PartialEq, Eq, Debug)]
pub struct AssignedRow {
    pub record: ConvertedTraceRecord,
    /// Whether the time-zero gate is switched on (the first row only).
    pub first_row: bool,
    /// The greater-than witness, on every row but the first.
    pub greater_than: Option<GreaterThanWitness>,
}

/// Why a row cannot be assigned.
#[derive(Clone, Copy, PartialEq, Eq, Debug)]
pub enum AssignError {
    /// Two consecutive records have the same time: no limb differs.
    EqualTimeLog,
}

/// `idx` is the first limb at which `cur` and `prev` differ.
pub open spec fn is_first_difference(cur: Seq<u8>, prev: Seq<u8>, idx: int) -> bool {
    &&& 0 <= idx < cur.len()
    &&& cur[idx] != prev[idx]
    &&& forall|k: int| 0 <= k < idx ==> cur[k] == prev[k]
}

/// The time-zero gate: the big-endian recombination of the limbs is zero.
pub open spec fn time_zero_gate(time: Seq<u8>) -> bool {
    be_value(time) == 0
}

/// The greater-than gate on one row: the limbs before the chosen one are
/// equal, the difference at the chosen one has an inverse (it is nonzero)
/// and lies in the size-256 table.
pub open spec fn greater_than_gate(cur: Seq<u8>, prev: Seq<u8>, w: GreaterThanWitness) -> bool {
    let idx = w.first_difference_limb as int;
    &&& 0 <= idx < cur.len()
    &&& forall|k: int| 0 <= k < idx ==> cur[k] == prev[k]
    &&& w.difference == cur[idx] - prev[idx]
    &&& w.difference != 0
    &&& 0 <= w.difference < 256
}

/// Every gate holds on the assigned rows.
pub open spec fn rows_satisfied(rows: Seq<AssignedRow>) -> bool {
    forall|i: int|
        0 <= i < rows.len() ==> {
            &&& (i == 0) == (#[trigger] rows[i]).first_row
            &&& i == 0 ==> time_zero_gate(rows[i].record.time_log@)
            &&& i > 0 ==> (rows[i].greater_than matches Some(w) && greater_than_gate(
                rows[i].record.time_log@,
                rows[i - 1].record.time_log@,
                w,
            ))
        }
}

/// The rows carry the records of `trace`, in order.
pub open spec fn rows_carry(rows: Seq<AssignedRow>, trace: Seq<ConvertedTraceRecord>) -> bool {
    &&& rows.len() == trace.len()
    &&& forall|i: int| 0 <= i < rows.len() ==> (#[trigger] rows[i]).record == trace[i]
}

/// Some assignment of the trace satisfies every gate.
pub open spec fn satisfiable(trace: Seq<ConvertedTraceRecord>) -> bool {
    exists|rows: Seq<AssignedRow>| rows_carry(rows, trace) && rows_satisfied(rows)
}

/// The time of the `i`-th record, as a number.
pub open spec fn time_at(trace: Seq<ConvertedTraceRecord>, i: int) -> nat {
    be_value(trace[i].time_log@)
}

/// The first record is at time zero and the times strictly increase.
pub open spec fn time_ordered(trace: Seq<ConvertedTraceRecord>) -> bool {
    &&& trace.len() > 0 ==> time_at(trace, 0) == 0
    &&& forall|i: int| 1 <= i < trace.len() ==> #[trigger] time_at(trace, i) > time_at(trace, i - 1)
}

/// The witness that the gadget assigns for `cur` after `prev`.
pub open spec fn witness_for(cur: Seq<u8>, prev: Seq<u8>, w: GreaterThanWitness) -> bool {
    &&& is_first_difference(cur, prev, w.first_difference_limb as int)
    &&& w.difference == cur[w.first_difference_limb as int] - prev[w.first_difference_limb as int]
}

/// The leading limb weighs `256^(n-1)`.
pub proof fn lemma_be_value_first(a: Seq<u8>)
    requires
        a.len() > 0,
    ensures
        be_value(a) == a[0] * pow256((a.len() - 1) as nat) + be_value(a.drop_first()),
    decreases a.len(),
{
    let n = a.len();
    if n == 1 {
        assert(a.drop_last().len() == 0);
        assert(a.drop_first().len() == 0);
        assert(be_value(a.drop_last()) == 0);
        assert(be_value(a.drop_first()) == 0);
        assert(be_value(a) == be_value(a.drop_last()) * 256 + a.last());
        assert(pow256(0) == 1);
        assert(a.last() == a[0]);
        assert(a[0] * pow256(0) == a[0]);
    } else {
        let p = a.drop_last();
        lemma_be_value_first(p);
        assert(p.drop_first() == a.drop_first().drop_last());
        assert(a.drop_first().last() == a.last());
        assert(be_value(a) == be_value(p) * 256 + a.last());
        assert(be_value(a.drop_first()) == be_value(a.drop_first().drop_last()) * 256
            + a.drop_first().last());
        assert(p[0] == a[0]);
        let x = be_value(p.drop_first());
        let q = pow256((n - 2) as nat);
        assert(pow256((n - 1) as nat) == 256 * q);
        assert(be_value(p) == a[0] * q + x);
        assert((a[0] * q + x) * 256 + a.last() == a[0] * (256 * q) + (x * 256 + a.last()))
            by (nonlinear_arith);
        assert(be_value(a) == a[0] * (256 * q) + be_value(a.drop_first()));
    }
}

/// A trace that is greater at the first differing limb is greater as a number.
pub proof fn lemma_lex_to_numeric(a: Seq<u8>, b: Seq<u8>, idx: int)
    requires
        a.len() == b.len(),
        0 <= idx < a.len(),
        forall|k: int| 0 <= k < idx ==> a[k] == b[k],
        a[idx] > b[idx],
    ensures
        be_value(a) > be_value(b),
    decreases idx,
{
    lemma_be_value_first(a);
    lemma_be_value_first(b);
    let p = pow256((a.len() - 1) as nat);
    if idx == 0 {
        lemma_be_value_bound(b.drop_first());
        let ra = be_value(a.drop_first());
        let rb = be_value(b.drop_first());
        assert(a[0] * p + ra > b[0] * p + rb) by (nonlinear_arith)
            requires
                a[0] >= b[0] + 1,
                rb < p,
        ;
    } else {
        assert(a[0] == b[0]);
        lemma_lex_to_numeric(a.drop_first(), b.drop_first(), idx - 1);
    }
}

/// A greater number is greater at the first differing limb.
pub proof fn lemma_numeric_to_lex(a: Seq<u8>, b: Seq<u8>) -> (idx: int)
    requires
        a.len() == b.len(),
        be_value(a) > be_value(b),
    ensures
        is_first_difference(a, b, idx),
        a[idx] > b[idx],
    decreases a.len(),
{
    if a.len() == 0 {
        assert(false);
        0
    } else if a[0] > b[0] {
        0
    } else if a[0] < b[0] {
        lemma_lex_to_numeric(b, a, 0);
        0
    } else {
        lemma_be_value_first(a);
        lemma_be_value_first(b);
        let j = lemma_numeric_to_lex(a.drop_first(), b.drop_first());
        assert forall|k: int| 0 <= k < j + 1 implies a[k] == b[k] by {
            if k > 0 {
                assert(a[k] == a.drop_first()[k - 1]);
            }
        }
        j + 1
    }
}

/// Some witness passes the comparison of `cur` with `prev` if and only if
/// `cur` is the larger number.
pub proof fn lemma_gate_iff_greater(cur: Seq<u8>, prev: Seq<u8>)
    requires
        cur.len() == prev.len(),
        cur.len() <= usize::MAX,
    ensures
        (exists|w: GreaterThanWitness| greater_than_gate(cur, prev, w)) <==> be_value(cur) > be_value(
            prev,
        ),
{
    if exists|w: GreaterThanWitness| greater_than_gate(cur, prev, w) {
        let w = choose|w: GreaterThanWitness| greater_than_gate(cur, prev, w);
        lemma_lex_to_numeric(cur, prev, w.first_difference_limb as int);
    }
    if be_value(cur) > be_value(prev) {
        let idx = lemma_numeric_to_lex(cur, prev);
        let w = GreaterThanWitness {
            first_difference_limb: idx as usize,
            difference: (cur[idx] - prev[idx]) as i16,
        };
        assert(greater_than_gate(cur, prev, w));
    }
}

/// The first-difference witness passes the comparison of `cur` with `prev`
/// if and only if `cur` is the larger number.
pub proof fn lemma_computed_witness(cur: Seq<u8>, prev: Seq<u8>, w: GreaterThanWitness)
    requires
        cur.len() == prev.len(),
        witness_for(cur, prev, w),
    ensures
        greater_than_gate(cur, prev, w) <==> be_value(cur) > be_value(prev),
{
    let idx = w.first_difference_limb as int;
    if cur[idx] > prev[idx] {
        lemma_lex_to_numeric(cur, prev, idx);
    } else {
        lemma_lex_to_numeric(prev, cur, idx);
    }
}

/// What the assignment puts on row `i` of `trace`: the record, the time-zero
/// selector on the first row, and elsewhere the gadget's witness against the
/// row before.
pub open spec fn row_assigned(trace: Seq<ConvertedTraceRecord>, i: int, row: AssignedRow) -> bool {
    &&& row.record == trace[i]
    &&& row.first_row == (i == 0)
    &&& if i == 0 {
        row.greater_than is None
    } else {
        row.greater_than matches Some(w) && witness_for(
            trace[i].time_log@,
            trace[i - 1].time_log@,
            w,
        )
    }
}

/// Two consecutive records of `trace` share their time.
pub open spec fn has_repeated_time(trace: Seq<ConvertedTraceRecord>) -> bool {
    exists|i: int| 1 <= i < trace.len() && #[trigger] trace[i].time_log@ == trace[i - 1].time_log@
}

/// A trace is satisfiable exactly when its first record is at time zero and
/// its times strictly increase.
pub proof fn law_satisfiable_iff_time_ordered(trace: Seq<ConvertedTraceRecord>)
    ensures
        satisfiable(trace) <==> time_ordered(trace),
{
    if satisfiable(trace) {
        let rows = choose|rows: Seq<AssignedRow>| rows_carry(rows, trace) && rows_satisfied(rows);
        if trace.len() > 0 {
            assert(rows[0].record == trace[0]);
        }
        assert forall|i: int| 1 <= i < trace.len() implies #[trigger] time_at(trace, i) > time_at(
            trace,
            i - 1,
        ) by {
            assert(rows[i].record == trace[i]);
            assert(rows[i - 1].record == trace[i - 1]);
            let w = rows[i].greater_than->Some_0;
            assert(greater_than_gate(trace[i].time_log@, trace[i - 1].time_log@, w));
            lemma_lex_to_numeric(
                trace[i].time_log@,
                trace[i - 1].time_log@,
                w.first_difference_limb as int,
            );
        }
    }
    if time_ordered(trace) {
        assert forall|i: int| #![trigger trace[i]] 1 <= i < trace.len() implies exists|w: GreaterThanWitness|
            #[trigger] greater_than_gate(trace[i].time_log@, trace[i - 1].time_log@, w) by {
            assert(time_at(trace, i) > time_at(trace, i - 1));
            lemma_gate_iff_greater(trace[i].time_log@, trace[i - 1].time_log@);
        }
        let rows = Seq::new(
            trace.len(),
            |i: int|
                AssignedRow {
                    record: trace[i],
                    first_row: i == 0,
                    greater_than: if i == 0 {
                        None
                    } else {
                        Some(
                            choose|w: GreaterThanWitness|
                                #[trigger] greater_than_gate(
                                    trace[i].time_log@,
                                    trace[i - 1].time_log@,
                                    w,
                                ),
                        )
                    },
                },
        );
        assert(rows_carry(rows, trace));
        assert(rows_satisfied(rows));
    }
}

/// The first limb at which `cur` and `prev` differ, if any.
pub fn first_difference_limb(cur: &[u8; 8], prev: &[u8; 8]) -> (r: Option<usize>)
    ensures
        r is None <==> cur@ == prev@,
        r matches Some(i) ==> is_first_difference(cur@, prev@, i as int),
{
    let mut i: usize = 0;
    while i < 8
        invariant
            i <= 8,
            forall|k: int| 0 <= k < i ==> cur@[k] == prev@[k],
        decreases 8 - i,
    {
        if cur[i] != prev[i] {
            return Some(i);
        }
        i = i + 1;
    }
    assert(cur@ =~= prev@);
    None
}

/// The gadget's witness for time `cur` after time `prev`: the first differing
/// limb and the difference there. There is none when the times are equal.
pub fn greater_than_witness(cur: &[u8; 8], prev: &[u8; 8]) -> (r: Option<GreaterThanWitness>)
    ensures
        r is None <==> cur@ == prev@,
        r matches Some(w) ==> witness_for(cur@, prev@, w),
{
    match first_difference_limb(cur, prev) {
        None => None,
        Some(i) => Some(
            GreaterThanWitness {
                first_difference_limb: i,
                difference: cur[i] as i16 - prev[i] as i16,
            },
        ),
    }
}

/// The assignment of row `offset` of the trace; it fails where the record
/// has the same time as the one before it.
pub fn original_memory_assign(trace: &Vec<ConvertedTraceRecord>, offset: usize) -> (r: Result<
    AssignedRow,
    AssignError,
>)
    requires
        offset < trace@.len(),
    ensures
        r is Err <==> offset > 0 && trace@[offset as int].time_log@ == trace@[offset
            - 1].time_log@,
        r matches Err(e) ==> e == AssignError::EqualTimeLog,
        r matches Ok(row) ==> row_assigned(trace@, offset as int, row),
{
    let record = trace[offset];
    if offset == 0 {
        return Ok(AssignedRow { record, first_row: true, greater_than: None });
    }
    let prev = trace[offset - 1];
    match greater_than_witness(&record.time_log, &prev.time_log) {
        None => Err(AssignError::EqualTimeLog),
        Some(w) => Ok(AssignedRow { record, first_row: false, greater_than: Some(w) }),
    }
}

/// The assignment of every row of the trace; it fails where two consecutive
/// records have the same time.
pub fn assign_trace(trace: &Vec<ConvertedTraceRecord>) -> (r: Result<Vec<AssignedRow>, AssignError>)
    ensures
        r is Err <==> has_repeated_time(trace@),
        r matches Err(e) ==> e == AssignError::EqualTimeLog,
        r matches Ok(rows) ==> rows@.len() == trace@.len() && forall|i: int|
            0 <= i < rows@.len() ==> row_assigned(trace@, i, #[trigger] rows@[i]),
{
    let mut rows: Vec<AssignedRow> = Vec::new();
    let mut i: usize = 0;
    while i < trace.len()
        invariant
            i <= trace@.len(),
            rows@.len() == i,
            forall|k: int| 0 <= k < i ==> row_assigned(trace@, k, #[trigger] rows@[k]),
            forall|k: int|
                1 <= k < i ==> #[trigger] trace@[k].time_log@ != trace@[k - 1].time_log@,
        decreases trace@.len() - i,
    {
        match original_memory_assign(trace, i) {
            Err(e) => {
                return Err(e);
            },
            Ok(row) => {
                rows.push(row);
            },
        }
        i = i + 1;
    }
    assert(!has_repeated_time(trace@));
    Ok(rows)
}

/// Whether the time-zero gate holds on the limbs `time`.
fn time_zero_gate_holds(time: &[u8; 8]) -> (r: bool)
    ensures
        r == time_zero_gate(time@),
{
    B64::from_bytes(*time).is_zero()
}

/// Whether the greater-than gate holds for `cur` after `prev` with `w`.
fn greater_than_gate_holds(cur: &[u8; 8], prev: &[u8; 8], w: &GreaterThanWitness) -> (r: bool)
    ensures
        r == greater_than_gate(cur@, prev@, *w),
{
    let idx = w.first_difference_limb;
    if idx >= 8 {
        return false;
    }
    let mut k: usize = 0;
    while k < idx
        invariant
            idx == w.first_difference_limb,
            idx < 8,
            k <= idx,
            forall|j: int| 0 <= j < k ==> cur@[j] == prev@[j],
        decreases idx - k,
    {
        if cur[k] != prev[k] {
            assert(cur@[k as int] != prev@[k as int]);
            return false;
        }
        k = k + 1;
    }
    w.difference == cur[idx] as i16 - prev[idx] as i16 && w.difference != 0 && 0 <= w.difference
        && w.difference < 256
}

/// Whether every gate holds on the assigned rows.
pub fn check_rows(rows: &Vec<AssignedRow>) -> (r: bool)
    ensures
        r == rows_satisfied(rows@),
{
    let mut i: usize = 0;
    while i < rows.len()
        invariant
            i <= rows@.len(),
            forall|k: int|
                0 <= k < i ==> {
                    &&& (k == 0) == (#[trigger] rows@[k]).first_row
                    &&& k == 0 ==> time_zero_gate(rows@[k].record.time_log@)
                    &&& k > 0 ==> (rows@[k].greater_than matches Some(w) && greater_than_gate(
                        rows@[k].record.time_log@,
                        rows@[k - 1].record.time_log@,
                        w,
                    ))
                },
        decreases rows@.len() - i,
    {
        let row = rows[i];
        if row.first_row != (i == 0) {
            return false;
        }
        if i == 0 {
            if !time_zero_gate_holds(&row.record.time_log) {
                return false;
            }
        } else {
            match row.greater_than {
                None => {
                    return false;
                },
                Some(w) => {
                    if !greater_than_gate_holds(
                        &row.record.time_log,
                        &rows[i - 1].record.time_log,
                        &w,
                    ) {
                        return false;
                    }
                },
            }
        }
        i = i + 1;
    }
    true
}

/// Whether the constraint system accepts the trace: its rows are assigned
/// and every gate is checked on them.
pub fn verify_trace(trace: &Vec<ConvertedTraceRecord>) -> (r: bool)
    ensures
        r == satisfiable(trace@),
        r == time_ordered(trace@),
{
    proof {
        law_satisfiable_iff_time_ordered(trace@);
    }
    match assign_trace(trace) {
        Err(_) => {
            proof {
                let i = choose|i: int|
                    1 <= i < trace@.len() && #[trigger] trace@[i].time_log@ == trace@[i
                        - 1].time_log@;
                assert(time_at(trace@, i) == time_at(trace@, i - 1));
            }
            false
        },
        Ok(rows) => {
            let ok = check_rows(&rows);
            proof {
                if ok {
                    assert forall|i: int| 0 <= i < rows@.len() implies (#[trigger] rows@[i]).record
                        == trace@[i] by {
                        assert(row_assigned(trace@, i, rows@[i]));
                    }
                    assert(rows_carry(rows@, trace@));
                } else if time_ordered(trace@) {
                    assert forall|i: int| 0 <= i < rows@.len() implies {
                        &&& (i == 0) == (#[trigger] rows@[i]).first_row
                        &&& i == 0 ==> time_zero_gate(rows@[i].record.time_log@)
                        &&& i > 0 ==> (rows@[i].greater_than matches Some(w) && greater_than_gate(
                            rows@[i].record.time_log@,
                            rows@[i - 1].record.time_log@,
                            w,
                        ))
                    } by {
                        assert(row_assigned(trace@, i, rows@[i]));
                        if i > 0 {
                            assert(row_assigned(trace@, i - 1, rows@[i - 1]));
                            let w = rows@[i].greater_than->Some_0;
                            assert(time_at(trace@, i) > time_at(trace@, i - 1));
                            lemma_computed_witness(
                                trace@[i].time_log@,
                                trace@[i - 1].time_log@,
                                w,
                            );
                        }
                    }
                    assert(rows_satisfied(rows@));
                }
            }
            ok
        },
    }
}

/// A trace whose times are `0, 1, 2, ...` is accepted.
pub proof fn law_sequential_times_accepted(trace: Seq<ConvertedTraceRecord>)
    requires
        forall|i: int| 0 <= i < trace.len() ==> #[trigger] time_at(trace, i) == i,
    ensures
        satisfiable(trace),
{
    law_satisfiable_iff_time_ordered(trace);
}

/// A trace whose first record is not at time zero is rejected.
pub proof fn law_nonzero_start_rejected(trace: Seq<ConvertedTraceRecord>)
    requires
        trace.len() > 0,
        time_at(trace, 0) != 0,
    ensures
        !satisfiable(trace),
{
    law_satisfiable_iff_time_ordered(trace);
}

/// A trace with two consecutive records at the same time is rejected.
pub proof fn law_repeated_time_rejected(trace: Seq<ConvertedTraceRecord>, i: int)
    requires
        1 <= i < trace.len(),
        time_at(trace, i) == time_at(trace, i - 1),
    ensures
        !satisfiable(trace),
{
    law_satisfiable_iff_time_ordered(trace);
}

/// A trace whose time goes down between consecutive records is rejected.
pub proof fn law_decreasing_time_rejected(trace: Seq<ConvertedTraceRecord>, i: int)
    requires
        1 <= i < trace.len(),
        time_at(trace, i) < time_at(trace, i - 1),
    ensures
        !satisfiable(trace),
{
    law_satisfiable_iff_time_ordered(trace);
}

/// `c` is the limb form of the machine record `r`.
pub open spec fn converted_from<V: Base<S>, const S: usize>(
    c: ConvertedTraceRecord,
    r: TraceRecord<V>,
) -> bool {
    &&& c.address@ == be_encode(r.address as nat, 32)
    &&& c.time_log@ == be_encode(r.time_log as nat, 8)
    &&& c.value@ == fixed_be(r.value.value(), S as nat)
    &&& c.instruction == if r.instruction is Write {
        1u8
    } else {
        0u8
    }
}

impl ConvertedTraceRecord {
    /// The limb form of a machine record.
    pub fn from_trace_record<V: Base<S>, const S: usize>(r: &TraceRecord<V>) -> (c: Self)
        ensures
            converted_from(c, *r),
    {
        proof {
            lemma_pow256_widths();
            lemma_small_mod_u64(r.address, pow256(32));
            lemma_small_mod_u64(r.time_log, pow256(8));
        }
        let address = B256::from_u64(r.address).to_bytes();
        let time_log = B64::from_u64(r.time_log).to_bytes();
        let instruction: u8 = match r.instruction {
            MemoryInstruction::Write => 1,
            MemoryInstruction::Read => 0,
        };
        ConvertedTraceRecord { address, time_log, instruction, value: r.value.fixed_be_bytes() }
    }
}

/// The limb form of a whole machine trace.
pub fn convert_trace<V: Base<S>, const S: usize>(records: &Vec<TraceRecord<V>>) -> (r: Vec<
    ConvertedTraceRecord,
>)
    ensures
        r@.len() == records@.len(),
        forall|i: int| 0 <= i < r@.len() ==> converted_from(#[trigger] r@[i], records@[i]),
{
    let mut r: Vec<ConvertedTraceRecord> = Vec::new();
    let mut i: usize = 0;
    while i < records.len()
        invariant
            i <= records@.len(),
            r@.len() == i,
            forall|k: int| 0 <= k < i ==> converted_from(#[trigger] r@[k], records@[k]),
        decreases records@.len() - i,
    {
        r.push(ConvertedTraceRecord::from_trace_record(&records[i]));
        i = i + 1;
    }
    r
}

/// Every trace that a machine logs, in limb form, is accepted.
pub proof fn law_machine_trace_accepted<V: Base<S>, const S: usize>(
    m: RamMachine<V, S>,
    trace: Seq<ConvertedTraceRecord>,
)
    requires
        m.wf(),
        trace.len() == m.trace().len(),
        forall|i: int| 0 <= i < trace.len() ==> converted_from(#[trigger] trace[i], m.trace()[i]),
    ensures
        satisfiable(trace),
{
    m.lemma_time_logs();
    assert forall|i: int| 0 <= i < trace.len() implies #[trigger] time_at(trace, i) == i by {
        assert(converted_from(trace[i], m.trace()[i]));
        assert(m.trace()[i].time_log == i);
        lemma_pow256_widths();
        lemma_be_encode_value(i as nat, 8);
    }
    law_sequential_times_accepted(trace);
}

} // verus!
