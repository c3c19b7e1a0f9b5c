//! The memory state machine: turns an ordered stream of memory operations into
//! the rows of a memory-consistency table, with the range checks that the
//! table's increments need and the values that stitch segments together.

use vstd::prelude::*;

verus! {

/// First byte address of the RAM region.
pub const RAM_ADDR: u64 = 0xa000_0000;

/// Size in bytes of the RAM region.
pub const RAM_SIZE: u64 = 0x0800_0000;

/// A word address is a byte address shifted right by this many bits.
pub const MEM_BYTES_BITS: u32 = 3;

/// Word address of the first RAM word.
pub const RAM_W_ADDR_INIT: u32 = 0x1400_0000;

/// Word address of the last RAM word.
pub const RAM_W_ADDR_END: u32 = 0x14ff_ffff;

/// Largest increment that the table's range check admits (the range is `1..=MEMORY_MAX_DIFF`).
pub const MEMORY_MAX_DIFF: u64 = 0x100_0000;

/// Largest step distance that one row may bridge; a read adds one to it, which
/// gives `MEMORY_MAX_DIFF`.
pub const STEP_MEMORY_MAX_DIFF: u64 = 0xff_ffff;

/// Largest value of a 16-bit limb.
pub const LIMB_MAX: u16 = 0xffff;

/// One memory operation.
#[derive(Clone, Copy, Debug, PartialEq, Eq)]
pub struct MemInput {
    /// Word address.
    pub addr: u32,
    pub is_write: bool,
    pub step: u64,
    pub value: u64,
}

/// What the previous segment of the memory table ended on.
#[derive(Clone, Copy, Debug, PartialEq, Eq)]
pub struct MemPreviousSegment {
    pub addr: u32,
    pub step: u64,
    pub value: u64,
    /// Whether the first operation on `addr` must be preceded by an internal
    /// read at the same step.
    pub extra_zero_step: bool,
}

impl Default for MemPreviousSegment {
    fn default() -> (r: Self)
        ensures
            r.addr == 0 && r.step == 0 && r.value == 0 && !r.extra_zero_step,
    {
        MemPreviousSegment { addr: 0, step: 0, value: 0, extra_zero_step: false }
    }
}

/// One row of the memory table.
#[derive(Clone, Copy, Debug, PartialEq, Eq)]
pub struct MemRow {
    pub addr: u32,
    pub step: u64,
    /// Set on rows of real operations, clear on internal reads and padding.
    pub sel: bool,
    pub addr_changes: bool,
    pub increment: u64,
    pub wr: bool,
    pub value: u64,
}

/// The values that tie a segment to its neighbours.
#[derive(Clone, Copy, Debug, PartialEq, Eq)]
pub struct MemAirValues {
    pub segment_id: usize,
    pub is_first_segment: bool,
    pub is_last_segment: bool,
    pub previous_segment_step: u64,
    pub previous_segment_addr: u32,
    pub previous_segment_value: u64,
    pub segment_last_addr: u32,
    pub segment_last_step: u64,
    pub segment_last_value: u64,
    /// Distance from the RAM start to the previous segment's address, as low and high 16-bit limbs.
    pub distance_base: [u16; 2],
    /// Distance from the segment's last address to the RAM end, as low and high 16-bit limbs.
    pub distance_end: [u16; 2],
}

/// A batch of equal values for the increment range check `1..=MEMORY_MAX_DIFF`.
#[derive(Clone, Copy, Debug, PartialEq, Eq)]
pub struct RangeCheck {
    pub value: u64,
    pub multiplicity: u64,
}

/// The table of one segment together with what must be range checked for it.
/// Each limb of `air_values.distance_base` and `air_values.distance_end` is checked
/// once against `0..=0xffff`.
#[derive(Clone, Debug, PartialEq, Eq)]
pub struct MemWitness {
    pub rows: Vec<MemRow>,
    pub air_values: MemAirValues,
    pub range_checks: Vec<RangeCheck>,
}

/// Where the table stands after a prefix of the operations.
pub struct MemState {
    pub addr: u32,
    pub step: u64,
    pub value: u64,
    pub force: bool,
}

pub open spec fn start_state(prev: MemPreviousSegment) -> MemState {
    MemState { addr: prev.addr, step: prev.step, value: prev.value, force: prev.extra_zero_step }
}

/// The state after the first `k` operations.
pub open spec fn state_upto(prev: MemPreviousSegment, ops: Seq<MemInput>, k: int) -> MemState
    decreases k,
{
    if k <= 0 {
        start_state(prev)
    } else {
        let st = state_upto(prev, ops, k - 1);
        let op = ops[k - 1];
        MemState {
            addr: op.addr,
            step: op.step,
            value: op.value,
            force: st.force && op.addr != st.addr,
        }
    }
}

/// Number of internal reads, each `STEP_MEMORY_MAX_DIFF` further on, needed so that the
/// remaining step distance `diff` fits in one row.
pub open spec fn full_rows(diff: int) -> int {
    if diff > STEP_MEMORY_MAX_DIFF {
        (diff - 1) / (STEP_MEMORY_MAX_DIFF as int)
    } else {
        0
    }
}

/// An internal read or a padding row.
pub open spec fn read_row(addr: u32, step: int, value: u64, increment: int) -> MemRow {
    MemRow {
        addr,
        step: step as u64,
        sel: false,
        addr_changes: false,
        increment: increment as u64,
        wr: false,
        value,
    }
}

/// The row of a real operation that follows a row on `(last_addr, last_step)`.
pub open spec fn op_row(last_addr: u32, last_step: int, op: MemInput) -> MemRow {
    let changes = op.addr != last_addr;
    MemRow {
        addr: op.addr,
        step: op.step,
        sel: true,
        addr_changes: changes,
        increment: if changes {
            (op.addr - last_addr) as u64
        } else {
            (op.step - last_step + if op.is_write { 0int } else { 1int }) as u64
        },
        wr: op.is_write,
        value: op.value,
    }
}

/// The internal reads that bridge the state to an operation on the same address.
pub open spec fn bridge_rows(st: MemState, addr: u32, f: int) -> Seq<MemRow> {
    Seq::new(
        f as nat,
        |j: int| read_row(addr, st.step + (j + 1) * STEP_MEMORY_MAX_DIFF, st.value, MEMORY_MAX_DIFF as int),
    ) + if st.force {
        seq![read_row(addr, st.step + f * STEP_MEMORY_MAX_DIFF, st.value, 1)]
    } else {
        Seq::empty()
    }
}

/// The rows that one operation adds after the state `st`.
pub open spec fn op_block(st: MemState, op: MemInput) -> Seq<MemRow> {
    if op.addr != st.addr {
        seq![op_row(st.addr, st.step as int, op)]
    } else {
        let f = full_rows(op.step - st.step);
        bridge_rows(st, op.addr, f) + seq![op_row(st.addr, st.step + f * STEP_MEMORY_MAX_DIFF, op)]
    }
}

/// The rows of the first `k` operations, with no bound on their number.
pub open spec fn rows_upto(prev: MemPreviousSegment, ops: Seq<MemInput>, k: int) -> Seq<MemRow>
    decreases k,
{
    if k <= 0 {
        Seq::empty()
    } else {
        rows_upto(prev, ops, k - 1) + op_block(state_upto(prev, ops, k - 1), ops[k - 1])
    }
}

/// The rows of the operations that fit in a table of `num_rows` rows.
pub open spec fn fitted_rows(prev: MemPreviousSegment, ops: Seq<MemInput>, num_rows: nat) -> Seq<MemRow> {
    let all = rows_upto(prev, ops, ops.len() as int);
    if all.len() <= num_rows {
        all
    } else {
        all.take(num_rows as int)
    }
}

/// Step distance between padding rows.
pub open spec fn padding_step(is_last_segment: bool) -> int {
    if is_last_segment {
        1
    } else {
        STEP_MEMORY_MAX_DIFF as int
    }
}

/// `count` padding rows after `last`, each `step` further on.
pub open spec fn padding_rows(last: MemRow, count: nat, step: int) -> Seq<MemRow> {
    Seq::new(count, |j: int| read_row(last.addr, last.step + (j + 1) * step, last.value, step + 1))
}

/// The full table of one segment.
pub open spec fn mem_table(
    prev: MemPreviousSegment,
    ops: Seq<MemInput>,
    num_rows: nat,
    is_last_segment: bool,
) -> Seq<MemRow> {
    let used = fitted_rows(prev, ops, num_rows);
    used + padding_rows(used.last(), (num_rows - used.len()) as nat, padding_step(is_last_segment))
}

/// The address and step of the row before row `i` (the previous segment's for the first row).
pub open spec fn addr_before(prev: MemPreviousSegment, rows: Seq<MemRow>, i: int) -> u32 {
    if i == 0 {
        prev.addr
    } else {
        rows[i - 1].addr
    }
}

pub open spec fn step_before(prev: MemPreviousSegment, rows: Seq<MemRow>, i: int) -> u64 {
    if i == 0 {
        prev.step
    } else {
        rows[i - 1].step
    }
}

/// How a row relates to the row before it: on the same address the increment is
/// the step distance, plus one on a read; on a new address it is the address distance.
pub open spec fn row_follows(last_addr: u32, last_step: u64, r: MemRow) -> bool {
    &&& if r.addr == last_addr {
        &&& !r.addr_changes
        &&& last_step <= r.step
        &&& r.increment == r.step - last_step + if r.wr { 0int } else { 1int }
    } else {
        &&& r.addr_changes
        &&& last_addr < r.addr
        &&& r.increment == r.addr - last_addr
    }
    &&& 1 <= r.increment <= MEMORY_MAX_DIFF
}

pub open spec fn rows_consistent(prev: MemPreviousSegment, rows: Seq<MemRow>) -> bool {
    forall|i: int|
        0 <= i < rows.len() ==> row_follows(
            addr_before(prev, rows, i),
            step_before(prev, rows, i),
            #[trigger] rows[i],
        )
}

/// Number of rows whose increment is `v`.
pub open spec fn incr_count(rows: Seq<MemRow>, v: int) -> nat
    decreases rows.len(),
{
    if rows.len() == 0 {
        0
    } else {
        incr_count(rows.drop_last(), v) + if rows.last().increment == v { 1nat } else { 0nat }
    }
}

/// Total multiplicity reported for the value `v`.
pub open spec fn reported(checks: Seq<RangeCheck>, v: int) -> nat
    decreases checks.len(),
{
    if checks.len() == 0 {
        0
    } else {
        reported(checks.drop_last(), v) + if checks.last().value == v {
            checks.last().multiplicity as nat
        } else {
            0nat
        }
    }
}

/// The address and step that operation `k` follows.
pub open spec fn addr_of_before(prev: MemPreviousSegment, ops: Seq<MemInput>, k: int) -> u32 {
    if k == 0 {
        prev.addr
    } else {
        ops[k - 1].addr
    }
}

pub open spec fn step_of_before(prev: MemPreviousSegment, ops: Seq<MemInput>, k: int) -> u64 {
    if k == 0 {
        prev.step
    } else {
        ops[k - 1].step
    }
}

/// Operation `k` comes after the access before it on its address, by address first
/// and then by step; a write never shares the step of that access; an address never
/// jumps by more than `MEMORY_MAX_DIFF`; and its step leaves room for a table of
/// `num_rows` rows of padding.
pub open spec fn op_in_order(prev: MemPreviousSegment, ops: Seq<MemInput>, k: int, num_rows: nat) -> bool {
    let a = addr_of_before(prev, ops, k);
    let s = step_of_before(prev, ops, k);
    let op = ops[k];
    &&& a <= op.addr
    &&& op.addr - a <= MEMORY_MAX_DIFF
    &&& op.step + num_rows * STEP_MEMORY_MAX_DIFF <= u64::MAX
    &&& op.addr == a ==> s <= op.step
    &&& (op.addr == a && op.is_write) ==> s < op.step
}

/// The operations may be turned into a table of `num_rows` rows after `prev`.
pub open spec fn mem_ops_ordered(prev: MemPreviousSegment, ops: Seq<MemInput>, num_rows: nat) -> bool {
    &&& prev.step + num_rows * STEP_MEMORY_MAX_DIFF <= u64::MAX
    &&& forall|k: int| 0 <= k < ops.len() ==> #[trigger] op_in_order(prev, ops, k, num_rows)
}

/// Tells whether `ops` may be turned into a table of `num_rows` rows after `prev`.
pub fn check_mem_ops(prev: &MemPreviousSegment, ops: &[MemInput], num_rows: usize) -> (r: bool)
    ensures
        r == mem_ops_ordered(*prev, ops@, num_rows as nat),
{
    let rows = num_rows as u128;
    assert(rows <= u64::MAX);
    assert(rows * (STEP_MEMORY_MAX_DIFF as u128) <= u64::MAX * STEP_MEMORY_MAX_DIFF) by (nonlinear_arith)
        requires
            rows <= u64::MAX,
    ;
    let room: u128 = rows * STEP_MEMORY_MAX_DIFF as u128;
    if prev.step as u128 + room > u64::MAX as u128 {
        return false;
    }
    let mut last_addr = prev.addr;
    let mut last_step = prev.step;
    let mut k: usize = 0;
    while k < ops.len()
        invariant
            k <= ops@.len(),
            room == num_rows * STEP_MEMORY_MAX_DIFF,
            room <= u64::MAX * STEP_MEMORY_MAX_DIFF,
            prev.step + num_rows * STEP_MEMORY_MAX_DIFF <= u64::MAX,
            last_addr == addr_of_before(*prev, ops@, k as int),
            last_step == step_of_before(*prev, ops@, k as int),
            forall|j: int| 0 <= j < k ==> #[trigger] op_in_order(*prev, ops@, j, num_rows as nat),
        decreases ops@.len() - k,
    {
        let op = ops[k];
        let ok = last_addr <= op.addr && (op.addr - last_addr) as u64 <= MEMORY_MAX_DIFF
            && op.step as u128 + room <= u64::MAX as u128 && (op.addr != last_addr || (
        last_step <= op.step && (!op.is_write || last_step < op.step)));
        if !ok {
            assert(!op_in_order(*prev, ops@, k as int, num_rows as nat));
            return false;
        }
        assert(op_in_order(*prev, ops@, k as int, num_rows as nat));
        last_addr = op.addr;
        last_step = op.step;
        k = k + 1;
    }
    true
}

/// Each report names a value of the increment range and a positive multiplicity.
pub open spec fn checks_in_range(checks: Seq<RangeCheck>) -> bool {
    forall|i: int|
        0 <= i < checks.len() ==> 1 <= (#[trigger] checks[i]).value <= MEMORY_MAX_DIFF
            && checks[i].multiplicity > 0
}

/// The count held in the batching counters for the value `v`.
pub open spec fn slot(data: Seq<u16>, v: int) -> nat {
    if 1 <= v <= data.len() {
        data[v - 1] as nat
    } else {
        0
    }
}

/// Every row's increment is accounted for once: in a report already made, in a
/// batching counter, or in one of the three counters for internal full reads
/// (`MEMORY_MAX_DIFF`), internal zero reads (`1`) and padding (`pad_value`).
pub open spec fn tally(
    rows: Seq<MemRow>,
    checks: Seq<RangeCheck>,
    data: Seq<u16>,
    full: nat,
    zero: nat,
    pad_value: int,
    pad: nat,
) -> bool {
    forall|v: int|
        #[trigger] incr_count(rows, v) == reported(checks, v) + slot(data, v) + (if v
            == MEMORY_MAX_DIFF {
            full
        } else {
            0nat
        }) + (if v == 1 {
            zero
        } else {
            0nat
        }) + (if v == pad_value {
            pad
        } else {
            0nat
        })
}

proof fn lemma_incr_count_push(rows: Seq<MemRow>, r: MemRow)
    ensures
        forall|v: int|
            #[trigger] incr_count(rows.push(r), v) == incr_count(rows, v) + if r.increment == v {
                1nat
            } else {
                0nat
            },
{
    assert(rows.push(r).drop_last() =~= rows);
}

proof fn lemma_reported_push(checks: Seq<RangeCheck>, c: RangeCheck)
    ensures
        forall|v: int|
            #[trigger] reported(checks.push(c), v) == reported(checks, v) + if c.value == v {
                c.multiplicity as nat
            } else {
                0nat
            },
{
    assert(checks.push(c).drop_last() =~= checks);
}

/// Counts one more increment `inc`, reporting a full batch when its counter is full.
fn tally_increment(data: &mut Vec<u16>, checks: &mut Vec<RangeCheck>, inc: u64)
    requires
        1 <= inc <= MEMORY_MAX_DIFF,
        old(data)@.len() == MEMORY_MAX_DIFF,
        checks_in_range(old(checks)@),
    ensures
        final(data)@.len() == MEMORY_MAX_DIFF,
        checks_in_range(final(checks)@),
        forall|v: int|
            #[trigger] reported(final(checks)@, v) + slot(final(data)@, v) == reported(
                old(checks)@,
                v,
            ) + slot(old(data)@, v) + if v == inc {
                1nat
            } else {
                0nat
            },
{
    let idx = (inc - 1) as usize;
    let ghost before = checks@;
    if data[idx] == LIMB_MAX {
        data[idx] = 0;
        let c = RangeCheck { value: inc, multiplicity: LIMB_MAX as u64 + 1 };
        checks.push(c);
        proof {
            lemma_reported_push(before, c);
        }
    } else {
        data[idx] = data[idx] + 1;
        assert(checks@ =~= before);
    }
}

/// Reports what the batching counters hold.
fn flush_counters(data: &Vec<u16>, checks: &mut Vec<RangeCheck>)
    requires
        data@.len() == MEMORY_MAX_DIFF,
        checks_in_range(old(checks)@),
    ensures
        checks_in_range(final(checks)@),
        forall|v: int| #[trigger] reported(final(checks)@, v) == reported(old(checks)@, v) + slot(data@, v),
{
    let n = data.len();
    let mut idx: usize = 0;
    while idx < n
        invariant
            n == data@.len(),
            n == MEMORY_MAX_DIFF,
            idx <= n,
            checks_in_range(checks@),
            forall|v: int|
                #[trigger] reported(checks@, v) == reported(old(checks)@, v) + if v <= idx {
                    slot(data@, v)
                } else {
                    0nat
                },
        decreases n - idx,
    {
        let m = data[idx];
        let ghost before = checks@;
        if m != 0 {
            let c = RangeCheck { value: idx as u64 + 1, multiplicity: m as u64 };
            checks.push(c);
            proof {
                lemma_reported_push(before, c);
            }
        }
        idx = idx + 1;
    }
}

/// Reports `multiplicity` times the value `value`, if `multiplicity` is not zero.
fn report(checks: &mut Vec<RangeCheck>, value: u64, multiplicity: u64)
    requires
        1 <= value <= MEMORY_MAX_DIFF,
        checks_in_range(old(checks)@),
    ensures
        checks_in_range(final(checks)@),
        forall|v: int|
            #[trigger] reported(final(checks)@, v) == reported(old(checks)@, v) + if v == value {
                multiplicity as nat
            } else {
                0nat
            },
{
    let ghost before = checks@;
    if multiplicity > 0 {
        let c = RangeCheck { value, multiplicity };
        checks.push(c);
        proof {
            lemma_reported_push(before, c);
        }
    } else {
        assert(checks@ =~= before);
    }
}

pub open spec fn steps_bounded(rows: Seq<MemRow>, num_rows: nat) -> bool {
    forall|i: int|
        0 <= i < rows.len() ==> (#[trigger] rows[i]).step + num_rows * STEP_MEMORY_MAX_DIFF <= u64::MAX
}

proof fn lemma_consistent_push(prev: MemPreviousSegment, rows: Seq<MemRow>, r: MemRow)
    requires
        rows_consistent(prev, rows),
        row_follows(addr_before(prev, rows, rows.len() as int), step_before(prev, rows, rows.len() as int), r),
    ensures
        rows_consistent(prev, rows.push(r)),
{
    let rs = rows.push(r);
    assert forall|i: int| 0 <= i < rs.len() implies row_follows(
        addr_before(prev, rs, i),
        step_before(prev, rs, i),
        #[trigger] rs[i],
    ) by {
        if i < rows.len() {
            assert(rs[i] == rows[i]);
            assert(addr_before(prev, rs, i) == addr_before(prev, rows, i));
            assert(step_before(prev, rs, i) == step_before(prev, rows, i));
        }
    }
}

proof fn lemma_rows_upto_prefix(prev: MemPreviousSegment, ops: Seq<MemInput>, j: int, k: int)
    requires
        0 <= j <= k <= ops.len(),
    ensures
        rows_upto(prev, ops, j).len() <= rows_upto(prev, ops, k).len(),
        rows_upto(prev, ops, k).take(rows_upto(prev, ops, j).len() as int) == rows_upto(prev, ops, j),
    decreases k - j,
{
    let a = rows_upto(prev, ops, j);
    if j < k {
        lemma_rows_upto_prefix(prev, ops, j, k - 1);
        let b = rows_upto(prev, ops, k - 1);
        let c = rows_upto(prev, ops, k);
        assert(c == b + op_block(state_upto(prev, ops, k - 1), ops[k - 1]));
        assert(c.take(a.len() as int) =~= b.take(a.len() as int));
    } else {
        assert(a.take(a.len() as int) =~= a);
    }
}

proof fn lemma_full_rows(diff: int)
    requires
        diff >= 0,
    ensures
        full_rows(diff) >= 0,
        full_rows(diff) > 0 ==> full_rows(diff) * STEP_MEMORY_MAX_DIFF <= diff - 1,
        diff - full_rows(diff) * STEP_MEMORY_MAX_DIFF <= STEP_MEMORY_MAX_DIFF,
        full_rows(diff) * STEP_MEMORY_MAX_DIFF <= diff,
{
    let s = STEP_MEMORY_MAX_DIFF as int;
    if diff > s {
        let f = (diff - 1) / s;
        vstd::arithmetic::div_mod::lemma_fundamental_div_mod(diff - 1, s);
        vstd::arithmetic::div_mod::lemma_mod_pos_bound(diff - 1, s);
        assert(f >= 1) by (nonlinear_arith)
            requires
                f == (diff - 1) / s,
                diff - 1 >= s,
                s > 0,
        ;
        assert(f * s == s * f) by (nonlinear_arith);
    }
}

/// The table under construction, with the counters of its increments.
struct TableBuilder {
    rows: Vec<MemRow>,
    data: Vec<u16>,
    checks: Vec<RangeCheck>,
    full: u64,
    zero: u64,
}

impl TableBuilder {
    #[verifier::opaque]
    spec fn inv(&self, prev: MemPreviousSegment, n: nat) -> bool {
        &&& self.rows@.len() <= n
        &&& self.full + self.zero <= self.rows@.len()
        &&& self.data@.len() == MEMORY_MAX_DIFF
        &&& checks_in_range(self.checks@)
        &&& tally(self.rows@, self.checks@, self.data@, self.full as nat, self.zero as nat, 0, 0)
        &&& rows_consistent(prev, self.rows@)
        &&& steps_bounded(self.rows@, n)
    }

    fn new(Ghost(prev): Ghost<MemPreviousSegment>, n: usize) -> (b: TableBuilder)
        ensures
            b.inv(prev, n as nat),
            b.rows@.len() == 0,
    {
        let mut data: Vec<u16> = Vec::new();
        let mut i: u64 = 0;
        while i < MEMORY_MAX_DIFF
            invariant
                i <= MEMORY_MAX_DIFF,
                data@.len() == i,
                forall|j: int| 0 <= j < i ==> data@[j] == 0,
            decreases MEMORY_MAX_DIFF - i,
        {
            data.push(0);
            i = i + 1;
        }
        let b = TableBuilder { rows: Vec::new(), data, checks: Vec::new(), full: 0, zero: 0 };
        proof {
            reveal(TableBuilder::inv);
            assert forall|v: int| #[trigger] slot(b.data@, v) == 0 by {
                if 1 <= v <= b.data@.len() {
                    assert(b.data@[v - 1] == 0);
                }
            }
            assert(tally(b.rows@, b.checks@, b.data@, 0, 0, 0, 0));
        }
        b
    }

    /// Appends a row whose increment goes to a counter of its own: an internal full
    /// read, or an internal read at an unchanged step.
    fn push_internal(&mut self, Ghost(prev): Ghost<MemPreviousSegment>, n: usize, r: MemRow)
        requires
            old(self).inv(prev, n as nat),
            old(self).rows@.len() < n,
            r.increment == MEMORY_MAX_DIFF || r.increment == 1,
            row_follows(
                addr_before(prev, old(self).rows@, old(self).rows@.len() as int),
                step_before(prev, old(self).rows@, old(self).rows@.len() as int),
                r,
            ),
            r.step + n * STEP_MEMORY_MAX_DIFF <= u64::MAX,
        ensures
            final(self).inv(prev, n as nat),
            final(self).rows@ == old(self).rows@.push(r),
    {
        proof {
            reveal(TableBuilder::inv);
            lemma_incr_count_push(self.rows@, r);
            lemma_consistent_push(prev, self.rows@, r);
        }
        self.rows.push(r);
        if r.increment == MEMORY_MAX_DIFF {
            self.full = self.full + 1;
        } else {
            self.zero = self.zero + 1;
        }
    }

    /// Appends the row of a real operation.
    fn push_op(&mut self, Ghost(prev): Ghost<MemPreviousSegment>, n: usize, r: MemRow)
        requires
            old(self).inv(prev, n as nat),
            old(self).rows@.len() < n,
            row_follows(
                addr_before(prev, old(self).rows@, old(self).rows@.len() as int),
                step_before(prev, old(self).rows@, old(self).rows@.len() as int),
                r,
            ),
            r.step + n * STEP_MEMORY_MAX_DIFF <= u64::MAX,
        ensures
            final(self).inv(prev, n as nat),
            final(self).rows@ == old(self).rows@.push(r),
    {
        proof {
            reveal(TableBuilder::inv);
            lemma_incr_count_push(self.rows@, r);
            lemma_consistent_push(prev, self.rows@, r);
        }
        self.rows.push(r);
        tally_increment(&mut self.data, &mut self.checks, r.increment);
    }
}

/// Appends the rows of an operation on the address of the row before it: the
/// internal reads that bridge the step distance, then the operation itself, as
/// far as they fit in `n` rows. Returns whether all of them fit.
#[verifier::rlimit(40)]
fn push_same_addr(
    b: &mut TableBuilder,
    Ghost(prev): Ghost<MemPreviousSegment>,
    n: usize,
    op: MemInput,
    Ghost(st): Ghost<MemState>,
    last_step: u64,
    last_value: u64,
    force: bool,
) -> (fit: bool)
    requires
        old(b).inv(prev, n as nat),
        old(b).rows@.len() < n,
        op.addr == st.addr,
        last_step == st.step,
        last_value == st.value,
        force == st.force,
        st.step <= op.step,
        op.is_write ==> st.step < op.step,
        op.step + n * STEP_MEMORY_MAX_DIFF <= u64::MAX,
        addr_before(prev, old(b).rows@, old(b).rows@.len() as int) == op.addr,
        step_before(prev, old(b).rows@, old(b).rows@.len() as int) == last_step,
    ensures
        final(b).inv(prev, n as nat),
        final(b).rows@.len() <= n,
        fit ==> final(b).rows@ == old(b).rows@ + op_block(st, op),
        !fit ==> final(b).rows@.len() == n && (old(b).rows@ + op_block(st, op)).len() >= n
            && final(b).rows@ == (old(b).rows@ + op_block(st, op)).take(n as int),
{
    let ghost base = b.rows@;
    let ghost blk = op_block(st, op);
    proof {
        reveal(TableBuilder::inv);
    }
    let diff = op.step - last_step;
    let f: u64 = if diff > STEP_MEMORY_MAX_DIFF {
        (diff - 1) / STEP_MEMORY_MAX_DIFF
    } else {
        0
    };
    proof {
        lemma_full_rows(diff as int);
    }
    assert(f == full_rows(diff as int));
    let ghost fz: int = if force { 1 } else { 0 };
    assert(blk.len() == f + fz + 1);
    let room = n - b.rows.len();
    let nf: usize = if f < room as u64 {
        f as usize
    } else {
        room
    };
    let mut step = last_step;
    let mut j: usize = 0;
    assert(base + blk.take(0) =~= base);
    while j < nf
        invariant
            j <= nf,
            nf <= f,
            base.len() + nf <= n,
            blk == op_block(st, op),
            blk.len() == f + fz + 1,
            f == full_rows(diff as int),
            f * STEP_MEMORY_MAX_DIFF <= diff,
            diff == op.step - st.step,
            op.step + n * STEP_MEMORY_MAX_DIFF <= u64::MAX,
            op.addr == st.addr,
            st.value == last_value,
            b.inv(prev, n as nat),
            b.rows@ == base + blk.take(j as int),
            step == st.step + j * STEP_MEMORY_MAX_DIFF,
            op.addr == addr_before(prev, b.rows@, b.rows@.len() as int),
            step == step_before(prev, b.rows@, b.rows@.len() as int),
        decreases nf - j,
    {
        assert((j + 1) * STEP_MEMORY_MAX_DIFF <= f * STEP_MEMORY_MAX_DIFF) by (nonlinear_arith)
            requires
                j + 1 <= f,
        ;
        step = step + STEP_MEMORY_MAX_DIFF;
        let r = MemRow {
            addr: op.addr,
            step,
            sel: false,
            addr_changes: false,
            increment: MEMORY_MAX_DIFF,
            wr: false,
            value: last_value,
        };
        b.push_internal(Ghost(prev), n, r);
        assert(blk[j as int] == r);
        assert(b.rows@ =~= base + blk.take(j + 1));
        j = j + 1;
    }
    if b.rows.len() == n {
        assert((base + blk).take(n as int) =~= b.rows@);
        return false;
    }
    assert(nf == f);
    if force {
        let r = MemRow {
            addr: op.addr,
            step,
            sel: false,
            addr_changes: false,
            increment: 1,
            wr: false,
            value: last_value,
        };
        b.push_internal(Ghost(prev), n, r);
        assert(blk[f as int] == r);
        assert(b.rows@ =~= base + blk.take(f + 1));
    }
    assert(b.rows@ =~= base + blk.take(f + fz));
    if b.rows.len() == n {
        assert((base + blk).take(n as int) =~= b.rows@);
        return false;
    }
    let inc = op.step - step + if op.is_write {
        0
    } else {
        1
    };
    let r = MemRow {
        addr: op.addr,
        step: op.step,
        sel: true,
        addr_changes: false,
        increment: inc,
        wr: op.is_write,
        value: op.value,
    };
    b.push_op(Ghost(prev), n, r);
    assert(blk[f + fz] == r);
    assert(b.rows@ =~= base + blk);
    proof {
        reveal(TableBuilder::inv);
    }
    true
}

/// Rows of the operations that fit in `n` rows, counting every increment.
#[verifier::rlimit(40)]
fn fill_op_rows(ops: &[MemInput], prev: &MemPreviousSegment, n: usize) -> (b: TableBuilder)
    requires
        n > 0,
        ops@.len() > 0,
        mem_ops_ordered(*prev, ops@, n as nat),
    ensures
        b.inv(*prev, n as nat),
        b.rows@ == fitted_rows(*prev, ops@, n as nat),
        1 <= b.rows@.len() <= n,
{
    let mut b = TableBuilder::new(Ghost(*prev), n);
    let mut last_addr = prev.addr;
    let mut last_step = prev.step;
    let mut last_value = prev.value;
    let mut force = prev.extra_zero_step;
    let mut done = false;
    let mut k: usize = 0;
    while k < ops.len() && !done
        invariant
            n > 0,
            ops@.len() > 0,
            k <= ops@.len(),
            mem_ops_ordered(*prev, ops@, n as nat),
            b.inv(*prev, n as nat),
            !done ==> {
                &&& b.rows@.len() <= n
                &&& b.rows@ == rows_upto(*prev, ops@, k as int)
                &&& state_upto(*prev, ops@, k as int) == (MemState {
                    addr: last_addr,
                    step: last_step,
                    value: last_value,
                    force,
                })
                &&& last_addr == addr_before(*prev, b.rows@, b.rows@.len() as int)
                &&& last_step == step_before(*prev, b.rows@, b.rows@.len() as int)
                &&& k > 0 ==> b.rows@.len() > 0
            },
            done ==> {
                &&& b.rows@.len() == n
                &&& rows_upto(*prev, ops@, k as int).len() >= n
                &&& b.rows@ == rows_upto(*prev, ops@, k as int).take(n as int)
            },
        decreases ops@.len() - k, if done { 0int } else { 1int },
    {
        if b.rows.len() >= n {
            done = true;
            assert(b.rows@.take(n as int) =~= b.rows@);
        } else {
            let op = ops[k];
            let ghost st = state_upto(*prev, ops@, k as int);
            let ghost base = b.rows@;
            assert(op_in_order(*prev, ops@, k as int, n as nat));
            assert(rows_upto(*prev, ops@, k + 1) == base + op_block(st, op));
            if op.addr != last_addr {
                let r = MemRow {
                    addr: op.addr,
                    step: op.step,
                    sel: true,
                    addr_changes: true,
                    increment: (op.addr - last_addr) as u64,
                    wr: op.is_write,
                    value: op.value,
                };
                b.push_op(Ghost(*prev), n, r);
                assert(r == op_row(st.addr, st.step as int, op));
                assert(b.rows@ =~= rows_upto(*prev, ops@, k + 1));
                last_addr = op.addr;
                last_step = op.step;
                last_value = op.value;
                assert(b.rows@.last() == r);
                assert(last_addr == addr_before(*prev, b.rows@, b.rows@.len() as int));
                assert(last_step == step_before(*prev, b.rows@, b.rows@.len() as int));
                assert(state_upto(*prev, ops@, k + 1) == (MemState {
                    addr: last_addr,
                    step: last_step,
                    value: last_value,
                    force,
                }));
            } else {
                let fit = push_same_addr(&mut b, Ghost(*prev), n, op, Ghost(st), last_step, last_value, force);
                if fit {
                    let ghost blk = op_block(st, op);
                    assert(blk.last().step == op.step);
                    assert(b.rows@.last() == blk.last());
                    assert(blk.last().addr == op.addr);
                    last_step = op.step;
                    last_value = op.value;
                    force = false;
                    assert(last_addr == addr_before(*prev, b.rows@, b.rows@.len() as int));
                    assert(last_step == step_before(*prev, b.rows@, b.rows@.len() as int));
                    assert(state_upto(*prev, ops@, k + 1) == (MemState {
                        addr: last_addr,
                        step: last_step,
                        value: last_value,
                        force,
                    }));
                } else {
                    done = true;
                }
            }
            k = k + 1;
        }
    }
    proof {
        let len = ops@.len() as int;
        lemma_rows_upto_prefix(*prev, ops@, k as int, len);
        let all = rows_upto(*prev, ops@, len);
        if done {
            assert(all.take(n as int) =~= rows_upto(*prev, ops@, k as int).take(n as int));
            if all.len() <= n {
                assert(all.take(n as int) =~= all);
            }
        }
    }
    b
}

/// `to - from`, modulo 2^32.
pub open spec fn wrapping_distance(from: u32, to: u32) -> u32 {
    if from <= to {
        (to - from) as u32
    } else {
        (to + 0x1_0000_0000 - from) as u32
    }
}

/// The low and high 16-bit limbs of `d`.
pub open spec fn limbs(d: u32) -> Seq<u16> {
    seq![(d % 0x10000) as u16, (d / 0x10000) as u16]
}

/// The values that tie a segment whose table ends on `last` to its neighbours.
pub open spec fn air_values_of(
    av: MemAirValues,
    prev: MemPreviousSegment,
    segment_id: usize,
    is_last_segment: bool,
    last: MemRow,
) -> bool {
    &&& av.segment_id == segment_id
    &&& av.is_first_segment == (segment_id == 0)
    &&& av.is_last_segment == is_last_segment
    &&& av.previous_segment_step == prev.step
    &&& av.previous_segment_addr == prev.addr
    &&& av.previous_segment_value == prev.value
    &&& av.segment_last_addr == last.addr
    &&& av.segment_last_step == last.step
    &&& av.segment_last_value == last.value
    &&& av.distance_base@ == limbs(wrapping_distance(RAM_W_ADDR_INIT, prev.addr))
    &&& av.distance_end@ == limbs(wrapping_distance(last.addr, RAM_W_ADDR_END))
}

fn distance(from: u32, to: u32) -> (r: u32)
    ensures
        r == wrapping_distance(from, to),
{
    if from <= to {
        to - from
    } else {
        ((to as u64 + 0x1_0000_0000) - from as u64) as u32
    }
}

fn split_limbs(d: u32) -> (r: [u16; 2])
    ensures
        r@ == limbs(d),
{
    let r = [(d % 0x10000) as u16, (d / 0x10000) as u16];
    assert(r@ =~= limbs(d));
    r
}

/// The memory state machine of one table size.
pub struct MemSM {
    /// Number of rows of every memory table.
    pub num_rows: usize,
}

impl MemSM {
    pub fn new(num_rows: usize) -> (r: MemSM)
        ensures
            r.num_rows == num_rows,
    {
        MemSM { num_rows }
    }

    /// Last byte address of the RAM region.
    pub fn get_to_addr() -> (r: u32)
        ensures
            r == RAM_ADDR + RAM_SIZE - 1,
    {
        (RAM_ADDR + RAM_SIZE - 1) as u32
    }

    /// First and last word addresses of the RAM region.
    pub fn get_addr_range(&self) -> (r: (u32, u32))
        ensures
            r == (RAM_W_ADDR_INIT, RAM_W_ADDR_END),
            r.0 == RAM_ADDR / 8 && r.1 == (RAM_ADDR + RAM_SIZE - 1) / 8,
    {
        (RAM_W_ADDR_INIT, RAM_W_ADDR_END)
    }

    /// Builds the memory table of one segment from its operations, in order.
    ///
    /// Each operation gets a row; an operation on the address of the row before it
    /// that lies more than `STEP_MEMORY_MAX_DIFF` steps further on is preceded by
    /// internal reads of the last value, each `STEP_MEMORY_MAX_DIFF` steps on, and,
    /// where the previous segment asks for it, by one internal read at an unchanged
    /// step. Rows that do not fit in the table are dropped. The rest of the table
    /// is padding on the last row's address and value, one step apart in the last
    /// segment and `STEP_MEMORY_MAX_DIFF` apart in any other. Every row's increment
    /// is reported for the range check once.
    #[verifier::rlimit(40)]
    pub fn compute_witness(
        &self,
        mem_ops: &[MemInput],
        segment_id: usize,
        is_last_segment: bool,
        previous_segment: &MemPreviousSegment,
    ) -> (w: MemWitness)
        requires
            self.num_rows > 0,
            mem_ops@.len() > 0,
            mem_ops_ordered(*previous_segment, mem_ops@, self.num_rows as nat),
        ensures
            w.rows@ == mem_table(*previous_segment, mem_ops@, self.num_rows as nat, is_last_segment),
            w.rows@.len() == self.num_rows,
            rows_consistent(*previous_segment, w.rows@),
            checks_in_range(w.range_checks@),
            forall|v: int| #[trigger] reported(w.range_checks@, v) == incr_count(w.rows@, v),
            air_values_of(w.air_values, *previous_segment, segment_id, is_last_segment, w.rows@.last()),
            forall|i: int|
                fitted_rows(*previous_segment, mem_ops@, self.num_rows as nat).len() <= i
                    < self.num_rows ==> !(#[trigger] w.rows@[i]).sel && w.rows@[i].step == w.rows@[i
                    - 1].step + padding_step(is_last_segment),
    {
        let n = self.num_rows;
        let ghost prev = *previous_segment;
        let b = fill_op_rows(mem_ops, previous_segment, n);
        proof {
            reveal(TableBuilder::inv);
        }
        let TableBuilder { rows, data, checks, full, zero } = b;
        let mut rows = rows;
        let mut checks = checks;
        let ghost fitted = rows@;
        let count = rows.len();
        let last = rows[count - 1];
        let p: u64 = if is_last_segment {
            1
        } else {
            STEP_MEMORY_MAX_DIFF
        };
        assert(p == padding_step(is_last_segment));
        let pv = p + 1;
        proof {
            assert(last.step + n * STEP_MEMORY_MAX_DIFF <= u64::MAX);
            assert(tally(rows@, checks@, data@, full as nat, zero as nat, pv as int, 0));
        }
        let mut step = last.step;
        let mut j = count;
        assert(fitted + padding_rows(last, 0, p as int) =~= rows@);
        while j < n
            invariant
                count <= j <= n,
                count == fitted.len(),
                count >= 1,
                last == fitted.last(),
                p == padding_step(is_last_segment),
                pv == p + 1,
                last.step + n * STEP_MEMORY_MAX_DIFF <= u64::MAX,
                rows@ == fitted + padding_rows(last, (j - count) as nat, p as int),
                step == last.step + (j - count) * p,
                rows@.len() == j,
                forall|i: int|
                    count <= i < j ==> !(#[trigger] rows@[i]).sel && rows@[i].step == rows@[i - 1].step
                        + p,
                rows_consistent(prev, rows@),
                last.addr == addr_before(prev, rows@, rows@.len() as int),
                step == step_before(prev, rows@, rows@.len() as int),
                data@.len() == MEMORY_MAX_DIFF,
                tally(rows@, checks@, data@, full as nat, zero as nat, pv as int, (j - count) as nat),
            decreases n - j,
        {
            assert((j - count + 1) * p <= n * STEP_MEMORY_MAX_DIFF) by (nonlinear_arith)
                requires
                    j + 1 <= n,
                    count >= 1,
                    p <= STEP_MEMORY_MAX_DIFF,
            ;
            step = step + p;
            let r = MemRow {
                addr: last.addr,
                step,
                sel: false,
                addr_changes: false,
                increment: pv,
                wr: false,
                value: last.value,
            };
            let ghost before = rows@;
            rows.push(r);
            proof {
                lemma_incr_count_push(before, r);
                lemma_consistent_push(prev, before, r);
                assert(rows@ =~= fitted + padding_rows(last, (j + 1 - count) as nat, p as int));
                assert(rows@[j as int - 1].step == step - p);
            }
            j = j + 1;
        }
        report(&mut checks, pv, (n - count) as u64);
        flush_counters(&data, &mut checks);
        report(&mut checks, MEMORY_MAX_DIFF, full);
        report(&mut checks, 1, zero);
        let final_row = rows[n - 1];
        let air_values = MemAirValues {
            segment_id,
            is_first_segment: segment_id == 0,
            is_last_segment,
            previous_segment_step: previous_segment.step,
            previous_segment_addr: previous_segment.addr,
            previous_segment_value: previous_segment.value,
            segment_last_addr: final_row.addr,
            segment_last_step: final_row.step,
            segment_last_value: final_row.value,
            distance_base: split_limbs(distance(RAM_W_ADDR_INIT, previous_segment.addr)),
            distance_end: split_limbs(distance(final_row.addr, RAM_W_ADDR_END)),
        };
        MemWitness { rows, air_values, range_checks: checks }
    }
}

} // verus!
