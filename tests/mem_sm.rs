use zisk_witness::mem_sm::{
    check_mem_ops, MemInput, MemPreviousSegment, MemRow, MemSM, MEMORY_MAX_DIFF, RAM_W_ADDR_END,
    RAM_W_ADDR_INIT, STEP_MEMORY_MAX_DIFF,
};
use zisk_witness::mem_sm::RangeCheck;

fn write(addr: u32, step: u64, value: u64) -> MemInput {
    MemInput { addr, is_write: true, step, value }
}

fn read(addr: u32, step: u64, value: u64) -> MemInput {
    MemInput { addr, is_write: false, step, value }
}

fn prev(addr: u32, step: u64, value: u64, extra_zero_step: bool) -> MemPreviousSegment {
    MemPreviousSegment { addr, step, value, extra_zero_step }
}

fn reported(checks: &[RangeCheck], v: u64) -> u64 {
    checks.iter().filter(|c| c.value == v).map(|c| c.multiplicity).sum()
}

fn counted(rows: &[MemRow], v: u64) -> u64 {
    rows.iter().filter(|r| r.increment == v).count() as u64
}

/// Every row follows the one before it as the table's laws ask.
fn assert_consistent(p: &MemPreviousSegment, rows: &[MemRow]) {
    let (mut la, mut ls) = (p.addr, p.step);
    for r in rows {
        if r.addr == la {
            assert!(!r.addr_changes);
            assert!(r.step >= ls);
            assert_eq!(r.increment, r.step - ls + if r.wr { 0 } else { 1 });
        } else {
            assert!(r.addr_changes);
            assert!(r.addr > la);
            assert_eq!(r.increment, (r.addr - la) as u64);
        }
        assert!(r.increment >= 1 && r.increment <= MEMORY_MAX_DIFF);
        la = r.addr;
        ls = r.step;
    }
}

fn assert_accounted(rows: &[MemRow], checks: &[RangeCheck]) {
    let total: u64 = checks.iter().map(|c| c.multiplicity).sum();
    assert_eq!(total, rows.len() as u64);
    for r in rows {
        assert_eq!(reported(checks, r.increment), counted(rows, r.increment));
    }
}

#[test]
fn two_operations_fill_eight_rows() {
    let p = prev(0x100, 0, 0, false);
    let ops = [write(0x100, 10, 5), read(0x100, 10, 5)];
    let sm = MemSM::new(8);
    assert!(check_mem_ops(&p, &ops, 8));
    let w = sm.compute_witness(&ops, 3, false, &p);
    assert_eq!(w.rows.len(), 8);
    let r0 = w.rows[0];
    assert!(r0.sel && r0.wr && !r0.addr_changes);
    assert_eq!((r0.addr, r0.step, r0.increment, r0.value), (0x100, 10, 10, 5));
    let r1 = w.rows[1];
    assert!(r1.sel && !r1.wr && !r1.addr_changes);
    assert_eq!((r1.addr, r1.step, r1.increment, r1.value), (0x100, 10, 1, 5));
    for i in 2..8 {
        let r = w.rows[i];
        assert!(!r.sel && !r.wr && !r.addr_changes);
        assert_eq!((r.addr, r.value), (0x100, 5));
        assert!(r.step > w.rows[i - 1].step);
        assert_eq!(r.step, 10 + (i as u64 - 1) * STEP_MEMORY_MAX_DIFF);
        assert_eq!(r.increment, STEP_MEMORY_MAX_DIFF + 1);
    }
    assert_eq!(reported(&w.range_checks, 10), 1);
    assert_eq!(reported(&w.range_checks, 1), 1);
    assert_eq!(reported(&w.range_checks, MEMORY_MAX_DIFF), 6);
    assert_consistent(&p, &w.rows);
    assert_accounted(&w.rows, &w.range_checks);
    let av = w.air_values;
    assert_eq!(av.segment_id, 3);
    assert!(!av.is_first_segment && !av.is_last_segment);
    assert_eq!((av.previous_segment_addr, av.previous_segment_step, av.previous_segment_value), (0x100, 0, 0));
    assert_eq!((av.segment_last_addr, av.segment_last_step, av.segment_last_value), (0x100, w.rows[7].step, 5));
}

#[test]
fn last_segment_pads_one_step_apart() {
    let p = prev(RAM_W_ADDR_INIT, 0, 0, false);
    let ops = [write(RAM_W_ADDR_INIT + 2, 7, 9)];
    let w = MemSM::new(4).compute_witness(&ops, 0, true, &p);
    let r0 = w.rows[0];
    assert!(r0.addr_changes && r0.sel && r0.wr);
    assert_eq!(r0.increment, 2);
    assert_eq!(r0.step, 7);
    for i in 1..4 {
        assert_eq!(w.rows[i].step, 7 + i as u64);
        assert_eq!(w.rows[i].increment, 2);
        assert_eq!((w.rows[i].addr, w.rows[i].value), (RAM_W_ADDR_INIT + 2, 9));
    }
    assert!(w.air_values.is_first_segment && w.air_values.is_last_segment);
    assert_eq!(w.air_values.segment_last_step, 10);
    assert_eq!(reported(&w.range_checks, 2), 4);
    assert_accounted(&w.rows, &w.range_checks);
}

#[test]
fn distances_split_into_limbs() {
    let a = RAM_W_ADDR_INIT + 0x1_0005;
    let p = prev(a, 0, 0, false);
    let ops = [write(a, 1, 1)];
    let w = MemSM::new(2).compute_witness(&ops, 1, true, &p);
    assert_eq!(w.air_values.distance_base, [0x0005, 0x0001]);
    let end = RAM_W_ADDR_END - a;
    assert_eq!(w.air_values.distance_end, [(end & 0xffff) as u16, (end >> 16) as u16]);
}

#[test]
fn long_gap_is_bridged_by_internal_reads() {
    let s = STEP_MEMORY_MAX_DIFF;
    let p = prev(0x200, 100, 42, false);
    let ops = [read(0x200, 100 + 2 * s + 5, 42)];
    let w = MemSM::new(6).compute_witness(&ops, 1, false, &p);
    for i in 0..2 {
        let r = w.rows[i];
        assert!(!r.sel && !r.wr);
        assert_eq!(r.step, 100 + (i as u64 + 1) * s);
        assert_eq!(r.increment, s + 1);
        assert_eq!(r.value, 42);
    }
    let r = w.rows[2];
    assert!(r.sel && !r.wr);
    assert_eq!(r.step, 100 + 2 * s + 5);
    assert_eq!(r.increment, 6);
    assert_consistent(&p, &w.rows);
    assert_accounted(&w.rows, &w.range_checks);
}

#[test]
fn gap_of_exactly_the_maximum_needs_no_internal_read() {
    let s = STEP_MEMORY_MAX_DIFF;
    let p = prev(0x200, 0, 0, false);
    let ops = [read(0x200, s, 0)];
    let w = MemSM::new(2).compute_witness(&ops, 1, true, &p);
    assert!(w.rows[0].sel);
    assert_eq!(w.rows[0].increment, MEMORY_MAX_DIFF);
}

#[test]
fn extra_zero_step_inserts_a_read_at_the_same_step() {
    let p = prev(0x300, 50, 8, true);
    let ops = [write(0x300, 60, 9), write(0x300, 70, 10)];
    let w = MemSM::new(5).compute_witness(&ops, 2, false, &p);
    let z = w.rows[0];
    assert!(!z.sel && !z.wr);
    assert_eq!((z.step, z.increment, z.value), (50, 1, 8));
    assert_eq!((w.rows[1].step, w.rows[1].increment), (60, 10));
    assert_eq!((w.rows[2].step, w.rows[2].increment), (70, 10));
    assert_eq!(reported(&w.range_checks, 1), 1);
    assert_consistent(&p, &w.rows);
    assert_accounted(&w.rows, &w.range_checks);
}

#[test]
fn extra_zero_step_waits_for_the_first_same_address() {
    let p = prev(0x300, 50, 8, true);
    let ops = [write(0x301, 60, 9), write(0x301, 61, 10)];
    let w = MemSM::new(4).compute_witness(&ops, 2, false, &p);
    assert!(w.rows[0].sel && w.rows[0].addr_changes);
    let z = w.rows[1];
    assert!(!z.sel);
    assert_eq!((z.step, z.increment, z.value), (60, 1, 9));
    assert_eq!((w.rows[2].step, w.rows[2].increment), (61, 1));
}

#[test]
fn operations_past_the_table_are_dropped() {
    let p = prev(0x10, 0, 0, false);
    let ops = [write(0x10, 1, 1), write(0x10, 2, 2), write(0x10, 3, 3)];
    let w = MemSM::new(2).compute_witness(&ops, 1, false, &p);
    assert_eq!(w.rows.len(), 2);
    assert_eq!(w.rows[1].value, 2);
    assert_eq!(w.air_values.segment_last_value, 2);
    assert_eq!(w.air_values.segment_last_step, 2);
}

#[test]
fn internal_reads_that_overflow_the_table_are_cut() {
    let s = STEP_MEMORY_MAX_DIFF;
    let p = prev(0x10, 0, 3, false);
    let ops = [write(0x10, 5 * s + 1, 4)];
    let w = MemSM::new(3).compute_witness(&ops, 1, false, &p);
    for i in 0..3 {
        assert!(!w.rows[i].sel);
        assert_eq!(w.rows[i].step, (i as u64 + 1) * s);
    }
    assert_eq!(w.air_values.segment_last_value, 3);
    assert_eq!(reported(&w.range_checks, MEMORY_MAX_DIFF), 3);
}

#[test]
fn many_equal_increments_are_batched_exactly() {
    let n: usize = 70_000;
    let p = prev(0x10, 0, 0, false);
    let ops: Vec<MemInput> = (0..n).map(|_| read(0x10, 0, 0)).collect();
    let w = MemSM::new(n).compute_witness(&ops, 1, true, &p);
    assert_eq!(reported(&w.range_checks, 1), n as u64);
    assert!(w.range_checks.iter().all(|c| c.multiplicity > 0));
}

#[test]
fn disordered_operations_are_refused() {
    let p = prev(0x10, 10, 0, false);
    assert!(!check_mem_ops(&p, &[read(0x10, 9, 0)], 4));
    assert!(!check_mem_ops(&p, &[read(0x0f, 20, 0)], 4));
    assert!(!check_mem_ops(&p, &[write(0x10, 10, 0)], 4));
    assert!(check_mem_ops(&p, &[read(0x10, 10, 0)], 4));
    assert!(!check_mem_ops(&p, &[read(0x10 + MEMORY_MAX_DIFF as u32 + 1, 0, 0)], 4));
    assert!(!check_mem_ops(&prev(0x10, u64::MAX, 0, false), &[], 1));
}

#[test]
fn address_range_of_ram() {
    assert_eq!(MemSM::get_to_addr(), 0xa7ff_ffff);
    assert_eq!(MemSM::new(1).get_addr_range(), (0x1400_0000, 0x14ff_ffff));
    assert_eq!(MemPreviousSegment::default(), prev(0, 0, 0, false));
}
