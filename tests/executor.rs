use zisk_witness::asm_min_traces::{EmuTrace, EmuTraceStart};
use zisk_witness::executor::{
    counting_path, fold_public_values, minimal_trace_execution_mode, public_values_in_range,
    traces_are_valid, CountingPath, MinimalTraceExecutionMode, TaskKind, WitnessTask,
    ZiskExecutionResult, ZiskExecutor, WITNESS_STAGE,
};
use zisk_witness::plan::{
    chunks_to_execute, CheckPoint, ChunkId, InstanceRegistry, InstanceType, Plan,
};

const MAIN_AIR: usize = 5;

fn trace(steps: u64) -> EmuTrace {
    EmuTrace {
        start_state: EmuTraceStart { pc: 0, sp: 0, c: 0, step: 0, regs: [0; 32] },
        last_c: 0,
        end: false,
        steps,
        mem_reads: vec![],
    }
}

fn plan(air_id: usize, instance_type: InstanceType, check_point: CheckPoint, last: Option<bool>) -> Plan {
    Plan { airgroup_id: 0, air_id, instance_type, check_point, is_last_segment: last, global_id: None }
}

fn main_plan(last: bool) -> Plan {
    plan(MAIN_AIR, InstanceType::Instance, CheckPoint::Single(ChunkId(0)), Some(last))
}

fn task(global_id: usize, kind: TaskKind, created: bool) -> WitnessTask {
    WitnessTask { global_id, kind, created }
}

fn secn_plans() -> Vec<Vec<Plan>> {
    vec![
        vec![
            plan(7, InstanceType::Instance, CheckPoint::Multiple(vec![ChunkId(0), ChunkId(2)]), None),
            plan(8, InstanceType::Table, CheckPoint::NoChunk, None),
        ],
        vec![plan(9, InstanceType::Instance, CheckPoint::Single(ChunkId(1)), None)],
    ]
}

/// Two main plans, then a secondary machine with an instance and a table, and a
/// second machine with one instance.
fn planned() -> (ZiskExecutor, Vec<usize>) {
    let mut ex = ZiskExecutor::new(vec![MAIN_AIR]);
    let mut publics = vec![0u32; 2];
    let ids = ex.execute(
        MinimalTraceExecutionMode::Emulator,
        vec![trace(1), trace(2), trace(3)],
        vec![main_plan(false), main_plan(true)],
        secn_plans(),
        &[],
        &mut publics,
    );
    (ex, ids)
}

#[test]
fn execute_stores_traces_folds_publics_and_assigns_ids() {
    let mut ex = ZiskExecutor::new(vec![MAIN_AIR]);
    assert_eq!(ex.get_execution_result(), ZiskExecutionResult::default());
    let mut publics = vec![0u32; 4];
    let ids = ex.execute(
        MinimalTraceExecutionMode::AsmWithCounter,
        vec![trace(3), trace(4), trace(10)],
        vec![main_plan(true)],
        secn_plans(),
        &[(1, 10), (3, 30), (1, 11)],
        &mut publics,
    );
    assert_eq!(ids, vec![0, 1, 2, 3]);
    assert_eq!(ex.get_execution_result().executed_steps, 17);
    assert_eq!(ex.min_traces().len(), 3);
    assert_eq!(publics, vec![0, 11, 0, 30]);
    assert_eq!(ex.get_counting(), CountingPath::WhileTracing);
}

#[test]
fn emulator_runs_are_counted_after_tracing() {
    let (ex, _) = planned();
    assert_eq!(ex.get_counting(), CountingPath::AfterTracing);
    assert_eq!(ex.get_execution_result().executed_steps, 6);
}

#[test]
fn empty_or_overflowing_traces_are_not_valid() {
    assert!(!traces_are_valid(&vec![]));
    assert!(!traces_are_valid(&vec![trace(u64::MAX), trace(1)]));
    assert!(traces_are_valid(&vec![trace(u64::MAX - 1), trace(1)]));
}

#[test]
fn every_plan_gets_one_consecutive_id() {
    let (_, ids) = planned();
    assert_eq!(ids, vec![0, 1, 2, 3, 4]);
}

#[test]
fn ids_continue_after_earlier_registrations() {
    let (mut ex, _) = planned();
    let mut publics = vec![];
    let ids = ex.execute(
        MinimalTraceExecutionMode::Emulator,
        vec![trace(1)],
        vec![main_plan(true)],
        vec![vec![], vec![plan(9, InstanceType::Instance, CheckPoint::NoChunk, None)]],
        &[],
        &mut publics,
    );
    assert_eq!(ids, vec![5, 6]);
}

#[test]
fn witness_tasks_follow_the_plans() {
    let (mut ex, ids) = planned();
    let tasks = ex.calculate_witness(WITNESS_STAGE, &ids);
    assert_eq!(
        tasks,
        vec![
            task(0, TaskKind::Main, true),
            task(1, TaskKind::Main, true),
            task(2, TaskKind::Instance, true),
            task(3, TaskKind::Table, true),
            task(4, TaskKind::Instance, true),
        ]
    );
    let m = ex.main_instance(1).unwrap();
    assert!(m.is_last_segment);
    assert_eq!(m.ictx.global_id, 1);
    let s = ex.secn_instance(4).unwrap();
    assert_eq!(s.sm_index, 1);
    assert_eq!(s.ictx.plan.air_id, 9);
    assert_eq!(s.ictx.plan.global_id, Some(4));
}

#[test]
fn a_second_request_finds_the_cached_instance() {
    let (mut ex, _) = planned();
    assert_eq!(ex.claim_instance(2), task(2, TaskKind::Instance, true));
    assert!(ex.can_claim(2));
    assert_eq!(ex.claim_instance(2), task(2, TaskKind::Instance, false));
    assert_eq!(ex.claim_instance(0), task(0, TaskKind::Main, true));
    assert_eq!(ex.claim_instance(0), task(0, TaskKind::Main, false));
    assert_eq!(ex.secn_instance(2).unwrap().ictx.plan.air_id, 7);
}

#[test]
fn other_stages_compute_nothing() {
    let (mut ex, ids) = planned();
    assert_eq!(ex.calculate_witness(2, &ids), vec![]);
    assert!(ex.main_instance(0).is_none());
}

#[test]
fn unknown_ids_cannot_be_claimed() {
    let (ex, ids) = planned();
    assert!(ex.can_claim(4));
    assert!(!ex.can_claim(5));
    assert!(ex.can_calculate_witness(WITNESS_STAGE, &ids));
    assert!(ex.can_calculate_witness(WITNESS_STAGE, &[2, 2, 0]));
    assert!(!ex.can_calculate_witness(WITNESS_STAGE, &[0, 9]));
    assert!(ex.can_calculate_witness(2, &[9]));
}

#[test]
fn main_plan_without_segment_flag_cannot_be_claimed() {
    let mut ex = ZiskExecutor::new(vec![MAIN_AIR]);
    let bad = plan(MAIN_AIR, InstanceType::Instance, CheckPoint::NoChunk, None);
    let ids = ex.execute(MinimalTraceExecutionMode::Emulator, vec![trace(1)], vec![bad], vec![], &[], &mut vec![]);
    assert!(!ex.can_claim(ids[0]));
}

#[test]
fn main_airs_decide_the_kind_of_claim() {
    let mut other = ZiskExecutor::new(vec![]);
    let ids = other.execute(MinimalTraceExecutionMode::Emulator, vec![trace(1)], vec![main_plan(true)], vec![], &[], &mut vec![]);
    assert!(!other.can_claim(ids[0]));
    let mut ex = ZiskExecutor::new(vec![MAIN_AIR]);
    let ids = ex.execute(MinimalTraceExecutionMode::Emulator, vec![trace(1)], vec![main_plan(true)], vec![], &[], &mut vec![]);
    assert!(ex.can_claim(ids[0]));
    assert_eq!(ex.claim_instance(ids[0]), task(0, TaskKind::Main, true));
}

#[test]
fn debug_needs_built_secondary_instances() {
    let (mut ex, _) = planned();
    assert!(!ex.can_debug(&[0, 2]));
    assert!(!ex.can_debug(&[9]));
    ex.claim_instance(2);
    assert!(ex.can_debug(&[0, 2]));
    assert_eq!(ex.debug(&[0, 2]), vec![task(0, TaskKind::Main, false), task(2, TaskKind::Instance, false)]);
}

#[test]
fn chunk_bitmap_of_check_points() {
    assert_eq!(chunks_to_execute(3, &CheckPoint::NoChunk), Some(vec![false, false, false]));
    assert_eq!(chunks_to_execute(3, &CheckPoint::Single(ChunkId(1))), Some(vec![false, true, false]));
    assert_eq!(
        chunks_to_execute(4, &CheckPoint::Multiple(vec![ChunkId(3), ChunkId(0), ChunkId(3)])),
        Some(vec![true, false, false, true])
    );
    assert_eq!(chunks_to_execute(3, &CheckPoint::Single(ChunkId(3))), None);
    assert_eq!(chunks_to_execute(2, &CheckPoint::Multiple(vec![ChunkId(0), ChunkId(5)])), None);
}

#[test]
fn public_values_are_written_at_their_index() {
    let mut publics = vec![0u32; 4];
    assert!(public_values_in_range(&[(1, 10), (3, 30), (1, 11)], 4));
    fold_public_values(&mut publics, &[(1, 10), (3, 30), (1, 11)]);
    assert_eq!(publics, vec![0, 11, 0, 30]);
    assert!(!public_values_in_range(&[(0, 1), (4, 2)], 4));
}

#[test]
fn registry_hands_out_ids_in_sequence() {
    let mut r = InstanceRegistry::new();
    assert_eq!(r.add_instance(0, 1, InstanceType::Instance), 0);
    assert_eq!(r.add_instance(2, 3, InstanceType::Table), 1);
    assert_eq!(r.len(), 2);
    let info = r.instance_info(1).unwrap();
    assert_eq!((info.airgroup_id, info.air_id, info.instance_type), (2, 3, InstanceType::Table));
    assert!(r.instance_info(2).is_none());
    let mut p = main_plan(true);
    p.set_global_id(7);
    assert_eq!(p.global_id, Some(7));
}

#[test]
fn external_emulator_counts_while_tracing() {
    let m = minimal_trace_execution_mode(true);
    assert_eq!(m, MinimalTraceExecutionMode::AsmWithCounter);
    assert!(m.counts_while_tracing());
    assert_eq!(counting_path(m), CountingPath::WhileTracing);
    let m = minimal_trace_execution_mode(false);
    assert_eq!(m, MinimalTraceExecutionMode::Emulator);
    assert!(!m.counts_while_tracing());
    assert_eq!(counting_path(m), CountingPath::AfterTracing);
    assert_eq!(counting_path(MinimalTraceExecutionMode::Asm), CountingPath::AfterTracing);
}
