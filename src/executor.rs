//! The executor's bookkeeping: executed steps, global ids for every plan, and the
//! claim of each plan by exactly one instance, built once and cached.

use vstd::prelude::*;
use std::collections::HashMap;
use crate::asm_min_traces::EmuTrace;
use crate::plan::{
    first_with_id, has_id, is_first_with_id, plan_with_id, position_of, InstanceCtx,
    InstanceInfo, InstanceRegistry, InstanceType, Plan,
};

verus! {

broadcast use vstd::std_specs::hash::group_hash_axioms;

/// What a run reports.
#[derive(Clone, Copy, Debug, PartialEq, Eq)]
pub struct ZiskExecutionResult {
    pub executed_steps: u64,
}

impl Default for ZiskExecutionResult {
    fn default() -> (r: Self)
        ensures
            r.executed_steps == 0,
    {
        ZiskExecutionResult { executed_steps: 0 }
    }
}

/// The main-machine instance built from a main plan.
#[derive(Clone, Debug, PartialEq, Eq)]
pub struct MainInstance {
    pub ictx: InstanceCtx,
    pub is_last_segment: bool,
}

/// A secondary instance: the position of its state machine and its plan.
#[derive(Clone, Debug, PartialEq, Eq)]
pub struct SecnInstance {
    pub sm_index: usize,
    pub ictx: InstanceCtx,
}

/// How the witness of an instance is computed.
#[derive(Clone, Copy, Debug, PartialEq, Eq)]
pub enum TaskKind {
    /// From all chunks, by the main machine.
    Main,
    /// From the chunks of the instance's check point.
    Instance,
    /// Once per run, from no chunk.
    Table,
}

/// One witness to compute.
#[derive(Clone, Copy, Debug, PartialEq, Eq)]
pub struct WitnessTask {
    pub global_id: usize,
    pub kind: TaskKind,
    /// Whether the instance was built by this request rather than found cached.
    pub created: bool,
}

/// Why an instance cannot be claimed: planning and execution disagree.
#[derive(Clone, Copy, Debug, PartialEq, Eq)]
pub enum ExecutorError {
    /// The global id was never assigned.
    UnknownGlobalId(usize),
    /// No pending main plan holds the global id.
    MainInstanceNotFound(usize),
    /// No pending secondary plan, nor a built secondary instance, holds the global id.
    SecnInstanceNotFound(usize),
    /// The main plan of the global id does not say whether it is the last segment.
    InvalidMetadata(usize),
}

/// The part of the executor that claiming instances changes.
pub struct ClaimState {
    pub main_planning: Seq<Plan>,
    pub secn_planning: Seq<Seq<Plan>>,
    pub main_instances: Map<usize, MainInstance>,
    pub secn_instances: Map<usize, SecnInstance>,
}

pub open spec fn kind_of(t: InstanceType) -> TaskKind {
    match t {
        InstanceType::Instance => TaskKind::Instance,
        InstanceType::Table => TaskKind::Table,
    }
}

pub open spec fn lists_have_id(lists: Seq<Seq<Plan>>, id: usize) -> bool {
    exists|o: int| 0 <= o < lists.len() && has_id(#[trigger] lists[o], id)
}

/// List `o` is the first of `lists` that holds a plan with the global id `id`.
pub open spec fn is_first_list_with_id(lists: Seq<Seq<Plan>>, id: usize, o: int) -> bool {
    &&& 0 <= o < lists.len()
    &&& has_id(lists[o], id)
    &&& forall|p: int| 0 <= p < o ==> !has_id(#[trigger] lists[p], id)
}

pub open spec fn first_list_with_id(lists: Seq<Seq<Plan>>, id: usize) -> int {
    choose|o: int| is_first_list_with_id(lists, id, o)
}

/// Claiming the main instance of `id`: the cached one, or one built from the
/// first pending main plan with that id, which leaves the pending plans.
pub open spec fn main_claim(s: ClaimState, id: usize) -> (Result<WitnessTask, ExecutorError>, ClaimState) {
    if s.main_instances.contains_key(id) {
        (Ok(WitnessTask { global_id: id, kind: TaskKind::Main, created: false }), s)
    } else if !has_id(s.main_planning, id) {
        (Err(ExecutorError::MainInstanceNotFound(id)), s)
    } else {
        let i = first_with_id(s.main_planning, id);
        let plan = s.main_planning[i];
        match plan.is_last_segment {
            None => (Err(ExecutorError::InvalidMetadata(id)), s),
            Some(last) => (
                Ok(WitnessTask { global_id: id, kind: TaskKind::Main, created: true }),
                ClaimState {
                    main_planning: s.main_planning.remove(i),
                    main_instances: s.main_instances.insert(
                        id,
                        MainInstance { ictx: InstanceCtx { global_id: id, plan }, is_last_segment: last },
                    ),
                    ..s
                },
            ),
        }
    }
}

/// Claiming the secondary instance of `id`, in the same way, from the first list
/// of secondary plans that holds the id.
pub open spec fn secn_claim(s: ClaimState, id: usize) -> (Result<WitnessTask, ExecutorError>, ClaimState) {
    if s.secn_instances.contains_key(id) {
        (
            Ok(
                WitnessTask {
                    global_id: id,
                    kind: kind_of(s.secn_instances[id].ictx.plan.instance_type),
                    created: false,
                },
            ),
            s,
        )
    } else if !lists_have_id(s.secn_planning, id) {
        (Err(ExecutorError::SecnInstanceNotFound(id)), s)
    } else {
        let o = first_list_with_id(s.secn_planning, id);
        let i = first_with_id(s.secn_planning[o], id);
        let plan = s.secn_planning[o][i];
        (
            Ok(WitnessTask { global_id: id, kind: kind_of(plan.instance_type), created: true }),
            ClaimState {
                secn_planning: s.secn_planning.update(o, s.secn_planning[o].remove(i)),
                secn_instances: s.secn_instances.insert(
                    id,
                    SecnInstance { sm_index: o as usize, ictx: InstanceCtx { global_id: id, plan } },
                ),
                ..s
            },
        )
    }
}

/// Claiming the instance of `id`, main or secondary by the air it was registered for.
pub open spec fn claim_step(
    s: ClaimState,
    infos: Seq<InstanceInfo>,
    main_air_ids: Seq<usize>,
    id: usize,
) -> (Result<WitnessTask, ExecutorError>, ClaimState) {
    if id >= infos.len() {
        (Err(ExecutorError::UnknownGlobalId(id)), s)
    } else if main_air_ids.contains(infos[id as int].air_id) {
        main_claim(s, id)
    } else {
        secn_claim(s, id)
    }
}

/// Claiming the instances of `ids` in order, up to the first error.
pub open spec fn claim_all(
    s: ClaimState,
    infos: Seq<InstanceInfo>,
    main_air_ids: Seq<usize>,
    ids: Seq<usize>,
) -> (Result<Seq<WitnessTask>, ExecutorError>, ClaimState)
    decreases ids.len(),
{
    if ids.len() == 0 {
        (Ok(Seq::empty()), s)
    } else {
        let (r, s1) = claim_all(s, infos, main_air_ids, ids.drop_last());
        match r {
            Err(e) => (Err(e), s1),
            Ok(ts) => {
                let (t, s2) = claim_step(s1, infos, main_air_ids, ids.last());
                match t {
                    Err(e) => (Err(e), s2),
                    Ok(t) => (Ok(ts.push(t)), s2),
                }
            },
        }
    }
}

/// Asking again for an instance that was claimed returns the cached instance
/// and changes nothing: an instance is never built twice.
pub proof fn lemma_claim_twice(s: ClaimState, infos: Seq<InstanceInfo>, main_air_ids: Seq<usize>, id: usize)
    requires
        claim_step(s, infos, main_air_ids, id).0 is Ok,
    ensures
        ({
            let (r1, s1) = claim_step(s, infos, main_air_ids, id);
            let (r2, s2) = claim_step(s1, infos, main_air_ids, id);
            &&& r2 == Ok::<WitnessTask, ExecutorError>(WitnessTask { created: false, ..r1->Ok_0 })
            &&& s2 == s1
        }),
{
}

/// Sum of the steps of the chunks.
pub open spec fn sum_steps(ts: Seq<EmuTrace>) -> nat
    decreases ts.len(),
{
    if ts.len() == 0 {
        0
    } else {
        sum_steps(ts.drop_last()) + ts.last().steps as nat
    }
}

proof fn lemma_sum_steps_prefix(ts: Seq<EmuTrace>, k: int)
    requires
        0 <= k <= ts.len(),
    ensures
        sum_steps(ts.take(k)) <= sum_steps(ts),
    decreases ts.len() - k,
{
    if k < ts.len() {
        lemma_sum_steps_prefix(ts, k + 1);
        assert(ts.take(k + 1).drop_last() =~= ts.take(k));
    } else {
        assert(ts.take(k) =~= ts);
    }
}

/// The plans in order, given the global ids `first`, `first + 1`, ...
pub open spec fn assign_main(plans: Seq<Plan>, first: int) -> Seq<Plan> {
    Seq::new(plans.len(), |i: int| plan_with_id(plans[i], first + i))
}

/// Number of plans in the lists before list `o`.
pub open spec fn lens_before(lists: Seq<Seq<Plan>>, o: int) -> int
    decreases o,
{
    if o <= 0 {
        0
    } else {
        lens_before(lists, o - 1) + lists[o - 1].len()
    }
}

/// The lists in order, their plans given consecutive global ids from `first` on.
pub open spec fn assign_secn(lists: Seq<Seq<Plan>>, first: int) -> Seq<Seq<Plan>> {
    Seq::new(lists.len(), |o: int| assign_main(lists[o], first + lens_before(lists, o)))
}

pub open spec fn info_of(p: Plan) -> InstanceInfo {
    InstanceInfo { airgroup_id: p.airgroup_id, air_id: p.air_id, instance_type: p.instance_type }
}

pub open spec fn views_of(lists: Seq<Vec<Plan>>) -> Seq<Seq<Plan>> {
    lists.map_values(|v: Vec<Plan>| v@)
}

proof fn lemma_lens_before_mono(lists: Seq<Seq<Plan>>, a: int, b: int)
    requires
        0 <= a <= b <= lists.len(),
    ensures
        lens_before(lists, a) <= lens_before(lists, b),
        a < b ==> lens_before(lists, a) + lists[a].len() <= lens_before(lists, b),
    decreases b - a,
{
    if a < b {
        lemma_lens_before_mono(lists, a, b - 1);
    }
}

/// Global id assignment is one to one: the main plans get the ids from `first` on,
/// the secondary plans the ids after them, and no two plans get the same id.
pub proof fn lemma_assignment_distinct(main: Seq<Plan>, lists: Seq<Seq<Plan>>, first: int)
    requires
        0 <= first,
        first + main.len() + lens_before(lists, lists.len() as int) <= usize::MAX + 1,
    ensures
        forall|i: int|
            0 <= i < main.len() ==> #[trigger] assign_main(main, first)[i].global_id == Some(
                (first + i) as usize,
            ),
        forall|o: int, i: int|
            0 <= o < lists.len() && 0 <= i < lists[o].len() ==> {
                let id = (#[trigger] assign_secn(lists, first + main.len())[o][i]).global_id->Some_0;
                &&& first + main.len() <= id < first + main.len() + lens_before(lists, lists.len() as int)
            },
        forall|o1: int, i1: int, o2: int, i2: int|
            0 <= o1 < lists.len() && 0 <= i1 < lists[o1].len() && 0 <= o2 < lists.len() && 0 <= i2
                < lists[o2].len() && (o1 != o2 || i1 != i2) ==> (#[trigger] assign_secn(
                lists,
                first + main.len(),
            )[o1][i1]).global_id != (#[trigger] assign_secn(lists, first + main.len())[o2][i2]).global_id,
{
    let f = first + main.len();
    let total = lens_before(lists, lists.len() as int);
    assert forall|o: int, i: int| 0 <= o < lists.len() && 0 <= i < lists[o].len() implies {
        let id = (#[trigger] assign_secn(lists, f)[o][i]).global_id->Some_0;
        &&& f <= id < f + total
    } by {
        lemma_lens_before_mono(lists, o, lists.len() as int);
        lemma_lens_before_mono(lists, 0, o);
    }
    assert forall|o1: int, i1: int, o2: int, i2: int|
        0 <= o1 < lists.len() && 0 <= i1 < lists[o1].len() && 0 <= o2 < lists.len() && 0 <= i2
            < lists[o2].len() && (o1 != o2 || i1 != i2) implies (#[trigger] assign_secn(lists, f)[o1][i1]).global_id
        != (#[trigger] assign_secn(lists, f)[o2][i2]).global_id by {
        lemma_lens_before_mono(lists, o1, lists.len() as int);
        lemma_lens_before_mono(lists, o2, lists.len() as int);
        lemma_lens_before_mono(lists, 0, o1);
        lemma_lens_before_mono(lists, 0, o2);
        if o1 < o2 {
            lemma_lens_before_mono(lists, o1, o2);
        } else if o2 < o1 {
            lemma_lens_before_mono(lists, o2, o1);
        }
    }
}

/// The executor's state for one program run.
pub struct ZiskExecutor {
    main_air_ids: Vec<usize>,
    min_traces: Vec<EmuTrace>,
    main_planning: Vec<Plan>,
    secn_planning: Vec<Vec<Plan>>,
    main_instances: HashMap<usize, MainInstance>,
    secn_instances: HashMap<usize, SecnInstance>,
    registry: InstanceRegistry,
    execution_result: ZiskExecutionResult,
    counting: CountingPath,
}

impl ZiskExecutor {
    pub closed spec fn claim_state(&self) -> ClaimState {
        ClaimState {
            main_planning: self.main_planning@,
            secn_planning: views_of(self.secn_planning@),
            main_instances: self.main_instances@,
            secn_instances: self.secn_instances@,
        }
    }

    /// What each global id was registered for.
    pub closed spec fn infos(&self) -> Seq<InstanceInfo> {
        self.registry@
    }

    /// The airs of the main machine.
    pub closed spec fn main_airs(&self) -> Seq<usize> {
        self.main_air_ids@
    }

    /// The chunks of the run.
    pub closed spec fn traces(&self) -> Seq<EmuTrace> {
        self.min_traces@
    }

    pub closed spec fn result(&self) -> ZiskExecutionResult {
        self.execution_result
    }

    /// Which counting pass fed the planners of the last execute phase.
    pub closed spec fn counting(&self) -> CountingPath {
        self.counting
    }

    /// An executor with nothing planned, for a machine whose main airs are `main_air_ids`.
    pub fn new(main_air_ids: Vec<usize>) -> (r: ZiskExecutor)
        ensures
            r.main_airs() == main_air_ids@,
            r.infos().len() == 0,
            r.traces().len() == 0,
            r.result().executed_steps == 0,
            r.claim_state() == (ClaimState {
                main_planning: Seq::empty(),
                secn_planning: Seq::empty(),
                main_instances: Map::empty(),
                secn_instances: Map::empty(),
            }),
    {
        let r = ZiskExecutor {
            main_air_ids,
            min_traces: Vec::new(),
            main_planning: Vec::new(),
            secn_planning: Vec::new(),
            main_instances: HashMap::new(),
            secn_instances: HashMap::new(),
            registry: InstanceRegistry::new(),
            execution_result: ZiskExecutionResult { executed_steps: 0 },
            counting: CountingPath::AfterTracing,
        };
        assert(views_of(r.secn_planning@) =~= Seq::empty());
        r
    }

    /// Which counting pass fed the planners of the last execute phase.
    pub fn get_counting(&self) -> (r: CountingPath)
        ensures
            r == self.counting(),
    {
        self.counting
    }

    pub fn get_execution_result(&self) -> (r: ZiskExecutionResult)
        ensures
            r == self.result(),
    {
        self.execution_result
    }

    /// The chunks of the run, in execution order.
    pub fn min_traces(&self) -> (r: &Vec<EmuTrace>)
        ensures
            r@ == self.traces(),
    {
        &self.min_traces
    }

    /// Keeps the chunks that the trace source produced and publishes the sum of
    /// their steps as the run's executed steps.
    fn store_minimal_traces(&mut self, min_traces: Vec<EmuTrace>)
        requires
            traces_valid(min_traces@),
        ensures
            final(self).result().executed_steps == sum_steps(min_traces@),
            final(self).traces() == min_traces@,
            final(self).claim_state() == old(self).claim_state(),
            final(self).infos() == old(self).infos(),
            final(self).main_airs() == old(self).main_airs(),
            final(self).counting() == old(self).counting(),
    {
        let mut steps: u64 = 0;
        let mut i: usize = 0;
        while i < min_traces.len()
            invariant
                i <= min_traces@.len(),
                traces_valid(min_traces@),
                steps == sum_steps(min_traces@.take(i as int)),
            decreases min_traces@.len() - i,
        {
            assert(min_traces@.take(i + 1).drop_last() =~= min_traces@.take(i as int));
            proof {
                lemma_sum_steps_prefix(min_traces@, i + 1);
            }
            steps = steps + min_traces[i].steps;
            i = i + 1;
        }
        assert(min_traces@.take(i as int) =~= min_traces@);
        self.min_traces = min_traces;
        self.execution_result.executed_steps = steps;
    }

    /// The execute phase, once the trace source has produced `min_traces` in
    /// `mode` and the planners have planned from the counted metrics: keeps the
    /// chunks and publishes their steps as the executed steps, records which
    /// counting pass fed the planners, writes the planners' public values into
    /// `publics`, gives every plan a global id (main plans first, then the
    /// secondary plans list by list), keeps the plans, and returns the ids in
    /// that order.
    pub fn execute(
        &mut self,
        mode: MinimalTraceExecutionMode,
        min_traces: Vec<EmuTrace>,
        main_planning: Vec<Plan>,
        secn_planning: Vec<Vec<Plan>>,
        public_values: &[(u64, u32)],
        publics: &mut Vec<u32>,
    ) -> (ids: Vec<usize>)
        requires
            traces_valid(min_traces@),
            public_values_fit(public_values@, old(publics)@.len()),
        ensures
            final(self).traces() == min_traces@,
            final(self).result().executed_steps == sum_steps(min_traces@),
            final(self).counting() == counting_path_of(mode),
            final(publics)@ == apply_publics(old(publics)@, public_values@),
            ({
                let c = old(self).infos().len() as int;
                let m = main_planning@.len() as int;
                let lists = views_of(secn_planning@);
                let total = m + lens_before(lists, lists.len() as int);
                &&& final(self).claim_state() == ClaimState {
                    main_planning: assign_main(main_planning@, c),
                    secn_planning: assign_secn(lists, c + m),
                    ..old(self).claim_state()
                }
                &&& ids@ == Seq::new(total as nat, |k: int| (c + k) as usize)
                &&& final(self).infos().len() == c + total
                &&& final(self).infos().take(c) == old(self).infos()
                &&& forall|i: int| 0 <= i < m ==> final(self).infos()[c + i] == info_of(#[trigger] main_planning@[i])
                &&& forall|o: int, i: int|
                    0 <= o < lists.len() && 0 <= i < lists[o].len() ==> final(self).infos()[c + m
                        + lens_before(lists, o) + i] == info_of(#[trigger] lists[o][i])
            }),
            final(self).main_airs() == old(self).main_airs(),
    {
        self.counting = counting_path(mode);
        fold_public_values(publics, public_values);
        let ids = self.assign_instances(main_planning, secn_planning);
        self.store_minimal_traces(min_traces);
        ids
    }

    /// Gives every plan a global id, main plans first, then the secondary plans list
    /// by list, keeps the plans, and returns the ids in that order.
    fn assign_instances(&mut self, main_planning: Vec<Plan>, secn_planning: Vec<Vec<Plan>>) -> (ids: Vec<usize>)
        ensures
            ({
                let c = old(self).infos().len() as int;
                let m = main_planning@.len() as int;
                let lists = views_of(secn_planning@);
                let total = m + lens_before(lists, lists.len() as int);
                &&& final(self).claim_state() == ClaimState {
                    main_planning: assign_main(main_planning@, c),
                    secn_planning: assign_secn(lists, c + m),
                    ..old(self).claim_state()
                }
                &&& ids@ == Seq::new(total as nat, |k: int| (c + k) as usize)
                &&& final(self).infos().len() == c + total
                &&& final(self).infos().take(c) == old(self).infos()
                &&& forall|i: int| 0 <= i < m ==> final(self).infos()[c + i] == info_of(#[trigger] main_planning@[i])
                &&& forall|o: int, i: int|
                    0 <= o < lists.len() && 0 <= i < lists[o].len() ==> final(self).infos()[c + m
                        + lens_before(lists, o) + i] == info_of(#[trigger] lists[o][i])
            }),
            final(self).main_airs() == old(self).main_airs(),
            final(self).traces() == old(self).traces(),
            final(self).result() == old(self).result(),
            final(self).counting() == old(self).counting(),
    {
        let mut registry = InstanceRegistry::new();
        std::mem::swap(&mut registry, &mut self.registry);
        let ghost reg_start = registry@;
        let ghost c = registry@.len() as int;
        let ghost lists = views_of(secn_planning@);
        let ghost m = main_planning@.len() as int;
        let mut ids: Vec<usize> = Vec::new();
        let mut main = main_planning;
        let mut i: usize = 0;
        while i < main.len()
            invariant
                i <= main@.len(),
                main@.len() == m,
                registry@.len() == c + i,
                registry@.take(c) == reg_start,
                c == reg_start.len(),
                ids@ == Seq::new(i as nat, |k: int| (c + k) as usize),
                forall|j: int| 0 <= j < i ==> main@[j] == plan_with_id(main_planning@[j], c + j),
                forall|j: int| i <= j < m ==> main@[j] == main_planning@[j],
                forall|j: int| 0 <= j < i ==> registry@[c + j] == info_of(#[trigger] main_planning@[j]),
            decreases m - i,
        {
            let ghost r0 = registry@;
            let p = &main[i];
            let id = registry.add_instance(p.airgroup_id, p.air_id, p.instance_type);
            assert(registry@ == r0.push(info_of(main_planning@[i as int])));
            assert(id == c + i);
            main[i].set_global_id(id);
            ids.push(id);
            assert(ids@ =~= Seq::new((i + 1) as nat, |k: int| (c + k) as usize));
            assert(registry@.take(c) =~= r0.take(c));
            i = i + 1;
        }
        assert(main@ =~= assign_main(main_planning@, c));
        let mut secn = secn_planning;
        let mut o: usize = 0;
        while o < secn.len()
            invariant
                o <= secn@.len(),
                secn@.len() == lists.len(),
                lists == views_of(secn_planning@),
                m == main_planning@.len(),
                c == reg_start.len(),
                main@ == assign_main(main_planning@, c),
                registry@.len() == c + m + lens_before(lists, o as int),
                registry@.take(c) == reg_start,
                c == reg_start.len(),
                ids@ == Seq::new((m + lens_before(lists, o as int)) as nat, |k: int| (c + k) as usize),
                forall|j: int| 0 <= j < m ==> registry@[c + j] == info_of(#[trigger] main_planning@[j]),
                forall|p: int, j: int|
                    0 <= p < o && 0 <= j < lists[p].len() ==> registry@[c + m + lens_before(lists, p)
                        + j] == info_of(#[trigger] lists[p][j]),
                forall|p: int| 0 <= p < o ==> (#[trigger] secn@[p])@ == assign_main(lists[p], c + m + lens_before(lists, p)),
                forall|p: int| o <= p < lists.len() ==> (#[trigger] secn@[p])@ == lists[p],
            decreases lists.len() - o,
        {
            let ghost base = c + m + lens_before(lists, o as int);
            proof {
                lemma_lens_before_mono(lists, 0, o as int);
            }
            let mut plans: Vec<Plan> = Vec::new();
            std::mem::swap(&mut secn[o], &mut plans);
            assert(plans@ == lists[o as int]);
            let ghost reg0 = registry@;
            let mut j: usize = 0;
            while j < plans.len()
                invariant
                    j <= plans@.len(),
                    plans@.len() == lists[o as int].len(),
                    registry@.len() == base + j,
                    registry@.take(c) == reg_start,
                c == reg_start.len(),
                    ids@ == Seq::new((base - c + j) as nat, |k: int| (c + k) as usize),
                    forall|q: int| 0 <= q < j ==> plans@[q] == plan_with_id(lists[o as int][q], base + q),
                    forall|q: int| j <= q < plans@.len() ==> plans@[q] == lists[o as int][q],
                    forall|q: int| 0 <= q < j ==> registry@[base + q] == info_of(#[trigger] lists[o as int][q]),
                    reg0.len() == base,
                    c == reg_start.len(),
                    base >= c + m,
                    m == main_planning@.len(),
                    o < lists.len(),
                    base == c + m + lens_before(lists, o as int),
                    forall|q: int| 0 <= q < base ==> registry@[q] == reg0[q],
                decreases plans@.len() - j,
            {
                let p = &plans[j];
                let id = registry.add_instance(p.airgroup_id, p.air_id, p.instance_type);
                plans[j].set_global_id(id);
                ids.push(id);
                assert(ids@ =~= Seq::new((base - c + j + 1) as nat, |k: int| (c + k) as usize));
                assert(registry@.take(c) =~= reg_start);
                j = j + 1;
            }
            assert(plans@ =~= assign_main(lists[o as int], base));
            assert forall|p: int, j: int|
                0 <= p < o + 1 && 0 <= j < lists[p].len() implies registry@[c + m + lens_before(lists, p) + j]
                == info_of(#[trigger] lists[p][j]) by {
                if p < o {
                    lemma_lens_before_mono(lists, p, o as int);
                    lemma_lens_before_mono(lists, 0, p);
                    assert(registry@[c + m + lens_before(lists, p) + j] == reg0[c + m + lens_before(lists, p) + j]);
                }
            }
            let ghost before = secn@;
            secn[o] = plans;
            assert(lens_before(lists, o + 1) == lens_before(lists, o as int) + lists[o as int].len());
            assert forall|p: int| 0 <= p < o + 1 implies (#[trigger] secn@[p])@ == assign_main(
                lists[p],
                c + m + lens_before(lists, p),
            ) by {
                if p < o {
                    assert(secn@[p] == before[p]);
                }
            }
            assert forall|p: int| o + 1 <= p < lists.len() implies (#[trigger] secn@[p])@ == lists[p] by {
                assert(secn@[p] == before[p]);
            }
            o = o + 1;
        }
        self.main_planning = main;
        self.secn_planning = secn;
        self.registry = registry;
        assert(views_of(self.secn_planning@) =~= assign_secn(lists, c + m));
        ids
    }

    fn claim_main(&mut self, global_id: usize) -> (r: WitnessTask)
        requires
            main_claim(old(self).claim_state(), global_id).0 is Ok,
        ensures
            (Ok::<WitnessTask, ExecutorError>(r), final(self).claim_state()) == main_claim(
                old(self).claim_state(),
                global_id,
            ),
            final(self).counting() == old(self).counting(),
            final(self).infos() == old(self).infos(),
            final(self).main_airs() == old(self).main_airs(),
            final(self).traces() == old(self).traces(),
            final(self).result() == old(self).result(),
    {
        if self.main_instances.contains_key(&global_id) {
            return WitnessTask { global_id, kind: TaskKind::Main, created: false };
        }
        let idx = match position_of(&self.main_planning, global_id) {
            Some(i) => i,
            None => vstd::pervasive::unreached(),
        };
        let last = match self.main_planning[idx].is_last_segment {
            Some(b) => b,
            None => vstd::pervasive::unreached(),
        };
        let plan = self.main_planning.remove(idx);
        self.main_instances.insert(
            global_id,
            MainInstance { ictx: InstanceCtx { global_id, plan }, is_last_segment: last },
        );
        WitnessTask { global_id, kind: TaskKind::Main, created: true }
    }

    fn claim_secn(&mut self, global_id: usize) -> (r: WitnessTask)
        requires
            secn_claim(old(self).claim_state(), global_id).0 is Ok,
        ensures
            (Ok::<WitnessTask, ExecutorError>(r), final(self).claim_state()) == secn_claim(
                old(self).claim_state(),
                global_id,
            ),
            final(self).counting() == old(self).counting(),
            final(self).infos() == old(self).infos(),
            final(self).main_airs() == old(self).main_airs(),
            final(self).traces() == old(self).traces(),
            final(self).result() == old(self).result(),
    {
        match self.secn_instances.get(&global_id) {
            Some(inst) => {
                return WitnessTask {
                    global_id,
                    kind: task_kind(inst.ictx.plan.instance_type),
                    created: false,
                };
            },
            None => {},
        }
        let ghost lists = views_of(self.secn_planning@);
        let mut o: usize = 0;
        let mut found: Option<usize> = None;
        while o < self.secn_planning.len() && found.is_none()
            invariant
                o <= self.secn_planning@.len(),
                lists == views_of(self.secn_planning@),
                forall|p: int| 0 <= p < o ==> !has_id(#[trigger] lists[p], global_id),
                match found {
                    Some(i) => o < lists.len() && is_first_with_id(lists[o as int], global_id, i as int),
                    None => true,
                },
            decreases self.secn_planning@.len() - o, if found is None { 1int } else { 0int },
        {
            match position_of(&self.secn_planning[o], global_id) {
                Some(i) => {
                    found = Some(i);
                },
                None => {
                    o = o + 1;
                },
            }
        }
        let i = match found {
            Some(i) => i,
            None => {
                assert(!lists_have_id(lists, global_id));
                vstd::pervasive::unreached()
            },
        };
        proof {
            assert(has_id(lists[o as int], global_id));
            lemma_first_list_unique(lists, global_id, o as int);
            crate::plan::lemma_first_unique(lists[o as int], global_id, i as int);
        }
        let mut plans: Vec<Plan> = Vec::new();
        std::mem::swap(&mut self.secn_planning[o], &mut plans);
        let plan = plans.remove(i);
        let kind = task_kind(plan.instance_type);
        std::mem::swap(&mut self.secn_planning[o], &mut plans);
        assert(views_of(self.secn_planning@) =~= lists.update(o as int, lists[o as int].remove(i as int)));
        self.secn_instances.insert(
            global_id,
            SecnInstance { sm_index: o, ictx: InstanceCtx { global_id, plan } },
        );
        WitnessTask { global_id, kind, created: true }
    }

    fn is_main_air(&self, air_id: usize) -> (r: bool)
        ensures
            r == self.main_airs().contains(air_id),
    {
        let mut i: usize = 0;
        while i < self.main_air_ids.len()
            invariant
                i <= self.main_air_ids@.len(),
                forall|j: int| 0 <= j < i ==> self.main_air_ids@[j] != air_id,
            decreases self.main_air_ids@.len() - i,
        {
            if self.main_air_ids[i] == air_id {
                assert(self.main_air_ids@[i as int] == air_id);
                return true;
            }
            i = i + 1;
        }
        false
    }

    /// Tells whether the instance of `global_id` can be claimed: the id was assigned,
    /// and its instance is cached or a pending plan of the right kind holds the id
    /// (with its last-segment flag, for a main plan). Anything else means planning
    /// and execution disagree, which is fatal.
    pub fn can_claim(&self, global_id: usize) -> (r: bool)
        ensures
            r == (claim_step(self.claim_state(), self.infos(), self.main_airs(), global_id).0 is Ok),
            r == (claim_all(self.claim_state(), self.infos(), self.main_airs(), seq![global_id]).0 is Ok),
    {
        proof {
            lemma_claim_all_single(self.claim_state(), self.infos(), self.main_airs(), global_id);
        }
        match self.registry.instance_info(global_id) {
            None => false,
            Some(info) => {
                if self.is_main_air(info.air_id) {
                    if self.main_instances.contains_key(&global_id) {
                        return true;
                    }
                    match position_of(&self.main_planning, global_id) {
                        None => false,
                        Some(i) => self.main_planning[i].is_last_segment.is_some(),
                    }
                } else {
                    if self.secn_instances.contains_key(&global_id) {
                        return true;
                    }
                    let ghost lists = views_of(self.secn_planning@);
                    let mut o: usize = 0;
                    while o < self.secn_planning.len()
                        invariant
                            o <= self.secn_planning@.len(),
                            lists == views_of(self.secn_planning@),
                            lists == self.claim_state().secn_planning,
                            !self.claim_state().secn_instances.contains_key(global_id),
                            global_id < self.infos().len(),
                            !self.main_airs().contains(self.infos()[global_id as int].air_id),
                            forall|p: int| 0 <= p < o ==> !has_id(#[trigger] lists[p], global_id),
                        decreases self.secn_planning@.len() - o,
                    {
                        if position_of(&self.secn_planning[o], global_id).is_some() {
                            assert(has_id(lists[o as int], global_id));
                            assert(lists_have_id(lists, global_id));
                            proof {
                                lemma_claim_all_single(self.claim_state(), self.infos(), self.main_airs(), global_id);
                            }
                            return true;
                        }
                        o = o + 1;
                    }
                    false
                }
            },
        }
    }

    /// Tells whether the witnesses of `global_ids` can be asked for at `stage`: at the
    /// witness stage, whether each id can be claimed now (claiming one id never
    /// changes whether another can be). Anything else is fatal.
    pub fn can_calculate_witness(&self, stage: u32, global_ids: &[usize]) -> (r: bool)
        ensures
            r == (stage != WITNESS_STAGE || claim_all(
                self.claim_state(),
                self.infos(),
                self.main_airs(),
                global_ids@,
            ).0 is Ok),
    {
        proof {
            lemma_claim_all_ok(self.claim_state(), self.infos(), self.main_airs(), global_ids@);
        }
        if stage != WITNESS_STAGE {
            return true;
        }
        let mut k: usize = 0;
        while k < global_ids.len()
            invariant
                stage == WITNESS_STAGE,
                k <= global_ids@.len(),
                forall|i: int|
                    0 <= i < k ==> claimable(
                        self.claim_state(),
                        self.infos(),
                        self.main_airs(),
                        #[trigger] global_ids@[i],
                    ),
            decreases global_ids@.len() - k,
        {
            if !self.can_claim(global_ids[k]) {
                proof {
                    lemma_claim_all_ok(self.claim_state(), self.infos(), self.main_airs(), global_ids@);
                    assert(!claimable(self.claim_state(), self.infos(), self.main_airs(), global_ids@[k as int]));
                }
                return false;
            }
            k = k + 1;
        }
        true
    }

    /// Claims the instance of `global_id`: builds it from its pending plan on the
    /// first request, which removes the plan, and finds it cached on any later one.
    pub fn claim_instance(&mut self, global_id: usize) -> (r: WitnessTask)
        requires
            claim_step(old(self).claim_state(), old(self).infos(), old(self).main_airs(), global_id).0 is Ok,
        ensures
            (Ok::<WitnessTask, ExecutorError>(r), final(self).claim_state()) == claim_step(
                old(self).claim_state(),
                old(self).infos(),
                old(self).main_airs(),
                global_id,
            ),
            final(self).infos() == old(self).infos(),
            final(self).main_airs() == old(self).main_airs(),
            final(self).traces() == old(self).traces(),
            final(self).result() == old(self).result(),
            final(self).counting() == old(self).counting(),
    {
        match self.registry.instance_info(global_id) {
            None => vstd::pervasive::unreached(),
            Some(info) => {
                if self.is_main_air(info.air_id) {
                    self.claim_main(global_id)
                } else {
                    self.claim_secn(global_id)
                }
            },
        }
    }

    /// Claims, in order, the instances whose witnesses are asked for at `stage`;
    /// only the witness stage asks for any. Returns how each witness is computed.
    pub fn calculate_witness(&mut self, stage: u32, global_ids: &[usize]) -> (r: Vec<WitnessTask>)
        requires
            stage == WITNESS_STAGE ==> claim_all(
                old(self).claim_state(),
                old(self).infos(),
                old(self).main_airs(),
                global_ids@,
            ).0 is Ok,
        ensures
            stage != WITNESS_STAGE ==> r@.len() == 0 && *final(self) == *old(self),
            stage == WITNESS_STAGE ==> (Ok::<Seq<WitnessTask>, ExecutorError>(r@), final(self).claim_state())
                == claim_all(old(self).claim_state(), old(self).infos(), old(self).main_airs(), global_ids@),
            final(self).infos() == old(self).infos(),
            final(self).main_airs() == old(self).main_airs(),
            final(self).traces() == old(self).traces(),
            final(self).result() == old(self).result(),
            final(self).counting() == old(self).counting(),
    {
        let mut tasks: Vec<WitnessTask> = Vec::new();
        if stage != WITNESS_STAGE {
            return tasks;
        }
        let mut k: usize = 0;
        assert(global_ids@.take(0) =~= Seq::<usize>::empty());
        while k < global_ids.len()
            invariant
                stage == WITNESS_STAGE,
                k <= global_ids@.len(),
                claim_all(old(self).claim_state(), old(self).infos(), old(self).main_airs(), global_ids@).0 is Ok,
                (Ok::<Seq<WitnessTask>, ExecutorError>(tasks@), self.claim_state()) == claim_all(
                    old(self).claim_state(),
                    old(self).infos(),
                    old(self).main_airs(),
                    global_ids@.take(k as int),
                ),
                self.infos() == old(self).infos(),
                self.main_airs() == old(self).main_airs(),
                self.traces() == old(self).traces(),
                self.result() == old(self).result(),
                self.counting() == old(self).counting(),
            decreases global_ids@.len() - k,
        {
            let id = global_ids[k];
            assert(global_ids@.take(k + 1).drop_last() =~= global_ids@.take(k as int));
            proof {
                if claim_all(
                    old(self).claim_state(),
                    old(self).infos(),
                    old(self).main_airs(),
                    global_ids@.take(k + 1),
                ).0 is Err {
                    lemma_claim_all_err(
                        old(self).claim_state(),
                        old(self).infos(),
                        old(self).main_airs(),
                        global_ids@,
                        k + 1,
                    );
                }
            }
            let t = self.claim_instance(id);
            tasks.push(t);
            k = k + 1;
        }
        assert(global_ids@.take(k as int) =~= global_ids@);
        tasks
    }

    /// The main instance of `global_id`, if it was built.
    pub fn main_instance(&self, global_id: usize) -> (r: Option<&MainInstance>)
        ensures
            match r {
                Some(x) => self.claim_state().main_instances.contains_key(global_id) && *x
                    == self.claim_state().main_instances[global_id],
                None => !self.claim_state().main_instances.contains_key(global_id),
            },
    {
        self.main_instances.get(&global_id)
    }

    /// The secondary instance of `global_id`, if it was built.
    pub fn secn_instance(&self, global_id: usize) -> (r: Option<&SecnInstance>)
        ensures
            match r {
                Some(x) => self.claim_state().secn_instances.contains_key(global_id) && *x
                    == self.claim_state().secn_instances[global_id],
                None => !self.claim_state().secn_instances.contains_key(global_id),
            },
    {
        self.secn_instances.get(&global_id)
    }

    fn debug_task(&self, global_id: usize) -> (r: Result<WitnessTask, ExecutorError>)
        ensures
            r == debug_step(self.claim_state(), self.infos(), self.main_airs(), global_id),
    {
        match self.registry.instance_info(global_id) {
            None => Err(ExecutorError::UnknownGlobalId(global_id)),
            Some(info) => {
                if self.is_main_air(info.air_id) {
                    Ok(WitnessTask { global_id, kind: TaskKind::Main, created: false })
                } else {
                    match self.secn_instances.get(&global_id) {
                        Some(inst) => Ok(
                            WitnessTask {
                                global_id,
                                kind: task_kind(inst.ictx.plan.instance_type),
                                created: false,
                            },
                        ),
                        None => Err(ExecutorError::SecnInstanceNotFound(global_id)),
                    }
                }
            },
        }
    }

    /// Tells whether each of `global_ids` is a main air's or names a built
    /// instance; anything else is fatal.
    pub fn can_debug(&self, global_ids: &[usize]) -> (r: bool)
        ensures
            r == forall|i: int|
                0 <= i < global_ids@.len() ==> (#[trigger] debug_step(
                    self.claim_state(),
                    self.infos(),
                    self.main_airs(),
                    global_ids@[i],
                )) is Ok,
    {
        let mut k: usize = 0;
        while k < global_ids.len()
            invariant
                k <= global_ids@.len(),
                forall|i: int|
                    0 <= i < k ==> (#[trigger] debug_step(
                        self.claim_state(),
                        self.infos(),
                        self.main_airs(),
                        global_ids@[i],
                    )) is Ok,
            decreases global_ids@.len() - k,
        {
            if self.debug_task(global_ids[k]).is_err() {
                return false;
            }
            k = k + 1;
        }
        true
    }

    /// What to dump for each of `global_ids`: the main machine for a main air, the
    /// built instance otherwise.
    pub fn debug(&self, global_ids: &[usize]) -> (r: Vec<WitnessTask>)
        requires
            forall|i: int|
                0 <= i < global_ids@.len() ==> (#[trigger] debug_step(
                    self.claim_state(),
                    self.infos(),
                    self.main_airs(),
                    global_ids@[i],
                )) is Ok,
        ensures
            r@.len() == global_ids@.len(),
            forall|i: int|
                0 <= i < global_ids@.len() ==> debug_step(
                    self.claim_state(),
                    self.infos(),
                    self.main_airs(),
                    #[trigger] global_ids@[i],
                ) == Ok::<WitnessTask, ExecutorError>(r@[i]),
    {
        let mut out: Vec<WitnessTask> = Vec::new();
        let mut k: usize = 0;
        while k < global_ids.len()
            invariant
                k <= global_ids@.len(),
                out@.len() == k,
                forall|i: int|
                    0 <= i < global_ids@.len() ==> (#[trigger] debug_step(
                        self.claim_state(),
                        self.infos(),
                        self.main_airs(),
                        global_ids@[i],
                    )) is Ok,
                forall|i: int|
                    0 <= i < k ==> debug_step(
                        self.claim_state(),
                        self.infos(),
                        self.main_airs(),
                        #[trigger] global_ids@[i],
                    ) == Ok::<WitnessTask, ExecutorError>(out@[i]),
            decreases global_ids@.len() - k,
        {
            let t = match self.debug_task(global_ids[k]) {
                Ok(t) => t,
                Err(_) => vstd::pervasive::unreached(),
            };
            out.push(t);
            k = k + 1;
        }
        out
    }
}

/// Where the chunks of a run come from.
#[derive(Clone, Copy, Debug, PartialEq, Eq)]
pub enum MinimalTraceExecutionMode {
    /// The in-process emulator.
    Emulator,
    /// The external emulator.
    Asm,
    /// The external emulator, each chunk counted as soon as it is decoded.
    AsmWithCounter,
}

/// The external emulator when there is one, counting as it goes; the in-process
/// emulator otherwise.
pub fn minimal_trace_execution_mode(has_asm_runner: bool) -> (m: MinimalTraceExecutionMode)
    ensures
        m == if has_asm_runner {
            MinimalTraceExecutionMode::AsmWithCounter
        } else {
            MinimalTraceExecutionMode::Emulator
        },
{
    if has_asm_runner {
        MinimalTraceExecutionMode::AsmWithCounter
    } else {
        MinimalTraceExecutionMode::Emulator
    }
}

impl MinimalTraceExecutionMode {
    /// Whether the chunks are counted while they are produced, so that the separate
    /// counting pass must not run: every chunk is counted once.
    pub open spec fn counts_while_tracing_spec(&self) -> bool {
        *self is AsmWithCounter
    }

    pub fn counts_while_tracing(&self) -> (r: bool)
        ensures
            r == self.counts_while_tracing_spec(),
    {
        match self {
            MinimalTraceExecutionMode::AsmWithCounter => true,
            _ => false,
        }
    }
}

/// Which pass counted the chunks whose metrics the planners used.
#[derive(Clone, Copy, Debug, PartialEq, Eq)]
pub enum CountingPath {
    /// A separate pass over the stored chunks, after tracing.
    AfterTracing,
    /// Each chunk as soon as it was decoded; no separate pass runs.
    WhileTracing,
}

pub open spec fn counting_path_of(mode: MinimalTraceExecutionMode) -> CountingPath {
    if mode is AsmWithCounter {
        CountingPath::WhileTracing
    } else {
        CountingPath::AfterTracing
    }
}

/// The one counting pass of a run in `mode`: every chunk is counted once, either
/// while it is traced or in the pass after tracing, never both.
pub fn counting_path(mode: MinimalTraceExecutionMode) -> (r: CountingPath)
    ensures
        r == counting_path_of(mode),
        (r == CountingPath::WhileTracing) == mode.counts_while_tracing_spec(),
{
    if mode.counts_while_tracing() {
        CountingPath::WhileTracing
    } else {
        CountingPath::AfterTracing
    }
}

/// The trace output is usable: at least one chunk, and steps whose sum fits in 64 bits.
pub open spec fn traces_valid(ts: Seq<EmuTrace>) -> bool {
    ts.len() > 0 && sum_steps(ts) <= u64::MAX
}

/// Tells whether the trace output is usable; empty or overflowing output is fatal.
pub fn traces_are_valid(min_traces: &Vec<EmuTrace>) -> (r: bool)
    ensures
        r == traces_valid(min_traces@),
{
    if min_traces.len() == 0 {
        return false;
    }
    let mut steps: u64 = 0;
    let mut i: usize = 0;
    while i < min_traces.len()
        invariant
            i <= min_traces@.len(),
            steps == sum_steps(min_traces@.take(i as int)),
        decreases min_traces@.len() - i,
    {
        assert(min_traces@.take(i + 1).drop_last() =~= min_traces@.take(i as int));
        let s = min_traces[i].steps;
        if steps > u64::MAX - s {
            proof {
                lemma_sum_steps_prefix(min_traces@, i + 1);
            }
            return false;
        }
        steps = steps + s;
        i = i + 1;
    }
    assert(min_traces@.take(i as int) =~= min_traces@);
    true
}

/// The stage at which witnesses are computed.
pub const WITNESS_STAGE: u32 = 1;

fn task_kind(t: InstanceType) -> (k: TaskKind)
    ensures
        k == kind_of(t),
{
    match t {
        InstanceType::Instance => TaskKind::Instance,
        InstanceType::Table => TaskKind::Table,
    }
}

proof fn lemma_first_list_unique(lists: Seq<Seq<Plan>>, id: usize, o: int)
    requires
        is_first_list_with_id(lists, id, o),
    ensures
        first_list_with_id(lists, id) == o,
{
    let k = first_list_with_id(lists, id);
    assert(is_first_list_with_id(lists, id, k));
    if k < o {
        assert(!has_id(lists[k], id));
    }
    if o < k {
        assert(!has_id(lists[o], id));
    }
}

proof fn lemma_claim_all_single(s: ClaimState, infos: Seq<InstanceInfo>, main_air_ids: Seq<usize>, id: usize)
    ensures
        (claim_all(s, infos, main_air_ids, seq![id]).0 is Ok) == (claim_step(s, infos, main_air_ids, id).0 is Ok),
{
    let ids = seq![id];
    assert(ids.drop_last() =~= Seq::<usize>::empty());
    assert(ids.last() == id);
    assert(claim_all(s, infos, main_air_ids, Seq::<usize>::empty()).0 is Ok);
    assert(claim_all(s, infos, main_air_ids, Seq::<usize>::empty()).1 == s);
    let (r, s1) = claim_all(s, infos, main_air_ids, ids.drop_last());
    assert(s1 == s);
    assert(r is Ok);
}

pub open spec fn claimable(s: ClaimState, infos: Seq<InstanceInfo>, main_air_ids: Seq<usize>, id: usize) -> bool {
    claim_step(s, infos, main_air_ids, id).0 is Ok
}

proof fn lemma_first_exists(plans: Seq<Plan>, id: usize, k: int)
    requires
        0 <= k < plans.len(),
        plans[k].global_id == Some(id),
    ensures
        is_first_with_id(plans, id, first_with_id(plans, id)),
    decreases k,
{
    if exists|j: int| 0 <= j < k && (#[trigger] plans[j]).global_id == Some(id) {
        let j = choose|j: int| 0 <= j < k && (#[trigger] plans[j]).global_id == Some(id);
        lemma_first_exists(plans, id, j);
    } else {
        assert(is_first_with_id(plans, id, k));
    }
}

/// Removing a plan of another id keeps the first plan of `x`.
proof fn lemma_remove_other(plans: Seq<Plan>, i: int, y: usize, x: usize)
    requires
        0 <= i < plans.len(),
        plans[i].global_id == Some(y),
        x != y,
    ensures
        has_id(plans.remove(i), x) == has_id(plans, x),
        has_id(plans, x) ==> plans.remove(i)[first_with_id(plans.remove(i), x)] == plans[first_with_id(
            plans,
            x,
        )],
{
    let r = plans.remove(i);
    if has_id(plans, x) {
        let k = choose|k: int| 0 <= k < plans.len() && (#[trigger] plans[k]).global_id == Some(x);
        lemma_first_exists(plans, x, k);
        let f = first_with_id(plans, x);
        let j = if f < i { f } else { f - 1 };
        assert(r[j] == plans[f]);
        assert forall|q: int| 0 <= q < j implies (#[trigger] r[q]).global_id != Some(x) by {
            if q < i {
                assert(r[q] == plans[q]);
            } else {
                assert(r[q] == plans[q + 1]);
            }
        }
        assert(is_first_with_id(r, x, j));
        crate::plan::lemma_first_unique(r, x, j);
    }
    if has_id(r, x) {
        let k = choose|k: int| 0 <= k < r.len() && (#[trigger] r[k]).global_id == Some(x);
        if k < i {
            assert(plans[k] == r[k]);
        } else {
            assert(plans[k + 1] == r[k]);
        }
    }
}

/// Claiming `y` does not change whether another id can be claimed, and after it
/// `y` itself stays claimable.
pub proof fn lemma_claim_keeps_claimable(
    s: ClaimState,
    infos: Seq<InstanceInfo>,
    main_air_ids: Seq<usize>,
    y: usize,
    x: usize,
)
    requires
        claimable(s, infos, main_air_ids, y),
    ensures
        claimable(claim_step(s, infos, main_air_ids, y).1, infos, main_air_ids, x) == claimable(
            s,
            infos,
            main_air_ids,
            x,
        ),
{
    let s1 = claim_step(s, infos, main_air_ids, y).1;
    if x == y {
        return;
    }
    if s1 == s {
        return;
    }
    if main_air_ids.contains(infos[y as int].air_id) {
        let i = first_with_id(s.main_planning, y);
        let k = choose|k: int| 0 <= k < s.main_planning.len() && (#[trigger] s.main_planning[k]).global_id == Some(y);
        lemma_first_exists(s.main_planning, y, k);
        lemma_remove_other(s.main_planning, i, y, x);
    } else {
        let lists = s.secn_planning;
        let o = first_list_with_id(lists, y);
        let q = choose|q: int| 0 <= q < lists.len() && has_id(#[trigger] lists[q], y);
        lemma_first_list_exists(lists, y, q);
        let i = first_with_id(lists[o], y);
        let k = choose|k: int| 0 <= k < lists[o].len() && (#[trigger] lists[o][k]).global_id == Some(y);
        lemma_first_exists(lists[o], y, k);
        lemma_remove_other(lists[o], i, y, x);
        let l1 = s1.secn_planning;
        assert forall|p: int| 0 <= p < lists.len() implies has_id(#[trigger] l1[p], x) == has_id(lists[p], x) by {
            if p != o {
                assert(l1[p] == lists[p]);
            }
        }
        if lists_have_id(lists, x) {
            let p = choose|p: int| 0 <= p < lists.len() && has_id(#[trigger] lists[p], x);
            assert(has_id(l1[p], x));
        }
        if lists_have_id(l1, x) {
            let p = choose|p: int| 0 <= p < l1.len() && has_id(#[trigger] l1[p], x);
            assert(has_id(lists[p], x));
        }
    }
}

proof fn lemma_first_list_exists(lists: Seq<Seq<Plan>>, id: usize, k: int)
    requires
        0 <= k < lists.len(),
        has_id(lists[k], id),
    ensures
        is_first_list_with_id(lists, id, first_list_with_id(lists, id)),
    decreases k,
{
    if exists|j: int| 0 <= j < k && has_id(#[trigger] lists[j], id) {
        let j = choose|j: int| 0 <= j < k && has_id(#[trigger] lists[j], id);
        lemma_first_list_exists(lists, id, j);
    } else {
        assert(is_first_list_with_id(lists, id, k));
    }
}

/// Claiming a list of ids succeeds exactly when each id can be claimed now, and
/// then leaves every id exactly as claimable as before.
pub proof fn lemma_claim_all_ok(s: ClaimState, infos: Seq<InstanceInfo>, main_air_ids: Seq<usize>, ids: Seq<usize>)
    ensures
        (claim_all(s, infos, main_air_ids, ids).0 is Ok) == (forall|i: int|
            0 <= i < ids.len() ==> claimable(s, infos, main_air_ids, #[trigger] ids[i])),
        claim_all(s, infos, main_air_ids, ids).0 is Ok ==> forall|x: usize|
            #[trigger] claimable(claim_all(s, infos, main_air_ids, ids).1, infos, main_air_ids, x)
                == claimable(s, infos, main_air_ids, x),
    decreases ids.len(),
{
    if ids.len() > 0 {
        let prefix = ids.drop_last();
        lemma_claim_all_ok(s, infos, main_air_ids, prefix);
        let (r, s1) = claim_all(s, infos, main_air_ids, prefix);
        assert forall|i: int| 0 <= i < prefix.len() implies #[trigger] prefix[i] == ids[i] by {}
        if r is Ok {
            let y = ids.last();
            assert(claimable(s1, infos, main_air_ids, y) == claimable(s, infos, main_air_ids, y));
            assert((claim_all(s, infos, main_air_ids, ids).0 is Ok) == claimable(s1, infos, main_air_ids, y));
            if claimable(s, infos, main_air_ids, y) && r is Ok {
                assert forall|i: int| 0 <= i < ids.len() implies claimable(
                    s,
                    infos,
                    main_air_ids,
                    #[trigger] ids[i],
                ) by {
                    if i < prefix.len() {
                        assert(prefix[i] == ids[i]);
                        assert(claimable(s, infos, main_air_ids, prefix[i]));
                    }
                }
            }
            if claimable(s1, infos, main_air_ids, y) {
                assert forall|x: usize|
                    #[trigger] claimable(claim_step(s1, infos, main_air_ids, y).1, infos, main_air_ids, x)
                        == claimable(s, infos, main_air_ids, x) by {
                    lemma_claim_keeps_claimable(s1, infos, main_air_ids, y, x);
                }
            }
            if forall|i: int| 0 <= i < ids.len() ==> claimable(s, infos, main_air_ids, #[trigger] ids[i]) {
                assert(claimable(s, infos, main_air_ids, ids[ids.len() - 1]));
            }
        } else {
            if forall|i: int| 0 <= i < ids.len() ==> claimable(s, infos, main_air_ids, #[trigger] ids[i]) {
                assert forall|i: int| 0 <= i < prefix.len() implies claimable(
                    s,
                    infos,
                    main_air_ids,
                    #[trigger] prefix[i],
                ) by {
                    assert(prefix[i] == ids[i]);
                }
            }
        }
    }
}

/// Once a claim fails, claiming more ids fails the same way.
proof fn lemma_claim_all_err(
    s: ClaimState,
    infos: Seq<InstanceInfo>,
    main_air_ids: Seq<usize>,
    ids: Seq<usize>,
    k: int,
)
    requires
        0 < k <= ids.len(),
        claim_all(s, infos, main_air_ids, ids.take(k)).0 is Err,
    ensures
        claim_all(s, infos, main_air_ids, ids) == claim_all(s, infos, main_air_ids, ids.take(k)),
    decreases ids.len() - k,
{
    if k < ids.len() {
        assert(ids.take(k + 1).drop_last() =~= ids.take(k));
        lemma_claim_all_err(s, infos, main_air_ids, ids, k + 1);
    } else {
        assert(ids.take(k) =~= ids);
    }
}

/// What to dump for `id`.
pub open spec fn debug_step(
    s: ClaimState,
    infos: Seq<InstanceInfo>,
    main_air_ids: Seq<usize>,
    id: usize,
) -> Result<WitnessTask, ExecutorError> {
    if id >= infos.len() {
        Err(ExecutorError::UnknownGlobalId(id))
    } else if main_air_ids.contains(infos[id as int].air_id) {
        Ok(WitnessTask { global_id: id, kind: TaskKind::Main, created: false })
    } else if s.secn_instances.contains_key(id) {
        Ok(
            WitnessTask {
                global_id: id,
                kind: kind_of(s.secn_instances[id].ictx.plan.instance_type),
                created: false,
            },
        )
    } else {
        Err(ExecutorError::SecnInstanceNotFound(id))
    }
}

/// The public inputs after each value is written at its index, in order.
pub open spec fn apply_publics(publics: Seq<u32>, values: Seq<(u64, u32)>) -> Seq<u32>
    decreases values.len(),
{
    if values.len() == 0 {
        publics
    } else {
        apply_publics(publics, values.drop_last()).update(values.last().0 as int, values.last().1)
    }
}

/// Every public value names an index of the `len` public inputs.
pub open spec fn public_values_fit(values: Seq<(u64, u32)>, len: nat) -> bool {
    forall|i: int| 0 <= i < values.len() ==> (#[trigger] values[i]).0 < len
}

/// Tells whether every public value names an index of the `len` public inputs.
pub fn public_values_in_range(public_values: &[(u64, u32)], len: usize) -> (r: bool)
    ensures
        r == public_values_fit(public_values@, len as nat),
{
    let n = public_values.len();
    let mut k: usize = 0;
    while k < n
        invariant
            n == public_values@.len(),
            k <= n,
            forall|j: int| 0 <= j < k ==> (#[trigger] public_values@[j]).0 < len,
        decreases n - k,
    {
        let (index, _) = public_values[k];
        if index >= len as u64 {
            assert(public_values@[k as int].0 >= len);
            return false;
        }
        k = k + 1;
    }
    true
}

/// Writes each public value that planning derived at its index of the public inputs.
pub fn fold_public_values(publics: &mut Vec<u32>, public_values: &[(u64, u32)])
    requires
        public_values_fit(public_values@, old(publics)@.len()),
    ensures
        final(publics)@ == apply_publics(old(publics)@, public_values@),
{
    let n = public_values.len();
    let ghost start = publics@;
    let mut k: usize = 0;
    assert(public_values@.take(0) =~= Seq::<(u64, u32)>::empty());
    while k < n
        invariant
            n == public_values@.len(),
            k <= n,
            forall|j: int| 0 <= j < n ==> (#[trigger] public_values@[j]).0 < start.len(),
            publics@ == apply_publics(start, public_values@.take(k as int)),
            publics@.len() == start.len(),
        decreases n - k,
    {
        let (index, value) = public_values[k];
        assert(public_values@.take(k + 1).drop_last() =~= public_values@.take(k as int));
        assert(public_values@[k as int].0 < start.len());
        let len = publics.len();
        assert(index < len);
        let at = index as usize;
        assert(at == index);
        publics[at] = value;
        k = k + 1;
    }
    assert(public_values@.take(n as int) =~= public_values@);
}

} // verus!
