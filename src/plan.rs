//! Plans, their global ids, and the registry that hands the ids out.

use vstd::prelude::*;

verus! {

/// Dense 0-based index of an execution chunk.
#[derive(Clone, Copy, Debug, PartialEq, Eq, Hash, PartialOrd, Ord)]
pub struct ChunkId(pub usize);

/// Whether an instance is one segment of a machine or a table computed once per run.
#[derive(Clone, Copy, Debug, PartialEq, Eq)]
pub enum InstanceType {
    Instance,
    Table,
}

/// The chunks that feed an instance.
#[derive(Clone, Debug, PartialEq, Eq)]
pub enum CheckPoint {
    NoChunk,
    Single(ChunkId),
    Multiple(Vec<ChunkId>),
}

/// One future witness table.
#[derive(Clone, Debug, PartialEq, Eq)]
pub struct Plan {
    pub airgroup_id: usize,
    pub air_id: usize,
    pub instance_type: InstanceType,
    pub check_point: CheckPoint,
    /// Set by the main planner: whether the segment is the program's last.
    pub is_last_segment: Option<bool>,
    pub global_id: Option<usize>,
}

/// A plan bound to its global id.
#[derive(Clone, Debug, PartialEq, Eq)]
pub struct InstanceCtx {
    pub global_id: usize,
    pub plan: Plan,
}

/// `p` with the global id `id`.
pub open spec fn plan_with_id(p: Plan, id: int) -> Plan {
    Plan { global_id: Some(id as usize), ..p }
}

impl Plan {
    pub fn set_global_id(&mut self, global_id: usize)
        ensures
            *final(self) == plan_with_id(*old(self), global_id as int),
    {
        self.global_id = Some(global_id);
    }
}

/// Whether chunk `i` feeds an instance with check point `cp`.
pub open spec fn check_point_has(cp: CheckPoint, i: int) -> bool {
    match cp {
        CheckPoint::NoChunk => false,
        CheckPoint::Single(c) => c.0 == i,
        CheckPoint::Multiple(v) => exists|j: int| 0 <= j < v@.len() && (#[trigger] v@[j]).0 == i,
    }
}

/// Every chunk of `cp` is one of the first `n`.
pub open spec fn check_point_within(cp: CheckPoint, n: int) -> bool {
    match cp {
        CheckPoint::NoChunk => true,
        CheckPoint::Single(c) => c.0 < n,
        CheckPoint::Multiple(v) => forall|j: int| 0 <= j < v@.len() ==> (#[trigger] v@[j]).0 < n,
    }
}

/// Which of the first `num_chunks` chunks must be replayed for an instance with
/// check point `check_point`; `None` where the check point names a chunk past them.
pub fn chunks_to_execute(num_chunks: usize, check_point: &CheckPoint) -> (r: Option<Vec<bool>>)
    ensures
        r is Some <==> check_point_within(*check_point, num_chunks as int),
        r is Some ==> r->Some_0@.len() == num_chunks && forall|i: int|
            0 <= i < num_chunks ==> #[trigger] r->Some_0@[i] == check_point_has(*check_point, i),
{
    let mut chunks: Vec<bool> = Vec::with_capacity(num_chunks);
    let mut i: usize = 0;
    while i < num_chunks
        invariant
            i <= num_chunks,
            chunks@.len() == i,
            forall|j: int| 0 <= j < i ==> !chunks@[j],
        decreases num_chunks - i,
    {
        chunks.push(false);
        i = i + 1;
    }
    match check_point {
        CheckPoint::NoChunk => {},
        CheckPoint::Single(c) => {
            if c.0 >= num_chunks {
                return None;
            }
            chunks[c.0] = true;
        },
        CheckPoint::Multiple(ids) => {
            let mut k: usize = 0;
            while k < ids.len()
                invariant
                    k <= ids@.len(),
                    *check_point == CheckPoint::Multiple(*ids),
                    chunks@.len() == num_chunks,
                    forall|j: int| 0 <= j < k ==> (#[trigger] ids@[j]).0 < num_chunks,
                    forall|i: int|
                        0 <= i < num_chunks ==> #[trigger] chunks@[i] == exists|j: int|
                            0 <= j < k && (#[trigger] ids@[j]).0 == i,
                decreases ids@.len() - k,
            {
                let c = ids[k];
                if c.0 >= num_chunks {
                    assert(ids@[k as int].0 >= num_chunks);
                    let ghost v = check_point->Multiple_0;
                    assert(v@[k as int].0 >= num_chunks);
                    assert(!check_point_within(*check_point, num_chunks as int));
                    return None;
                }
                let ghost before = chunks@;
                chunks[c.0] = true;
                assert forall|i: int| 0 <= i < num_chunks implies #[trigger] chunks@[i] == exists|j: int|
                    0 <= j < k + 1 && (#[trigger] ids@[j]).0 == i by {
                    if chunks@[i] && i != c.0 {
                        assert(before[i]);
                    }
                    if i == c.0 {
                        assert(ids@[k as int].0 == i);
                    }
                }
                k = k + 1;
            }
        },
    }
    Some(chunks)
}

/// Where a global id was registered: its air group and air.
#[derive(Clone, Copy, Debug, PartialEq, Eq)]
pub struct InstanceInfo {
    pub airgroup_id: usize,
    pub air_id: usize,
    pub instance_type: InstanceType,
}

/// Hands out global ids in sequence and remembers what each was given for.
pub struct InstanceRegistry {
    infos: Vec<InstanceInfo>,
}

impl View for InstanceRegistry {
    type V = Seq<InstanceInfo>;

    closed spec fn view(&self) -> Seq<InstanceInfo> {
        self.infos@
    }
}

impl InstanceRegistry {
    pub fn new() -> (r: InstanceRegistry)
        ensures
            r@.len() == 0,
    {
        InstanceRegistry { infos: Vec::new() }
    }

    pub fn len(&self) -> (r: usize)
        ensures
            r == self@.len(),
    {
        self.infos.len()
    }

    /// Registers an instance of `air_id` in `airgroup_id` and returns its global id,
    /// the next unused one.
    pub fn add_instance(&mut self, airgroup_id: usize, air_id: usize, instance_type: InstanceType) -> (id: usize)
        ensures
            id == old(self)@.len(),
            final(self)@ == old(self)@.push(InstanceInfo { airgroup_id, air_id, instance_type }),
    {
        let id = self.infos.len();
        self.infos.push(InstanceInfo { airgroup_id, air_id, instance_type });
        id
    }

    pub fn instance_info(&self, global_id: usize) -> (r: Option<InstanceInfo>)
        ensures
            r == if global_id < self@.len() {
                Some(self@[global_id as int])
            } else {
                None::<InstanceInfo>
            },
    {
        if global_id < self.infos.len() {
            Some(self.infos[global_id])
        } else {
            None
        }
    }
}

/// Plan `i` is the first of `plans` that holds the global id `id`.
pub open spec fn is_first_with_id(plans: Seq<Plan>, id: usize, i: int) -> bool {
    &&& 0 <= i < plans.len()
    &&& plans[i].global_id == Some(id)
    &&& forall|j: int| 0 <= j < i ==> (#[trigger] plans[j]).global_id != Some(id)
}

pub open spec fn has_id(plans: Seq<Plan>, id: usize) -> bool {
    exists|i: int| 0 <= i < plans.len() && (#[trigger] plans[i]).global_id == Some(id)
}

pub open spec fn first_with_id(plans: Seq<Plan>, id: usize) -> int {
    choose|i: int| is_first_with_id(plans, id, i)
}

pub proof fn lemma_first_unique(plans: Seq<Plan>, id: usize, i: int)
    requires
        is_first_with_id(plans, id, i),
    ensures
        first_with_id(plans, id) == i,
{
    let k = first_with_id(plans, id);
    assert(is_first_with_id(plans, id, k));
    if k < i {
        assert(plans[k].global_id != Some(id));
    }
    if i < k {
        assert(plans[i].global_id != Some(id));
    }
}

/// Finds the first plan that holds the global id `id`.
pub fn position_of(plans: &Vec<Plan>, id: usize) -> (r: Option<usize>)
    ensures
        match r {
            Some(i) => is_first_with_id(plans@, id, i as int) && first_with_id(plans@, id) == i,
            None => !has_id(plans@, id),
        },
{
    let mut i: usize = 0;
    while i < plans.len()
        invariant
            i <= plans@.len(),
            forall|j: int| 0 <= j < i ==> (#[trigger] plans@[j]).global_id != Some(id),
        decreases plans@.len() - i,
    {
        if plans[i].global_id == Some(id) {
            proof {
                lemma_first_unique(plans@, id, i as int);
            }
            return Some(i);
        }
        i = i + 1;
    }
    None
}

} // verus!
