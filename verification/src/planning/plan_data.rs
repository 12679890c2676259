//! The incremental tree search: a frontier of candidate partial plans is
//! expanded depth-first, worlds satisfying the current goal become solution
//! leaves, and the cheapest plan found so far is kept per goal name.

use vstd::prelude::*;

use std::collections::VecDeque;

use crate::data::{
    assoc_find, assoc_insert, assoc_map, keys_unique, req_validate, sat_add, Num, UniqueName,
    ValueV, WorldState,
};
use crate::planning::goals::{Goal, GoalV};
use crate::planning::tree::Node;
use crate::tasks::{
    precon_spec, task_name, tasks_view, DescV, Task, TaskRegistry, TaskV,
};

verus! {

/// The mathematical value of a stored plan: the task sequence in
/// leaf-to-root order, and the total cost.
#[verifier::ext_equal]
pub struct PlanV {
    pub tasks: Seq<TaskV>,
    pub cost: int,
}

/// An ordered sequence of tasks with its total cost. The tasks stand in
/// leaf-to-root order: consuming them from the tail yields execution order.
#[derive(Debug)]
pub struct Plan {
    pub tasks: VecDeque<Task>,
    pub cost: Num,
}

impl View for Plan {
    type V = PlanV;

    open spec fn view(&self) -> PlanV {
        PlanV { tasks: tasks_view(self.tasks@), cost: self.cost@ }
    }
}

impl Plan {
    /// The flat primitive names of the plan's tasks, in stored order.
    pub fn decompose_tasks(&self) -> (r: Vec<String>)
        ensures
            crate::tasks::strs_view(r@) == crate::tasks::fwd_concat(self@.tasks),
    {
        let n = self.tasks.len();
        let mut v: Vec<Task> = Vec::new();
        let mut i: usize = 0;
        while i < n
            invariant
                n == self.tasks@.len(),
                i <= n,
                v@.len() == i,
                forall|j: int| 0 <= j < i ==> v@[j]@ == self.tasks@[j]@,
            decreases n - i,
        {
            v.push(self.tasks[i].clone());
            i += 1;
        }
        proof {
            crate::tasks::lemma_tasks_view(v@);
            crate::tasks::lemma_tasks_view(self.tasks@);
            assert(tasks_view(v@) =~= tasks_view(self.tasks@));
        }
        Task::decompose_iter(&v)
    }

    /// The names of the plan's tasks, in stored order.
    pub fn simple_print_tasks(&self) -> (r: Vec<String>)
        ensures
            r@.len() == self@.tasks.len(),
            forall|i: int| 0 <= i < r@.len() ==> r@[i]@ == task_name(self@.tasks[i]),
    {
        let n = self.tasks.len();
        let mut v: Vec<String> = Vec::new();
        let mut i: usize = 0;
        proof {
            crate::tasks::lemma_tasks_view(self.tasks@);
        }
        while i < n
            invariant
                n == self.tasks@.len(),
                i <= n,
                v@.len() == i,
                tasks_view(self.tasks@).len() == n,
                forall|j: int| 0 <= j < n ==> tasks_view(self.tasks@)[j] == self.tasks@[j]@,
                forall|j: int| 0 <= j < i ==> v@[j]@ == task_name(tasks_view(self.tasks@)[j]),
            decreases n - i,
        {
            v.push(self.tasks[i].name());
            i += 1;
        }
        v
    }
}

impl Clone for Plan {
    fn clone(&self) -> (r: Self)
        ensures
            r@ == self@,
    {
        let n = self.tasks.len();
        let mut tasks: VecDeque<Task> = VecDeque::new();
        let mut i: usize = 0;
        while i < n
            invariant
                n == self.tasks@.len(),
                i <= n,
                tasks@.len() == i,
                forall|j: int| 0 <= j < i ==> tasks@[j]@ == self.tasks@[j]@,
            decreases n - i,
        {
            tasks.push_back(self.tasks[i].clone());
            i += 1;
        }
        proof {
            crate::tasks::lemma_tasks_view(tasks@);
            crate::tasks::lemma_tasks_view(self.tasks@);
            assert(tasks_view(tasks@) =~= tasks_view(self.tasks@));
        }
        Plan { tasks, cost: self.cost }
    }
}

impl Default for Plan {
    fn default() -> (r: Self)
        ensures
            r@.tasks.len() == 0,
            r@.cost == 0,
    {
        Plan { tasks: VecDeque::new(), cost: Num { units: 0 } }
    }
}

/// The mathematical value of one search node.
#[verifier::ext_equal]
pub struct NodeV {
    pub task: Option<TaskV>,
    pub world: Map<Seq<char>, ValueV>,
    pub cost: int,
    pub depth: int,
    pub parent: Option<int>,
}

/// One candidate state of the search: the task performed to reach it, the
/// world it results in, the cumulative cost, and the depth.
#[derive(Debug)]
pub struct PlanNode {
    pub task: Option<Task>,
    pub world: WorldState,
    pub cost: Num,
    pub depth: u32,
}

/// The mathematical value of an arena node.
pub open spec fn node_v(n: Node<PlanNode>) -> NodeV {
    NodeV {
        task: match n.value.task {
            Some(t) => Some(t@),
            None => None,
        },
        world: n.value.world@,
        cost: n.value.cost@,
        depth: n.value.depth as int,
        parent: match n.parent {
            Some(p) => Some(p as int),
            None => None,
        },
    }
}

/// The mathematical values of an arena.
pub open spec fn nodes_v(s: Seq<Node<PlanNode>>) -> Seq<NodeV> {
    Seq::new(s.len(), |i: int| node_v(s[i]))
}

/// The name of the task that made a node; a taskless node reads as "0".
pub open spec fn node_name(nodes: Seq<NodeV>, i: int) -> Seq<char> {
    match nodes[i].task {
        Some(t) => task_name(t),
        None => seq!['0'],
    }
}

/// The four most recent steps that end at node `i` alternate between two
/// task names: the pattern the recursion guard rejects. Only this period-2
/// pattern is caught.
pub open spec fn has_rec_v(nodes: Seq<NodeV>, i: int) -> bool {
    match nodes[i].parent {
        None => false,
        Some(p1) => match nodes[p1].parent {
            None => false,
            Some(p2) => match nodes[p2].parent {
                None => false,
                Some(p3) => node_name(nodes, i) == node_name(nodes, p2) && node_name(nodes, p1)
                    == node_name(nodes, p3),
            },
        },
    }
}

/// One node's structural soundness within its arena: it carries a task, its
/// parent was created earlier and passed the recursion guard, and depth
/// counts the chain.
pub open spec fn node_ok(nodes: Seq<NodeV>, i: int) -> bool {
    &&& nodes[i].task is Some
    &&& match nodes[i].parent {
        Some(p) => 0 <= p < i && !has_rec_v(nodes, p) && nodes[i].depth == nodes[p].depth + 1,
        None => nodes[i].depth == 0,
    }
}

/// The arena is append-only and sound: every node satisfies `node_ok`.
pub open spec fn arena_wf(nodes: Seq<NodeV>) -> bool {
    forall|i: int| 0 <= i < nodes.len() ==> node_ok(nodes, i)
}

/// The tasks along a node's ancestor chain, leaf first.
pub open spec fn chain_tasks(nodes: Seq<NodeV>, i: int) -> Seq<TaskV>
    decreases i,
{
    if !(0 <= i < nodes.len()) {
        Seq::empty()
    } else {
        match nodes[i].task {
            None => Seq::empty(),
            Some(t) => match nodes[i].parent {
                Some(p) => if 0 <= p < i {
                    seq![t] + chain_tasks(nodes, p)
                } else {
                    seq![t]
                },
                None => seq![t],
            },
        }
    }
}

/// The plan a leaf stands for: its chain's tasks, leaf first, at the leaf's
/// cumulative cost.
pub open spec fn plan_of(nodes: Seq<NodeV>, i: int) -> PlanV {
    PlanV { tasks: chain_tasks(nodes, i), cost: nodes[i].cost }
}

/// The mathematical value of the whole search state.
#[verifier::ext_equal]
pub struct GenV {
    pub nodes: Seq<NodeV>,
    pub frontier: Seq<int>,
    pub leaves: Seq<int>,
    pub goals: Seq<GoalV>,
    pub plans: Map<Seq<char>, PlanV>,
    pub tasks: Seq<TaskV>,
}

/// The search state's indices all point into the arena, and the arena is
/// sound.
pub open spec fn gen_wf(g: GenV) -> bool {
    &&& arena_wf(g.nodes)
    &&& forall|i: int| 0 <= i < g.frontier.len() ==> 0 <= #[trigger] g.frontier[i] < g.nodes.len()
    &&& forall|i: int| 0 <= i < g.leaves.len() ==> 0 <= #[trigger] g.leaves[i] < g.nodes.len()
}

/// An incremental, resumable tree search over task sequences, keyed to one
/// agent: the frontier of pending nodes, the accepted solution leaves, the
/// candidate goals sorted ascending by utility, the per-goal plan table,
/// and the tasks available for expansion.
#[derive(Debug)]
pub struct TimeSlicedTreeGen {
    nodes: Vec<Node<PlanNode>>,
    active_nodes: VecDeque<usize>,
    valid_nodes: Vec<usize>,
    goals: Vec<Goal>,
    plans: Vec<(UniqueName, Plan)>,
    available_tasks: Vec<Task>,
}

impl View for TimeSlicedTreeGen {
    type V = GenV;

    closed spec fn view(&self) -> GenV {
        GenV {
            nodes: nodes_v(self.nodes@),
            frontier: Seq::new(self.active_nodes@.len(), |i: int| self.active_nodes@[i] as int),
            leaves: Seq::new(self.valid_nodes@.len(), |i: int| self.valid_nodes@[i] as int),
            goals: Seq::new(self.goals@.len(), |i: int| self.goals@[i]@),
            plans: assoc_map(self.plans@),
            tasks: tasks_view(self.available_tasks@),
        }
    }
}

impl TimeSlicedTreeGen {
    /// The whole search state is sound: indices in range, node worlds and
    /// goals well-formed, plan keys unique.
    pub closed spec fn wf(&self) -> bool {
        &&& gen_wf(self@)
        &&& forall|i: int|
            0 <= i < self.nodes@.len() ==> (#[trigger] self.nodes@[i]).value.world.wf()
        &&& forall|i: int| 0 <= i < self.goals@.len() ==> (#[trigger] self.goals@[i]).wf()
        &&& keys_unique(self.plans@)
    }

    /// An empty search: no nodes, no goals, no tasks, no plans.
    pub fn new() -> (r: TimeSlicedTreeGen)
        ensures
            r.wf(),
            r@ == (GenV {
                nodes: Seq::<NodeV>::empty(),
                frontier: Seq::<int>::empty(),
                leaves: Seq::<int>::empty(),
                goals: Seq::<GoalV>::empty(),
                plans: Map::<Seq<char>, PlanV>::empty(),
                tasks: Seq::<TaskV>::empty(),
            }),
    {
        let r = TimeSlicedTreeGen {
            nodes: Vec::new(),
            active_nodes: VecDeque::new(),
            valid_nodes: Vec::new(),
            goals: Vec::new(),
            plans: Vec::new(),
            available_tasks: Vec::new(),
        };
        proof {
            assert(r@ =~= (GenV {
                nodes: Seq::<NodeV>::empty(),
                frontier: Seq::<int>::empty(),
                leaves: Seq::<int>::empty(),
                goals: Seq::<GoalV>::empty(),
                plans: Map::<Seq<char>, PlanV>::empty(),
                tasks: Seq::<TaskV>::empty(),
            }));
        }
        r
    }

    /// A search over the given available tasks and candidate goals, the
    /// goals sorted ascending by utility so the last is the one pursued.
    pub fn new_initialized(tasks: Vec<Task>, goals: Vec<Goal>) -> (r: TimeSlicedTreeGen)
        requires
            forall|i: int| 0 <= i < goals@.len() ==> (#[trigger] goals@[i]).wf(),
        ensures
            r.wf(),
            r@.tasks == tasks_view(tasks@),
            r@.goals == sort_goals_v(goals_view(goals@)),
            r@.nodes.len() == 0,
            r@.frontier.len() == 0,
            r@.leaves.len() == 0,
            r@.plans == Map::<Seq<char>, PlanV>::empty(),
    {
        let ghost gv = goals_view(goals@);
        let n = goals.len();
        let mut sorted: Vec<Goal> = Vec::new();
        let mut i: usize = 0;
        proof {
            assert(goals_view(sorted@) =~= Seq::<GoalV>::empty());
            assert(gv.take(0) =~= Seq::<GoalV>::empty());
            assert(goals_view(sorted@) =~= sort_goals_v(gv.take(0)));
        }
        while i < n
            invariant
                n == goals@.len(),
                i <= n,
                gv == goals_view(goals@),
                forall|j: int| 0 <= j < n ==> (#[trigger] goals@[j]).wf(),
                forall|j: int| 0 <= j < sorted@.len() ==> (#[trigger] sorted@[j]).wf(),
                goals_view(sorted@) == sort_goals_v(gv.take(i as int)),
            decreases n - i,
        {
            let g = goals[i].clone();
            let ghost sv = goals_view(sorted@);
            let mut idx = sorted.len();
            while idx > 0 && sorted[idx - 1].utility.units > g.utility.units
                invariant
                    idx <= sorted@.len(),
                    sv == goals_view(sorted@),
                    sv.len() == sorted@.len(),
                    forall|j: int| idx <= j < sv.len() ==> sv[j].utility > g@.utility,
                decreases idx,
            {
                proof {
                    assert(sv[idx - 1] == sorted@[idx - 1]@);
                }
                idx -= 1;
            }
            proof {
                assert(idx > 0 ==> sv[idx - 1] == sorted@[idx - 1]@);
            }
            let ghost pre_sorted = sorted@;
            sorted.insert(idx, g);
            proof {
                lemma_insert_sorted_at(goals_view(pre_sorted), g@, idx as int);
                assert(goals_view(sorted@) =~= goals_view(pre_sorted).take(idx as int).push(g@)
                    + goals_view(pre_sorted).skip(idx as int));
                assert(gv.take(i as int + 1).drop_last() =~= gv.take(i as int));
                assert(gv.take(i as int + 1).last() == gv[i as int]);
                assert(g@ == gv[i as int]);
                assert(goals_view(sorted@) == sort_goals_v(gv.take(i as int + 1)));
            }
            i += 1;
        }
        proof {
            assert(gv.take(n as int) =~= gv);
        }
        let r = TimeSlicedTreeGen {
            nodes: Vec::new(),
            active_nodes: VecDeque::new(),
            valid_nodes: Vec::new(),
            goals: sorted,
            plans: Vec::new(),
            available_tasks: tasks,
        };
        proof {
            assert(r@.nodes =~= Seq::<NodeV>::empty());
            assert(r@.frontier =~= Seq::<int>::empty());
            assert(r@.leaves =~= Seq::<int>::empty());
            assert(r@.plans =~= Map::<Seq<char>, PlanV>::empty());
            assert(r@.goals =~= goals_view(r.goals@));
        }
        r
    }

    /// The plan stored for a goal name, if any.
    pub fn get_plan(&self, goal_name: &str) -> (r: Option<&Plan>)
        requires
            self.wf(),
        ensures
            r is Some <==> self@.plans.contains_key(goal_name@),
            r matches Some(p) ==> p@ == self@.plans[goal_name@],
    {
        assoc_find(&self.plans, &UniqueName::new(goal_name))
    }
}

/// The effective depth limit: the configured one, or the largest depth the
/// counter can hold.
pub open spec fn limit_v(l: Option<u32>) -> int {
    match l {
        Some(x) => x as int,
        None => u32::MAX as int,
    }
}

/// A task is a candidate in a world: its net precondition resolves and the
/// world meets it.
pub open spec fn precon_ok(
    t: TaskV,
    reg: Map<Seq<char>, DescV>,
    w: Map<Seq<char>, ValueV>,
) -> bool {
    match precon_spec(t, reg) {
        Some(pre) => req_validate(pre, w),
        None => false,
    }
}

/// The available tasks that are candidates in a world, in list order.
pub open spec fn possible_v(
    ts: Seq<TaskV>,
    reg: Map<Seq<char>, DescV>,
    w: Map<Seq<char>, ValueV>,
) -> Seq<TaskV>
    decreases ts.len(),
{
    if ts.len() == 0 {
        Seq::empty()
    } else {
        let rest = possible_v(ts.drop_first(), reg, w);
        if precon_ok(ts[0], reg, w) {
            seq![ts[0]] + rest
        } else {
            rest
        }
    }
}

/// The root node a candidate task seeds from the starting world: only a
/// registered primitive seeds one.
pub open spec fn seed_node_v(
    t: TaskV,
    reg: Map<Seq<char>, DescV>,
    world: Map<Seq<char>, ValueV>,
) -> Option<NodeV> {
    match t {
        TaskV::Primitive(n) => if reg.contains_key(n) {
            Some(
                NodeV {
                    task: Some(t),
                    world: world.union_prefer_right(reg[n].post),
                    cost: reg[n].cost,
                    depth: 0,
                    parent: None,
                },
            )
        } else {
            None
        },
        TaskV::Macro(_, _) => None,
    }
}

/// The child node a candidate task makes under a parent node: only a
/// registered primitive makes one.
pub open spec fn child_v(
    nodes: Seq<NodeV>,
    parent: int,
    t: TaskV,
    reg: Map<Seq<char>, DescV>,
) -> Option<NodeV> {
    match t {
        TaskV::Primitive(n) => if reg.contains_key(n) {
            Some(
                NodeV {
                    task: Some(t),
                    world: nodes[parent].world.union_prefer_right(reg[n].post),
                    cost: sat_add(nodes[parent].cost, reg[n].cost),
                    depth: nodes[parent].depth + 1,
                    parent: Some(parent),
                },
            )
        } else {
            None
        },
        TaskV::Macro(_, _) => None,
    }
}

/// Seeding: each candidate in turn roots a depth-0 node, appended to the
/// back of the frontier.
pub open spec fn seed_fold(
    g: GenV,
    seeds: Seq<TaskV>,
    reg: Map<Seq<char>, DescV>,
    world: Map<Seq<char>, ValueV>,
) -> GenV
    decreases seeds.len(),
{
    if seeds.len() == 0 {
        g
    } else {
        let g1 = match seed_node_v(seeds[0], reg, world) {
            Some(nd) => GenV {
                nodes: g.nodes.push(nd),
                frontier: g.frontier.push(g.nodes.len() as int),
                leaves: g.leaves,
                goals: g.goals,
                plans: g.plans,
                tasks: g.tasks,
            },
            None => g,
        };
        seed_fold(g1, seeds.drop_first(), reg, world)
    }
}

/// What seeding the search does: nothing while the frontier is busy, else
/// one root per candidate task against the starting world.
pub open spec fn seed_spec(
    g: GenV,
    reg: Map<Seq<char>, DescV>,
    world: Map<Seq<char>, ValueV>,
) -> GenV {
    if g.frontier.len() > 0 {
        g
    } else {
        seed_fold(g, possible_v(g.tasks, reg, world), reg, world)
    }
}

/// Expansion: each candidate in turn makes a child of the node at `parent`,
/// pushed to the front of the frontier.
pub open spec fn expand_fold(
    g: GenV,
    parent: int,
    ts: Seq<TaskV>,
    reg: Map<Seq<char>, DescV>,
) -> GenV
    decreases ts.len(),
{
    if ts.len() == 0 {
        g
    } else {
        let g1 = match child_v(g.nodes, parent, ts[0], reg) {
            Some(nd) => GenV {
                nodes: g.nodes.push(nd),
                frontier: seq![g.nodes.len() as int] + g.frontier,
                leaves: g.leaves,
                goals: g.goals,
                plans: g.plans,
                tasks: g.tasks,
            },
            None => g,
        };
        expand_fold(g1, parent, ts.drop_first(), reg)
    }
}

/// One expansion step: pop the front node; a node whose world satisfies the
/// goal becomes a leaf; a node at the depth limit, or one the recursion
/// guard rejects, is discarded; any other node begets one child per
/// candidate task of its world.
pub open spec fn gen_single_spec(
    g: GenV,
    goal: GoalV,
    reg: Map<Seq<char>, DescV>,
    limit: int,
) -> GenV {
    if g.frontier.len() == 0 {
        g
    } else {
        let idx = g.frontier[0];
        let g_pop = GenV {
            nodes: g.nodes,
            frontier: g.frontier.drop_first(),
            leaves: g.leaves,
            goals: g.goals,
            plans: g.plans,
            tasks: g.tasks,
        };
        if req_validate(goal.requires, g.nodes[idx].world) {
            GenV {
                nodes: g_pop.nodes,
                frontier: g_pop.frontier,
                leaves: g_pop.leaves.push(idx),
                goals: g_pop.goals,
                plans: g_pop.plans,
                tasks: g_pop.tasks,
            }
        } else if g.nodes[idx].depth >= limit || has_rec_v(g.nodes, idx) {
            g_pop
        } else {
            expand_fold(g_pop, idx, possible_v(g.tasks, reg, g.nodes[idx].world), reg)
        }
    }
}

/// One emission step: pop the most recently accepted leaf and store its
/// plan under the goal's name, unless a plan no costlier than it is already
/// stored.
pub open spec fn emit_single_spec(g: GenV, goal: GoalV) -> GenV {
    if g.leaves.len() == 0 {
        g
    } else {
        let idx = g.leaves.last();
        let g_pop = GenV {
            nodes: g.nodes,
            frontier: g.frontier,
            leaves: g.leaves.drop_last(),
            goals: g.goals,
            plans: g.plans,
            tasks: g.tasks,
        };
        let plan = plan_of(g.nodes, idx);
        if g.plans.contains_key(goal.name) && !(plan.cost < g.plans[goal.name].cost) {
            g_pop
        } else {
            GenV {
                nodes: g_pop.nodes,
                frontier: g_pop.frontier,
                leaves: g_pop.leaves,
                goals: g_pop.goals,
                plans: g_pop.plans.insert(goal.name, plan),
                tasks: g_pop.tasks,
            }
        }
    }
}

/// The views of a goal sequence.
pub open spec fn goals_view(s: Seq<Goal>) -> Seq<GoalV> {
    Seq::new(s.len(), |i: int| s[i]@)
}

/// Places a goal into an ascending-by-utility sequence, after every goal of
/// utility at most its own: the insertion step of a stable sort.
pub open spec fn insert_sorted_v(s: Seq<GoalV>, g: GoalV) -> Seq<GoalV>
    decreases s.len(),
{
    if s.len() == 0 {
        seq![g]
    } else if s.last().utility <= g.utility {
        s.push(g)
    } else {
        insert_sorted_v(s.drop_last(), g).push(s.last())
    }
}

/// The stable ascending-by-utility ordering of a goal sequence: goals of
/// equal utility keep their relative order, so the last element is the last
/// listed among those of highest utility.
pub open spec fn sort_goals_v(s: Seq<GoalV>) -> Seq<GoalV>
    decreases s.len(),
{
    if s.len() == 0 {
        Seq::empty()
    } else {
        insert_sorted_v(sort_goals_v(s.drop_last()), s.last())
    }
}

/// Where the insertion step places the new goal: right before the first
/// position from which every utility exceeds its own.
proof fn lemma_insert_sorted_at(s: Seq<GoalV>, g: GoalV, idx: int)
    requires
        0 <= idx <= s.len(),
        forall|j: int| idx <= j < s.len() ==> s[j].utility > g.utility,
        idx > 0 ==> s[idx - 1].utility <= g.utility,
    ensures
        insert_sorted_v(s, g) == s.take(idx).push(g) + s.skip(idx),
    decreases s.len(),
{
    if s.len() == 0 {
        assert(insert_sorted_v(s, g) =~= s.take(idx).push(g) + s.skip(idx));
    } else if s.last().utility <= g.utility {
        assert(idx == s.len());
        assert(s.take(idx) =~= s);
        assert(insert_sorted_v(s, g) =~= s.take(idx).push(g) + s.skip(idx));
    } else {
        assert(idx < s.len());
        let d = s.drop_last();
        assert(forall|j: int| idx <= j < d.len() ==> d[j] == s[j]);
        assert(idx > 0 ==> d[idx - 1] == s[idx - 1]);
        lemma_insert_sorted_at(d, g, idx);
        assert(insert_sorted_v(s, g) == insert_sorted_v(d, g).push(s.last()));
        assert(d.take(idx) =~= s.take(idx));
        assert((d.take(idx).push(g) + d.skip(idx)).push(s.last()) =~= s.take(idx).push(g)
            + s.skip(idx));
    }
}

/// One tick of search work: one expansion step followed by one emission
/// step.
pub open spec fn step_spec(g: GenV, goal: GoalV, reg: Map<Seq<char>, DescV>, limit: int) -> GenV {
    emit_single_spec(gen_single_spec(g, goal, reg, limit), goal)
}

/// The search state after `n` ticks from `g`.
pub open spec fn run_steps(
    g: GenV,
    goal: GoalV,
    reg: Map<Seq<char>, DescV>,
    limit: int,
    n: nat,
) -> GenV
    decreases n,
{
    if n == 0 {
        g
    } else {
        run_steps(step_spec(g, goal, reg, limit), goal, reg, limit, (n - 1) as nat)
    }
}

/// Ticks compose: one more tick is one tick after the run.
pub proof fn lemma_run_snoc(g: GenV, goal: GoalV, reg: Map<Seq<char>, DescV>, limit: int, n: nat)
    ensures
        run_steps(g, goal, reg, limit, n + 1) == step_spec(
            run_steps(g, goal, reg, limit, n),
            goal,
            reg,
            limit,
        ),
    decreases n,
{
    let stepped = step_spec(g, goal, reg, limit);
    assert(run_steps(g, goal, reg, limit, n + 1) == run_steps(stepped, goal, reg, limit, n));
    if n == 0 {
        assert(run_steps(stepped, goal, reg, limit, 0) == stepped);
        assert(run_steps(g, goal, reg, limit, 0) == g);
    } else {
        lemma_run_snoc(stepped, goal, reg, limit, (n - 1) as nat);
        assert(run_steps(g, goal, reg, limit, n) == run_steps(
            stepped,
            goal,
            reg,
            limit,
            (n - 1) as nat,
        ));
    }
}

/// Appending a sound node to a sound arena keeps it sound, and changes no
/// earlier node's recursion-guard answer.
pub proof fn lemma_arena_push(nodes: Seq<NodeV>, node: NodeV)
    requires
        arena_wf(nodes),
        node.task is Some,
        match node.parent {
            Some(p) => 0 <= p < nodes.len() && !has_rec_v(nodes, p) && node.depth == nodes[p].depth
                + 1,
            None => node.depth == 0,
        },
    ensures
        arena_wf(nodes.push(node)),
        forall|j: int| 0 <= j < nodes.len() ==> has_rec_v(nodes.push(node), j) == has_rec_v(
            nodes,
            j,
        ),
{
    let pushed = nodes.push(node);
    assert(forall|x: int| 0 <= x < nodes.len() ==> pushed[x] == nodes[x]);
    assert forall|j: int| 0 <= j < nodes.len() implies has_rec_v(pushed, j) == has_rec_v(
        nodes,
        j,
    ) by {
        assert(node_ok(nodes, j));
        if nodes[j].parent is Some {
            let p1 = nodes[j].parent->0;
            assert(node_ok(nodes, p1));
            if nodes[p1].parent is Some {
                let p2 = nodes[p1].parent->0;
                assert(node_ok(nodes, p2));
            }
        }
    }
    assert forall|i: int| 0 <= i < pushed.len() implies node_ok(pushed, i) by {
        if i < nodes.len() {
            assert(node_ok(nodes, i));
        }
    }
}

impl TimeSlicedTreeGen {
    /// The available tasks whose net preconditions the given world meets,
    /// in list order. A task whose precondition does not resolve is left
    /// out rather than failing the search.
    fn possible_tasks(&self, world: &WorldState, task_registry: &TaskRegistry) -> (r: Vec<Task>)
        requires
            self.wf(),
            world.wf(),
            task_registry.wf(),
        ensures
            tasks_view(r@) == possible_v(self@.tasks, task_registry@, world@),
    {
        let ghost av = tasks_view(self.available_tasks@);
        let mut n_vec: Vec<Task> = Vec::new();
        let n = self.available_tasks.len();
        let mut i: usize = 0;
        proof {
            crate::tasks::lemma_tasks_view(self.available_tasks@);
            assert(av.skip(0) =~= av);
            assert(tasks_view(n_vec@) =~= Seq::<TaskV>::empty());
        }
        while i < n
            invariant
                n == self.available_tasks@.len(),
                i <= n,
                world.wf(),
                task_registry.wf(),
                av == tasks_view(self.available_tasks@),
                av.len() == n,
                forall|j: int| 0 <= j < n ==> av[j] == self.available_tasks@[j]@,
                tasks_view(n_vec@) + possible_v(av.skip(i as int), task_registry@, world@)
                    == possible_v(av, task_registry@, world@),
            decreases n - i,
        {
            proof {
                assert(av.skip(i as int)[0] == av[i as int]);
                assert(av.skip(i as int).drop_first() =~= av.skip(i as int + 1));
            }
            let task = &self.available_tasks[i];
            let mut keep = false;
            match task_registry.precon(task) {
                Some(precon) => {
                    if precon.validate(world) {
                        keep = true;
                    }
                },
                None => {},
            }
            if keep {
                let ghost pre_nv = n_vec@;
                n_vec.push(task.clone());
                proof {
                    crate::tasks::lemma_tasks_view(pre_nv);
                    crate::tasks::lemma_tasks_view(n_vec@);
                    assert(tasks_view(n_vec@) =~= tasks_view(pre_nv).push(av[i as int]));
                    assert(tasks_view(pre_nv).push(av[i as int]) + possible_v(
                        av.skip(i as int + 1),
                        task_registry@,
                        world@,
                    ) =~= tasks_view(pre_nv) + possible_v(av.skip(i as int), task_registry@,
                    world@));
                }
            }
            i += 1;
        }
        proof {
            assert(av.skip(n as int) =~= Seq::<TaskV>::empty());
            assert(tasks_view(n_vec@) + Seq::<TaskV>::empty() =~= tasks_view(n_vec@));
        }
        n_vec
    }

    /// Whether the chain ending at the node at `idx` closes with the
    /// four-step alternation the recursion guard rejects.
    fn has_recursion(&self, idx: usize) -> (r: bool)
        requires
            self.wf(),
            idx < self@.nodes.len(),
        ensures
            r == has_rec_v(self@.nodes, idx as int),
    {
        proof {
            assert(node_ok(self@.nodes, idx as int));
        }
        let p1 = match self.nodes[idx].parent {
            Some(p) => p,
            None => {
                return false;
            },
        };
        proof {
            assert(node_ok(self@.nodes, p1 as int));
        }
        let p2 = match self.nodes[p1].parent {
            Some(p) => p,
            None => {
                return false;
            },
        };
        proof {
            assert(node_ok(self@.nodes, p2 as int));
        }
        let p3 = match self.nodes[p2].parent {
            Some(p) => p,
            None => {
                return false;
            },
        };
        let t0 = task_name_or_default(&self.nodes[idx].value.task);
        let t1 = task_name_or_default(&self.nodes[p1].value.task);
        let t2 = task_name_or_default(&self.nodes[p2].value.task);
        let t4 = task_name_or_default(&self.nodes[p3].value.task);
        t0 == t2 && t1 == t4
    }

    /// Seeds the frontier from the starting world if it is empty: one
    /// depth-0 node per candidate task, in task-list order.
    fn try_seed_active_nodes(&mut self, registry: &TaskRegistry, current_world: &WorldState)
        requires
            old(self).wf(),
            registry.wf(),
            current_world.wf(),
        ensures
            final(self).wf(),
            final(self)@ == seed_spec(old(self)@, registry@, current_world@),
    {
        if self.active_nodes.len() > 0 {
            return;
        }
        let seeds = self.possible_tasks(current_world, registry);
        let ghost g_start = self@;
        let ghost sv = tasks_view(seeds@);
        let ghost target = seed_fold(g_start, sv, registry@, current_world@);
        let n = seeds.len();
        let mut i: usize = 0;
        proof {
            crate::tasks::lemma_tasks_view(seeds@);
            assert(sv.skip(0) =~= sv);
        }
        while i < n
            invariant
                n == seeds@.len(),
                i <= n,
                registry.wf(),
                current_world.wf(),
                self.wf(),
                sv == tasks_view(seeds@),
                sv.len() == n,
                forall|j: int| 0 <= j < n ==> sv[j] == seeds@[j]@,
                seed_fold(self@, sv.skip(i as int), registry@, current_world@) == target,
            decreases n - i,
        {
            proof {
                assert(sv.skip(i as int)[0] == sv[i as int]);
                assert(sv.skip(i as int).drop_first() =~= sv.skip(i as int + 1));
            }
            let task = &seeds[i];
            match registry.get_task(task) {
                Some(data) => {
                    let seeded_world = current_world.clone().concat(data.postconditions());
                    let cost = data.cost(current_world);
                    let node = Node::<PlanNode> {
                        value: PlanNode {
                            task: Some(task.clone()),
                            world: seeded_world,
                            cost,
                            depth: 0,
                        },
                        parent: None,
                    };
                    let ghost pre = self@;
                    let ghost pre_nodes = self.nodes@;
                    let ghost ndv = node_v(node);
                    let ni = self.nodes.len();
                    proof {
                        assert(seed_node_v(sv[i as int], registry@, current_world@) == Some(
                            ndv,
                        ));
                        lemma_arena_push(pre.nodes, ndv);
                    }
                    self.nodes.push(node);
                    self.active_nodes.push_back(ni);
                    proof {
                        assert(self@.nodes =~= pre.nodes.push(ndv));
                        assert(self@.frontier =~= pre.frontier.push(ni as int));
                        assert(self@.leaves =~= pre.leaves);
                        assert(self@.goals =~= pre.goals);
                        assert(self@.tasks == pre.tasks);
                        assert(self@.plans == pre.plans);
                        assert(self@ =~= (GenV {
                            nodes: pre.nodes.push(ndv),
                            frontier: pre.frontier.push(pre.nodes.len() as int),
                            leaves: pre.leaves,
                            goals: pre.goals,
                            plans: pre.plans,
                            tasks: pre.tasks,
                        }));
                        assert forall|j: int| 0 <= j < self.nodes@.len() implies (
                        #[trigger] self.nodes@[j]).value.world.wf() by {
                            if j < pre_nodes.len() {
                                assert(self.nodes@[j] == pre_nodes[j]);
                            }
                        }
                    }
                },
                None => {
                    proof {
                        assert(seed_node_v(sv[i as int], registry@, current_world@) is None);
                    }
                },
            }
            i += 1;
        }
        proof {
            assert(sv.skip(n as int) =~= Seq::<TaskV>::empty());
        }
    }

    /// Runs expansion and emission ticks until the frontier is exhausted,
    /// deterministically and without a time budget. With no goal selected
    /// the search performs no work; an exhausted frontier that never
    /// produced a leaf simply leaves the goal's plan entry absent.
    pub fn generate_to_completion(
        &mut self,
        registry: &TaskRegistry,
        current_world: &WorldState,
        max_node_depth: Option<u32>,
    )
        requires
            old(self).wf(),
            registry.wf(),
            current_world.wf(),
        ensures
            final(self).wf(),
            old(self)@.goals.len() == 0 ==> final(self)@ == old(self)@,
            old(self)@.goals.len() > 0 ==> exists|n: nat|
                final(self)@ == run_steps(
                    seed_spec(old(self)@, registry@, current_world@),
                    old(self)@.goals.last(),
                    registry@,
                    limit_v(max_node_depth),
                    n,
                ) && final(self)@.frontier.len() == 0,
    {
        let ghost g0 = self@;
        let glen = self.goals.len();
        if glen == 0 {
            return;
        }
        let goal = self.goals[glen - 1].clone();
        proof {
            assert(goal@ == g0.goals.last());
            assert(goal.wf());
        }
        self.try_seed_active_nodes(registry, current_world);
        let ghost seeded = self@;
        let ghost limit = limit_v(max_node_depth);
        self.generate_single(&goal, registry, max_node_depth);
        self.try_emit_single(&goal);
        let ghost mut n: nat = 1;
        proof {
            assert(run_steps(step_spec(seeded, goal@, registry@, limit), goal@, registry@, limit, 0)
                == step_spec(seeded, goal@, registry@, limit));
            assert(self@ == run_steps(seeded, goal@, registry@, limit, 1));
        }
        while self.active_nodes.len() > 0
            invariant
                self.wf(),
                registry.wf(),
                goal.wf(),
                goal@ == g0.goals.last(),
                limit == limit_v(max_node_depth),
                self@ == run_steps(seeded, goal@, registry@, limit, n),
            decreases frontier_measure(self@.nodes, self@.frontier, limit, self@.tasks.len()),
        {
            proof {
                lemma_run_snoc(seeded, goal@, registry@, limit, n);
                lemma_step_measure(self@, goal@, registry@, limit);
                lemma_gen_single_frame(self@, goal@, registry@, limit);
            }
            self.generate_single(&goal, registry, max_node_depth);
            self.try_emit_single(&goal);
            proof {
                n = n + 1;
            }
        }
    }

    /// Runs expansion and emission ticks until the frontier is exhausted or
    /// the granted time budget runs out, whichever comes first; at least
    /// one full tick always runs, and the budget is checked only between
    /// ticks, never mid-tick, so the worst-case overrun is one tick. With
    /// no budget granted the search runs to exhaustion, exactly as
    /// `generate_to_completion` does. A later call resumes the same search
    /// where this one stopped.
    pub fn generate_for_duration(
        &mut self,
        registry: &TaskRegistry,
        current_world: &WorldState,
        duration: Option<core::time::Duration>,
        max_node_depth: Option<u32>,
    )
        requires
            old(self).wf(),
            registry.wf(),
            current_world.wf(),
        ensures
            final(self).wf(),
            old(self)@.goals.len() == 0 ==> final(self)@ == old(self)@,
            old(self)@.goals.len() > 0 ==> exists|n: nat|
                n >= 1 && final(self)@ == run_steps(
                    seed_spec(old(self)@, registry@, current_world@),
                    old(self)@.goals.last(),
                    registry@,
                    limit_v(max_node_depth),
                    n,
                ),
            old(self)@.goals.len() > 0 && duration is None ==> final(self)@.frontier.len() == 0,
    {
        let ghost g0 = self@;
        let glen = self.goals.len();
        if glen == 0 {
            return;
        }
        let goal = self.goals[glen - 1].clone();
        proof {
            assert(goal@ == g0.goals.last());
            assert(goal.wf());
        }
        let timer = crate::timing::instant_now();
        self.try_seed_active_nodes(registry, current_world);
        let ghost seeded = self@;
        let ghost limit = limit_v(max_node_depth);
        self.generate_single(&goal, registry, max_node_depth);
        self.try_emit_single(&goal);
        let ghost mut n: nat = 1;
        proof {
            assert(run_steps(step_spec(seeded, goal@, registry@, limit), goal@, registry@, limit, 0)
                == step_spec(seeded, goal@, registry@, limit));
            assert(self@ == run_steps(seeded, goal@, registry@, limit, 1));
        }
        let mut go = self.active_nodes.len() > 0 && !crate::timing::budget_exhausted(
            &timer,
            &duration,
        );
        while go
            invariant
                self.wf(),
                registry.wf(),
                goal.wf(),
                goal@ == g0.goals.last(),
                limit == limit_v(max_node_depth),
                go ==> self@.frontier.len() > 0,
                !go && duration is None ==> self@.frontier.len() == 0,
                n >= 1,
                self@ == run_steps(seeded, goal@, registry@, limit, n),
            decreases frontier_measure(self@.nodes, self@.frontier, limit, self@.tasks.len()),
        {
            proof {
                lemma_run_snoc(seeded, goal@, registry@, limit, n);
                lemma_step_measure(self@, goal@, registry@, limit);
                lemma_gen_single_frame(self@, goal@, registry@, limit);
            }
            self.generate_single(&goal, registry, max_node_depth);
            self.try_emit_single(&goal);
            proof {
                n = n + 1;
            }
            go = self.active_nodes.len() > 0 && !crate::timing::budget_exhausted(
                &timer,
                &duration,
            );
        }
    }

    /// One expansion step of the search. The front frontier node is popped;
    /// if the current goal's requirements validate against its world it is
    /// accepted as a solution leaf; if its depth has reached the limit or
    /// the recursion guard trips it is discarded; otherwise one child per
    /// candidate task of its world is pushed to the front of the frontier,
    /// for depth-first expansion.
    pub fn generate_single(
        &mut self,
        goal: &Goal,
        task_registry: &TaskRegistry,
        max_node_depth: Option<u32>,
    )
        requires
            old(self).wf(),
            goal.wf(),
            task_registry.wf(),
        ensures
            final(self).wf(),
            final(self)@ == gen_single_spec(
                old(self)@,
                goal@,
                task_registry@,
                limit_v(max_node_depth),
            ),
    {
        let ghost g0 = self@;
        let idx = match self.active_nodes.pop_front() {
            Some(i) => i,
            None => {
                proof {
                    assert(self@ =~= g0);
                }
                return;
            },
        };
        let ghost g_pop = GenV {
            nodes: g0.nodes,
            frontier: g0.frontier.drop_first(),
            leaves: g0.leaves,
            goals: g0.goals,
            plans: g0.plans,
            tasks: g0.tasks,
        };
        proof {
            assert(g0.frontier[0] == idx as int);
            assert(self@.frontier =~= g0.frontier.drop_first());
            assert(self@ =~= g_pop);
            assert(0 <= g0.frontier[0] < g0.nodes.len());
        }
        let node_world = self.nodes[idx].value.world.clone();
        proof {
            assert(g0.nodes[idx as int] == node_v(self.nodes@[idx as int]));
        }
        if goal.requirements.validate(&node_world) {
            let ghost pre = self@;
            self.valid_nodes.push(idx);
            proof {
                assert(self@.leaves =~= pre.leaves.push(idx as int));
                assert(self@.nodes =~= pre.nodes);
                assert(self@.frontier =~= pre.frontier);
                assert(self@.goals =~= pre.goals);
                assert(self@ =~= (GenV {
                    nodes: g_pop.nodes,
                    frontier: g_pop.frontier,
                    leaves: g_pop.leaves.push(idx as int),
                    goals: g_pop.goals,
                    plans: g_pop.plans,
                    tasks: g_pop.tasks,
                }));
            }
            return;
        }
        let limit = match max_node_depth {
            Some(l) => l,
            None => u32::MAX,
        };
        if self.nodes[idx].value.depth >= limit {
            return;
        }
        if self.has_recursion(idx) {
            return;
        }
        let tasks = self.possible_tasks(&node_world, task_registry);
        let ghost tv = tasks_view(tasks@);
        let ghost target = expand_fold(g_pop, idx as int, tv, task_registry@);
        let n = tasks.len();
        let mut i: usize = 0;
        proof {
            assert(tv.skip(0) =~= tv);
            crate::tasks::lemma_tasks_view(tasks@);
        }
        while i < n
            invariant
                n == tasks@.len(),
                i <= n,
                task_registry.wf(),
                self.wf(),
                tv == tasks_view(tasks@),
                tv.len() == n,
                forall|j: int| 0 <= j < n ==> tv[j] == tasks@[j]@,
                idx < self@.nodes.len(),
                self@.nodes[idx as int].depth < u32::MAX,
                !has_rec_v(self@.nodes, idx as int),
                expand_fold(self@, idx as int, tv.skip(i as int), task_registry@) == target,
            decreases n - i,
        {
            proof {
                assert(tv.skip(i as int)[0] == tv[i as int]);
                assert(tv.skip(i as int).drop_first() =~= tv.skip(i as int + 1));
            }
            match self.make_node(idx, &tasks[i], task_registry) {
                Some(nd) => {
                    let ghost pre = self@;
                    let ghost pre_nodes = self.nodes@;
                    let ghost ndv = node_v(nd);
                    let ni = self.nodes.len();
                    proof {
                        assert(child_v(pre.nodes, idx as int, tv[i as int], task_registry@)
                            == Some(ndv));
                        lemma_arena_push(pre.nodes, ndv);
                    }
                    proof {
                        assert(nd.value.world.wf());
                    }
                    self.nodes.push(nd);
                    self.active_nodes.push_front(ni);
                    proof {
                        assert(self@.nodes =~= pre.nodes.push(ndv));
                        assert(self@.frontier =~= seq![ni as int] + pre.frontier);
                        assert(self@.leaves =~= pre.leaves);
                        assert(self@.goals =~= pre.goals);
                        assert(self@ =~= (GenV {
                            nodes: pre.nodes.push(ndv),
                            frontier: seq![pre.nodes.len() as int] + pre.frontier,
                            leaves: pre.leaves,
                            goals: pre.goals,
                            plans: pre.plans,
                            tasks: pre.tasks,
                        }));
                        assert forall|j: int| 0 <= j < self.nodes@.len() implies (
                        #[trigger] self.nodes@[j]).value.world.wf() by {
                            if j < pre_nodes.len() {
                                assert(self.nodes@[j] == pre_nodes[j]);
                            }
                        }
                    }
                },
                None => {
                    proof {
                        assert(child_v(self@.nodes, idx as int, tv[i as int], task_registry@)
                            is None);
                    }
                },
            }
            i += 1;
        }
        proof {
            assert(tv.skip(n as int) =~= Seq::<TaskV>::empty());
        }
    }

    /// One emission step. The most recently accepted leaf is popped and its
    /// plan reconstructed; it is stored under the goal's name only if no
    /// plan is stored there yet, or its cost is strictly lower than the
    /// stored one's.
    pub fn try_emit_single(&mut self, goal: &Goal)
        requires
            old(self).wf(),
        ensures
            final(self).wf(),
            final(self)@ == emit_single_spec(old(self)@, goal@),
    {
        let ghost g0 = self@;
        let idx = match self.valid_nodes.pop() {
            Some(i) => i,
            None => {
                proof {
                    assert(self@ =~= g0);
                }
                return;
            },
        };
        let ghost g_pop = GenV {
            nodes: g0.nodes,
            frontier: g0.frontier,
            leaves: g0.leaves.drop_last(),
            goals: g0.goals,
            plans: g0.plans,
            tasks: g0.tasks,
        };
        proof {
            assert(g0.leaves.last() == idx as int);
            assert(self@.leaves =~= g0.leaves.drop_last());
            assert(self@ =~= g_pop);
            assert(0 <= g0.leaves.last() < g0.nodes.len());
        }
        let plan = unravel_plan(&self.nodes, idx);
        let key = UniqueName::new(goal.name.as_str());
        let mut store = true;
        match assoc_find(&self.plans, &key) {
            Some(prev_plan) => {
                if !plan.cost.lt(prev_plan.cost) {
                    store = false;
                }
            },
            None => {},
        }
        if store {
            let ghost pre = self@;
            assoc_insert(&mut self.plans, key, plan);
            proof {
                assert(self@.nodes =~= pre.nodes);
                assert(self@.frontier =~= pre.frontier);
                assert(self@.leaves =~= pre.leaves);
                assert(self@.goals =~= pre.goals);
                assert(self@ =~= (GenV {
                    nodes: g_pop.nodes,
                    frontier: g_pop.frontier,
                    leaves: g_pop.leaves,
                    goals: g_pop.goals,
                    plans: g_pop.plans.insert(goal.name@, plan_of(g0.nodes, idx as int)),
                    tasks: g_pop.tasks,
                }));
            }
        }
    }

    /// The child the given candidate task makes under the node at `parent`:
    /// its world is the parent's merged with the task's postconditions, its
    /// cost the parent's plus the task's, its depth one deeper. A task the
    /// registry cannot resolve makes none.
    fn make_node(&self, parent: usize, task: &Task, registry: &TaskRegistry) -> (r: Option<
        Node<PlanNode>>)
        requires
            self.wf(),
            registry.wf(),
            parent < self@.nodes.len(),
            self@.nodes[parent as int].depth < u32::MAX,
        ensures
            r is Some <==> child_v(self@.nodes, parent as int, task@, registry@) is Some,
            r matches Some(nd) ==> child_v(self@.nodes, parent as int, task@, registry@) == Some(
                node_v(nd),
            ) && nd.value.world.wf(),
    {
        let data = match registry.get_task(task) {
            Some(d) => d,
            None => {
                return None;
            },
        };
        let parent_node = &self.nodes[parent];
        let virtual_world = parent_node.value.world.concat(data.postconditions());
        let cost = parent_node.value.cost.saturating_add(data.cost(&virtual_world));
        let depth = parent_node.value.depth + 1;
        Some(
            Node::<PlanNode> {
                value: PlanNode {
                    task: Some(task.clone()),
                    world: virtual_world,
                    cost,
                    depth,
                },
                parent: Some(parent),
            },
        )
    }
}

/// The plan a leaf stands for: its chain's tasks collected leaf to root, at
/// the leaf's cumulative cost. Read as a last-in-first-out sequence, the
/// tasks come out in execution order.
fn unravel_plan(nodes: &Vec<Node<PlanNode>>, leaf: usize) -> (r: Plan)
    requires
        arena_wf(nodes_v(nodes@)),
        leaf < nodes@.len(),
    ensures
        r@ == plan_of(nodes_v(nodes@), leaf as int),
{
    let ghost nv = nodes_v(nodes@);
    let mut tasks: VecDeque<Task> = VecDeque::new();
    let mut cur = leaf;
    let mut going = true;
    proof {
        assert(tasks_view(tasks@) =~= Seq::<TaskV>::empty());
        assert(Seq::<TaskV>::empty() + chain_tasks(nv, leaf as int) =~= chain_tasks(
            nv,
            leaf as int,
        ));
    }
    while going
        invariant
            nv == nodes_v(nodes@),
            arena_wf(nv),
            going ==> cur < nodes@.len(),
            going ==> tasks_view(tasks@) + chain_tasks(nv, cur as int) == chain_tasks(
                nv,
                leaf as int,
            ),
            !going ==> tasks_view(tasks@) == chain_tasks(nv, leaf as int),
        decreases (if going {
            cur + 1
        } else {
            0
        }),
    {
        proof {
            assert(node_ok(nv, cur as int));
            assert(nv[cur as int] == node_v(nodes@[cur as int]));
        }
        let ghost pre = tasks@;
        match &nodes[cur].value.task {
            Some(t) => {
                let tc = t.clone();
                tasks.push_back(tc);
                proof {
                    crate::tasks::lemma_tasks_view(pre);
                    crate::tasks::lemma_tasks_view(tasks@);
                    assert(tasks_view(tasks@) =~= tasks_view(pre).push(t@));
                }
                match nodes[cur].parent {
                    Some(p) => {
                        proof {
                            assert(chain_tasks(nv, cur as int) == seq![t@] + chain_tasks(
                                nv,
                                p as int,
                            ));
                            assert(tasks_view(pre).push(t@) + chain_tasks(nv, p as int)
                                =~= tasks_view(pre) + chain_tasks(nv, cur as int));
                        }
                        cur = p;
                    },
                    None => {
                        proof {
                            assert(chain_tasks(nv, cur as int) == seq![t@]);
                            assert(tasks_view(pre).push(t@) =~= tasks_view(pre) + chain_tasks(
                                nv,
                                cur as int,
                            ));
                        }
                        going = false;
                    },
                }
            },
            None => {
                proof {
                    assert(chain_tasks(nv, cur as int) =~= Seq::<TaskV>::empty());
                    assert(tasks_view(pre) + chain_tasks(nv, cur as int) =~= tasks_view(pre));
                }
                going = false;
            },
        }
    }
    let cost = nodes[leaf].value.cost;
    let r = Plan { tasks, cost };
    proof {
        assert(nv[leaf as int] == node_v(nodes@[leaf as int]));
        assert(r@ =~= plan_of(nv, leaf as int));
    }
    r
}

/// The largest number of expansion ticks a single frontier node of `k`
/// remaining depth levels can cost, with at most `t` children per node:
/// itself, plus `t` subtrees one level shallower.
pub open spec fn pot(t: nat, k: nat) -> nat
    decreases k,
{
    if k == 0 {
        1
    } else {
        t * pot(t, (k - 1) as nat) + 1
    }
}

/// How many depth levels the node at `i` may still expand through.
pub open spec fn node_rem(nodes: Seq<NodeV>, i: int, limit: int) -> nat {
    if nodes[i].depth >= limit {
        0
    } else {
        (limit - nodes[i].depth) as nat
    }
}

/// The expansion ticks the whole frontier can still cost: the measure the
/// search loop runs down.
pub open spec fn frontier_measure(nodes: Seq<NodeV>, f: Seq<int>, limit: int, t: nat) -> nat
    decreases f.len(),
{
    if f.len() == 0 {
        0
    } else {
        pot(t, node_rem(nodes, f[0], limit)) + frontier_measure(nodes, f.drop_first(), limit, t)
    }
}

/// Every node costs at least its own expansion tick.
proof fn lemma_pot_pos(t: nat, k: nat)
    ensures
        pot(t, k) >= 1,
    decreases k,
{
    if k > 0 {
        lemma_pot_pos(t, (k - 1) as nat);
    }
}

/// Filtering the candidates never yields more than the task list holds.
proof fn lemma_possible_len(ts: Seq<TaskV>, reg: Map<Seq<char>, DescV>, w: Map<Seq<char>, ValueV>)
    ensures
        possible_v(ts, reg, w).len() <= ts.len(),
    decreases ts.len(),
{
    if ts.len() > 0 {
        lemma_possible_len(ts.drop_first(), reg, w);
    }
}

/// Appending a node leaves the cost of the existing frontier unchanged.
proof fn lemma_measure_nodes_ext(nodes: Seq<NodeV>, x: NodeV, f: Seq<int>, limit: int, t: nat)
    requires
        forall|i: int| 0 <= i < f.len() ==> 0 <= #[trigger] f[i] < nodes.len(),
    ensures
        frontier_measure(nodes.push(x), f, limit, t) == frontier_measure(nodes, f, limit, t),
    decreases f.len(),
{
    if f.len() > 0 {
        assert(forall|i: int| 0 <= i < f.drop_first().len() ==> f.drop_first()[i] == f[i + 1]);
        lemma_measure_nodes_ext(nodes, x, f.drop_first(), limit, t);
        assert(nodes.push(x)[f[0]] == nodes[f[0]]);
    }
}

/// Expanding adds at most one tick's worth per candidate, each one depth
/// level shallower than the expanded node.
proof fn lemma_expand_fold_measure(
    g: GenV,
    parent: int,
    ts: Seq<TaskV>,
    reg: Map<Seq<char>, DescV>,
    limit: int,
    t: nat,
)
    requires
        0 <= parent < g.nodes.len(),
        g.nodes[parent].depth < limit,
        forall|i: int| 0 <= i < g.frontier.len() ==> 0 <= #[trigger] g.frontier[i] < g.nodes.len(),
    ensures
        frontier_measure(
            expand_fold(g, parent, ts, reg).nodes,
            expand_fold(g, parent, ts, reg).frontier,
            limit,
            t,
        ) <= frontier_measure(g.nodes, g.frontier, limit, t) + ts.len() * pot(
            t,
            (limit - g.nodes[parent].depth - 1) as nat,
        ),
        expand_fold(g, parent, ts, reg).nodes.len() >= g.nodes.len(),
        forall|j: int|
            0 <= j < g.nodes.len() ==> expand_fold(g, parent, ts, reg).nodes[j] == g.nodes[j],
        forall|i: int|
            0 <= i < expand_fold(g, parent, ts, reg).frontier.len() ==> 0 <= #[trigger] expand_fold(
                g,
                parent,
                ts,
                reg,
            ).frontier[i] < expand_fold(g, parent, ts, reg).nodes.len(),
    decreases ts.len(),
{
    let kid = (limit - g.nodes[parent].depth - 1) as nat;
    if ts.len() == 0 {
        assert(ts.len() * pot(t, kid) == 0);
    } else {
        let rest = ts.drop_first();
        match child_v(g.nodes, parent, ts[0], reg) {
            Some(nd) => {
                let g1 = GenV {
                    nodes: g.nodes.push(nd),
                    frontier: seq![g.nodes.len() as int] + g.frontier,
                    leaves: g.leaves,
                    goals: g.goals,
                    plans: g.plans,
                    tasks: g.tasks,
                };
                assert(nd.depth == g.nodes[parent].depth + 1);
                assert(g1.nodes[g.nodes.len() as int] == nd);
                assert(node_rem(g1.nodes, g.nodes.len() as int, limit) == kid);
                lemma_measure_nodes_ext(g.nodes, nd, g.frontier, limit, t);
                assert((seq![g.nodes.len() as int] + g.frontier).drop_first() =~= g.frontier);
                assert(frontier_measure(g1.nodes, g1.frontier, limit, t) == pot(t, kid)
                    + frontier_measure(g.nodes, g.frontier, limit, t));
                assert(forall|i: int|
                    0 <= i < g1.frontier.len() ==> 0 <= #[trigger] g1.frontier[i]
                        < g1.nodes.len());
                assert(g1.nodes[parent] == g.nodes[parent]);
                lemma_expand_fold_measure(g1, parent, rest, reg, limit, t);
                assert(frontier_measure(g1.nodes, g1.frontier, limit, t) + rest.len() * pot(
                    t,
                    kid,
                ) == frontier_measure(g.nodes, g.frontier, limit, t) + (rest.len() + 1) * pot(
                    t,
                    kid,
                ) - 0) by (nonlinear_arith)
                    requires
                        frontier_measure(g1.nodes, g1.frontier, limit, t) == pot(t, kid)
                            + frontier_measure(g.nodes, g.frontier, limit, t),
                ;
                assert(ts.len() == rest.len() + 1);
                assert forall|j: int|
                    0 <= j < g.nodes.len() implies expand_fold(g, parent, ts, reg).nodes[j]
                    == g.nodes[j] by {
                    assert(expand_fold(g, parent, ts, reg) == expand_fold(g1, parent, rest, reg));
                    assert(g1.nodes[j] == g.nodes[j]);
                }
            },
            None => {
                lemma_expand_fold_measure(g, parent, rest, reg, limit, t);
                assert(rest.len() * pot(t, kid) <= ts.len() * pot(t, kid)) by (nonlinear_arith)
                    requires
                        rest.len() + 1 == ts.len(),
                ;
            },
        }
    }
}

/// While the frontier is busy, each tick runs the search's remaining
/// expansion cost strictly down: the search reaches an empty frontier.
pub proof fn lemma_step_measure(g: GenV, goal: GoalV, reg: Map<Seq<char>, DescV>, limit: int)
    requires
        gen_wf(g),
        g.frontier.len() > 0,
    ensures
        frontier_measure(
            step_spec(g, goal, reg, limit).nodes,
            step_spec(g, goal, reg, limit).frontier,
            limit,
            g.tasks.len(),
        ) < frontier_measure(g.nodes, g.frontier, limit, g.tasks.len()),
{
    let t = g.tasks.len();
    let idx = g.frontier[0];
    let g_pop = GenV {
        nodes: g.nodes,
        frontier: g.frontier.drop_first(),
        leaves: g.leaves,
        goals: g.goals,
        plans: g.plans,
        tasks: g.tasks,
    };
    assert(frontier_measure(g.nodes, g.frontier, limit, t) == pot(t, node_rem(g.nodes, idx, limit))
        + frontier_measure(g.nodes, g_pop.frontier, limit, t));
    lemma_pot_pos(t, node_rem(g.nodes, idx, limit));
    let g1 = gen_single_spec(g, goal, reg, limit);
    if req_validate(goal.requires, g.nodes[idx].world) {
    } else if g.nodes[idx].depth >= limit || has_rec_v(g.nodes, idx) {
    } else {
        let cands = possible_v(g.tasks, reg, g.nodes[idx].world);
        let k = node_rem(g.nodes, idx, limit);
        let kid = (limit - g.nodes[idx].depth - 1) as nat;
        assert(k >= 1);
        assert(kid == k - 1);
        assert(forall|i: int|
            0 <= i < g_pop.frontier.len() ==> 0 <= #[trigger] g_pop.frontier[i]
                < g_pop.nodes.len());
        lemma_expand_fold_measure(g_pop, idx, cands, reg, limit, t);
        lemma_possible_len(g.tasks, reg, g.nodes[idx].world);
        assert(cands.len() * pot(t, kid) <= t * pot(t, kid)) by (nonlinear_arith)
            requires
                cands.len() <= t,
        ;
        assert(pot(t, k) == t * pot(t, kid) + 1);
    }
    assert(g1.nodes == step_spec(g, goal, reg, limit).nodes);
    assert(g1.frontier == step_spec(g, goal, reg, limit).frontier);
}

/// Expansion touches only the arena and the frontier.
proof fn lemma_expand_fold_frame(g: GenV, parent: int, ts: Seq<TaskV>, reg: Map<Seq<char>, DescV>)
    ensures
        expand_fold(g, parent, ts, reg).plans == g.plans,
        expand_fold(g, parent, ts, reg).leaves == g.leaves,
        expand_fold(g, parent, ts, reg).goals == g.goals,
        expand_fold(g, parent, ts, reg).tasks == g.tasks,
    decreases ts.len(),
{
    if ts.len() > 0 {
        match child_v(g.nodes, parent, ts[0], reg) {
            Some(nd) => {
                let g1 = GenV {
                    nodes: g.nodes.push(nd),
                    frontier: seq![g.nodes.len() as int] + g.frontier,
                    leaves: g.leaves,
                    goals: g.goals,
                    plans: g.plans,
                    tasks: g.tasks,
                };
                lemma_expand_fold_frame(g1, parent, ts.drop_first(), reg);
            },
            None => {
                lemma_expand_fold_frame(g, parent, ts.drop_first(), reg);
            },
        }
    }
}

/// An expansion tick never touches the plans, and grows the leaf set by
/// at most the popped node.
proof fn lemma_gen_single_frame(g: GenV, goal: GoalV, reg: Map<Seq<char>, DescV>, limit: int)
    ensures
        gen_single_spec(g, goal, reg, limit).plans == g.plans,
        gen_single_spec(g, goal, reg, limit).goals == g.goals,
        gen_single_spec(g, goal, reg, limit).tasks == g.tasks,
        gen_single_spec(g, goal, reg, limit).leaves == g.leaves || gen_single_spec(
            g,
            goal,
            reg,
            limit,
        ).leaves == g.leaves.push(g.frontier[0]),
{
    if g.frontier.len() > 0 {
        let idx = g.frontier[0];
        let g_pop = GenV {
            nodes: g.nodes,
            frontier: g.frontier.drop_first(),
            leaves: g.leaves,
            goals: g.goals,
            plans: g.plans,
            tasks: g.tasks,
        };
        if req_validate(goal.requires, g.nodes[idx].world) {
        } else if g.nodes[idx].depth >= limit || has_rec_v(g.nodes, idx) {
        } else {
            lemma_expand_fold_frame(g_pop, idx, possible_v(g.tasks, reg, g.nodes[idx].world), reg);
        }
    }
}

/// Monotonic improvement, one emission: a stored plan is only ever
/// replaced by a strictly cheaper one, so the stored cost never increases;
/// plans stored under other goal names are untouched.
pub proof fn lemma_emit_monotonic(g: GenV, goal: GoalV)
    ensures
        g.plans.contains_key(goal.name) ==> emit_single_spec(g, goal).plans.contains_key(
            goal.name,
        ) && emit_single_spec(g, goal).plans[goal.name].cost <= g.plans[goal.name].cost,
        forall|k: Seq<char>|
            k != goal.name ==> ((emit_single_spec(g, goal).plans.contains_key(k)
                <==> g.plans.contains_key(k)) && (g.plans.contains_key(k) ==> emit_single_spec(
                g,
                goal,
            ).plans[k] == g.plans[k])),
{
}

/// Monotonic improvement, over a whole run: however many ticks the search
/// takes, the cost stored for the pursued goal never increases.
pub proof fn lemma_run_never_raises_cost(
    g: GenV,
    goal: GoalV,
    reg: Map<Seq<char>, DescV>,
    limit: int,
    n: nat,
)
    ensures
        g.plans.contains_key(goal.name) ==> run_steps(g, goal, reg, limit, n).plans.contains_key(
            goal.name,
        ) && run_steps(g, goal, reg, limit, n).plans[goal.name].cost <= g.plans[goal.name].cost,
    decreases n,
{
    if n > 0 {
        let g1 = gen_single_spec(g, goal, reg, limit);
        lemma_gen_single_frame(g, goal, reg, limit);
        lemma_emit_monotonic(g1, goal);
        lemma_run_never_raises_cost(step_spec(g, goal, reg, limit), goal, reg, limit, (n
            - 1) as nat);
    }
}

/// A full tick leaves no pending leaf behind: emission drains what
/// expansion accepted.
proof fn lemma_step_leaves_empty(g: GenV, goal: GoalV, reg: Map<Seq<char>, DescV>, limit: int)
    requires
        g.leaves.len() == 0,
    ensures
        step_spec(g, goal, reg, limit).leaves.len() == 0,
{
    lemma_gen_single_frame(g, goal, reg, limit);
}

/// With nothing pending, a tick changes nothing.
proof fn lemma_idle_step(g: GenV, goal: GoalV, reg: Map<Seq<char>, DescV>, limit: int)
    requires
        g.frontier.len() == 0,
        g.leaves.len() == 0,
    ensures
        step_spec(g, goal, reg, limit) == g,
{
}

/// Runs split: ticking a + b times is ticking b times after a times.
proof fn lemma_run_compose(
    g: GenV,
    goal: GoalV,
    reg: Map<Seq<char>, DescV>,
    limit: int,
    a: nat,
    b: nat,
)
    ensures
        run_steps(g, goal, reg, limit, a + b) == run_steps(
            run_steps(g, goal, reg, limit, a),
            goal,
            reg,
            limit,
            b,
        ),
    decreases a,
{
    if a > 0 {
        lemma_run_compose(step_spec(g, goal, reg, limit), goal, reg, limit, (a - 1) as nat, b);
        assert(run_steps(g, goal, reg, limit, a + b) == run_steps(
            step_spec(g, goal, reg, limit),
            goal,
            reg,
            limit,
            (a + b - 1) as nat,
        ));
        assert(run_steps(g, goal, reg, limit, a) == run_steps(
            step_spec(g, goal, reg, limit),
            goal,
            reg,
            limit,
            (a - 1) as nat,
        ));
    } else {
        assert(run_steps(g, goal, reg, limit, 0) == g);
    }
}

/// A run started without pending leaves never accumulates any across
/// tick boundaries.
proof fn lemma_run_leaves_empty(
    g: GenV,
    goal: GoalV,
    reg: Map<Seq<char>, DescV>,
    limit: int,
    n: nat,
)
    requires
        g.leaves.len() == 0,
    ensures
        run_steps(g, goal, reg, limit, n).leaves.len() == 0,
    decreases n,
{
    if n > 0 {
        lemma_step_leaves_empty(g, goal, reg, limit);
        lemma_run_leaves_empty(step_spec(g, goal, reg, limit), goal, reg, limit, (n - 1) as nat);
    }
}

/// An exhausted, drained search stays put under any number of ticks.
proof fn lemma_idle_run(g: GenV, goal: GoalV, reg: Map<Seq<char>, DescV>, limit: int, n: nat)
    requires
        g.frontier.len() == 0,
        g.leaves.len() == 0,
    ensures
        run_steps(g, goal, reg, limit, n) == g,
    decreases n,
{
    if n > 0 {
        lemma_idle_step(g, goal, reg, limit);
        lemma_idle_run(g, goal, reg, limit, (n - 1) as nat);
        assert(run_steps(g, goal, reg, limit, n) == run_steps(
            step_spec(g, goal, reg, limit),
            goal,
            reg,
            limit,
            (n - 1) as nat,
        ));
    }
}

/// Determinism: from one starting state with no pending leaves, any two
/// runs that both exhaust the frontier end in the same state, plans and
/// all, however many ticks each took. With `generate_to_completion`'s
/// contract, two planners given identical registry, task ordering,
/// starting world and goal therefore hold identical plans.
pub proof fn lemma_completion_deterministic(
    g: GenV,
    goal: GoalV,
    reg: Map<Seq<char>, DescV>,
    limit: int,
    n1: nat,
    n2: nat,
)
    requires
        g.leaves.len() == 0,
        run_steps(g, goal, reg, limit, n1).frontier.len() == 0,
        run_steps(g, goal, reg, limit, n2).frontier.len() == 0,
    ensures
        run_steps(g, goal, reg, limit, n1) == run_steps(g, goal, reg, limit, n2),
{
    if n1 <= n2 {
        lemma_run_compose(g, goal, reg, limit, n1, (n2 - n1) as nat);
        lemma_run_leaves_empty(g, goal, reg, limit, n1);
        lemma_idle_run(run_steps(g, goal, reg, limit, n1), goal, reg, limit, (n2 - n1) as nat);
    } else {
        lemma_run_compose(g, goal, reg, limit, n2, (n1 - n2) as nat);
        lemma_run_leaves_empty(g, goal, reg, limit, n2);
        lemma_idle_run(run_steps(g, goal, reg, limit, n2), goal, reg, limit, (n1 - n2) as nat);
    }
}

/// The leaf-acceptance rule: an expansion tick accepts the popped node as
/// a solution leaf exactly when the current goal's requirements validate
/// against the node's world; nothing else ever grows the leaf set.
pub proof fn lemma_leaf_acceptance(g: GenV, goal: GoalV, reg: Map<Seq<char>, DescV>, limit: int)
    requires
        g.frontier.len() > 0,
    ensures
        req_validate(goal.requires, g.nodes[g.frontier[0]].world) <==> gen_single_spec(
            g,
            goal,
            reg,
            limit,
        ).leaves == g.leaves.push(g.frontier[0]),
        !req_validate(goal.requires, g.nodes[g.frontier[0]].world) ==> gen_single_spec(
            g,
            goal,
            reg,
            limit,
        ).leaves == g.leaves,
{
    let idx = g.frontier[0];
    if req_validate(goal.requires, g.nodes[idx].world) {
    } else if g.nodes[idx].depth >= limit || has_rec_v(g.nodes, idx) {
        assert(gen_single_spec(g, goal, reg, limit).leaves == g.leaves);
        assert(g.leaves != g.leaves.push(idx)) by {
            assert(g.leaves.len() != g.leaves.push(idx).len());
        }
    } else {
        let g_pop = GenV {
            nodes: g.nodes,
            frontier: g.frontier.drop_first(),
            leaves: g.leaves,
            goals: g.goals,
            plans: g.plans,
            tasks: g.tasks,
        };
        lemma_expand_fold_frame(g_pop, idx, possible_v(g.tasks, reg, g.nodes[idx].world), reg);
        assert(g.leaves != g.leaves.push(idx)) by {
            assert(g.leaves.len() != g.leaves.push(idx).len());
        }
    }
}

/// The task names along a node's ancestor chain, leaf first.
pub open spec fn chain_names(nodes: Seq<NodeV>, i: int) -> Seq<Seq<char>> {
    chain_tasks(nodes, i).map_values(|t: TaskV| task_name(t))
}

/// A chain starts with its node's own name and continues with the
/// parent's chain.
proof fn lemma_chain_head(nodes: Seq<NodeV>, i: int)
    requires
        arena_wf(nodes),
        0 <= i < nodes.len(),
    ensures
        chain_names(nodes, i).len() >= 1,
        chain_names(nodes, i)[0] == node_name(nodes, i),
        match nodes[i].parent {
            Some(p) => chain_names(nodes, i) == seq![node_name(nodes, i)] + chain_names(
                nodes,
                p,
            ),
            None => chain_names(nodes, i).len() == 1,
        },
{
    assert(node_ok(nodes, i));
    match nodes[i].parent {
        Some(p) => {
            assert(chain_tasks(nodes, i) == seq![nodes[i].task->0] + chain_tasks(nodes, p));
            assert(chain_names(nodes, i) =~= seq![node_name(nodes, i)] + chain_names(nodes, p));
        },
        None => {
            assert(chain_tasks(nodes, i) == seq![nodes[i].task->0]);
        },
    }
}

/// The recursion-guard law: in the chain of any node of a sound arena, a
/// four-step alternation of two task names can begin only at the chain's
/// head. Every interior window of four is alternation-free, because a node
/// the guard rejects is never given children.
pub proof fn lemma_no_interior_alternation(nodes: Seq<NodeV>, leaf: int, j: int)
    requires
        arena_wf(nodes),
        0 <= leaf < nodes.len(),
        1 <= j,
        j + 3 < chain_names(nodes, leaf).len(),
    ensures
        !(chain_names(nodes, leaf)[j] == chain_names(nodes, leaf)[j + 2] && chain_names(
            nodes,
            leaf,
        )[j + 1] == chain_names(nodes, leaf)[j + 3]),
    decreases leaf,
{
    lemma_chain_head(nodes, leaf);
    assert(node_ok(nodes, leaf));
    match nodes[leaf].parent {
        None => {
            assert(chain_names(nodes, leaf).len() == 1);
        },
        Some(p) => {
            lemma_chain_head(nodes, p);
            let cp = chain_names(nodes, p);
            assert(chain_names(nodes, leaf) == seq![node_name(nodes, leaf)] + cp);
            if j >= 2 {
                lemma_no_interior_alternation(nodes, p, j - 1);
            } else {
                assert(cp.len() >= 4);
                if nodes[p].parent is None {
                    assert(cp.len() == 1);
                } else {
                    let p1 = nodes[p].parent->0;
                    assert(node_ok(nodes, p));
                    lemma_chain_head(nodes, p1);
                    let cp1 = chain_names(nodes, p1);
                    assert(cp == seq![node_name(nodes, p)] + cp1);
                    assert(cp1.len() >= 3);
                    if nodes[p1].parent is None {
                        assert(cp1.len() == 1);
                    } else {
                        let p2 = nodes[p1].parent->0;
                        assert(node_ok(nodes, p1));
                        lemma_chain_head(nodes, p2);
                        let cp2 = chain_names(nodes, p2);
                        assert(cp1 == seq![node_name(nodes, p1)] + cp2);
                        assert(cp2.len() >= 2);
                        if nodes[p2].parent is None {
                            assert(cp2.len() == 1);
                        } else {
                            let p3 = nodes[p2].parent->0;
                            assert(node_ok(nodes, p2));
                            lemma_chain_head(nodes, p3);
                            let cp3 = chain_names(nodes, p3);
                            assert(cp2 == seq![node_name(nodes, p2)] + cp3);
                            assert(cp[0] == node_name(nodes, p));
                            assert(cp[1] == cp1[0] && cp1[0] == node_name(nodes, p1));
                            assert(cp[2] == cp1[1] && cp1[1] == cp2[0] && cp2[0] == node_name(
                                nodes,
                                p2,
                            ));
                            assert(cp[3] == cp1[2] && cp1[2] == cp2[1] && cp2[1] == cp3[0]
                                && cp3[0] == node_name(nodes, p3));
                            assert(chain_names(nodes, leaf)[1] == cp[0]);
                            assert(chain_names(nodes, leaf)[2] == cp[1]);
                            assert(chain_names(nodes, leaf)[3] == cp[2]);
                            assert(chain_names(nodes, leaf)[4] == cp[3]);
                            assert(!has_rec_v(nodes, p));
                        }
                    }
                }
            }
        },
    }
}

/// The recursion-guard law read off a reconstructed plan: no window of
/// four consecutive tasks, other than the one at the freshest end, repeats
/// two task names in alternation. The freshest window is excluded because
/// acceptance checks the goal before the guard: a node whose chain ends in
/// such an alternation is never expanded, but a pass — in particular one
/// pursuing a different goal than the pass that created the node — may
/// still accept it as a leaf.
pub proof fn lemma_plan_no_interior_alternation(nodes: Seq<NodeV>, leaf: int, j: int)
    requires
        arena_wf(nodes),
        0 <= leaf < nodes.len(),
        1 <= j,
        j + 3 < plan_of(nodes, leaf).tasks.len(),
    ensures
        !(task_name(plan_of(nodes, leaf).tasks[j]) == task_name(
            plan_of(nodes, leaf).tasks[j + 2],
        ) && task_name(plan_of(nodes, leaf).tasks[j + 1]) == task_name(
            plan_of(nodes, leaf).tasks[j + 3],
        )),
{
    lemma_no_interior_alternation(nodes, leaf, j);
    assert(forall|k: int|
        0 <= k < chain_tasks(nodes, leaf).len() ==> #[trigger] chain_names(nodes, leaf)[k]
            == task_name(chain_tasks(nodes, leaf)[k]));
}

/// The node as it reads when the whole arena sits `b` places further up:
/// only the parent link moves.
pub open spec fn shift_node(n: NodeV, b: int) -> NodeV {
    NodeV {
        task: n.task,
        world: n.world,
        cost: n.cost,
        depth: n.depth,
        parent: match n.parent {
            Some(p) => Some(p + b),
            None => None,
        },
    }
}

/// `big` runs the same search as `small`, on an arena that keeps the
/// dormant nodes of `prefix` below it: everything `small` holds appears in
/// `big` shifted up by the prefix's length, and the rest agrees.
pub open spec fn shifted(big: GenV, small: GenV, prefix: Seq<NodeV>) -> bool {
    let b = prefix.len() as int;
    &&& big.nodes == prefix + small.nodes.map_values(|n: NodeV| shift_node(n, b))
    &&& big.frontier == small.frontier.map_values(|i: int| i + b)
    &&& big.leaves == small.leaves.map_values(|i: int| i + b)
    &&& big.goals == small.goals
    &&& big.plans == small.plans
    &&& big.tasks == small.tasks
}

/// Every stored index points into the arena, and every parent link points
/// strictly downward.
pub open spec fn index_sane(g: GenV) -> bool {
    &&& forall|j: int|
        0 <= j < g.nodes.len() ==> match (#[trigger] g.nodes[j]).parent {
            Some(p) => 0 <= p < j,
            None => true,
        }
    &&& forall|i: int| 0 <= i < g.frontier.len() ==> 0 <= #[trigger] g.frontier[i] < g.nodes.len()
    &&& forall|i: int| 0 <= i < g.leaves.len() ==> 0 <= #[trigger] g.leaves[i] < g.nodes.len()
}

/// The states agree on everything but the plan table.
pub open spec fn same_skeleton(a: GenV, b: GenV) -> bool {
    &&& a.nodes == b.nodes
    &&& a.frontier == b.frontier
    &&& a.leaves == b.leaves
    &&& a.goals == b.goals
    &&& a.tasks == b.tasks
}

proof fn lemma_seed_fold_sane(g: GenV, seeds: Seq<TaskV>, reg: Map<Seq<char>, DescV>, w: Map<
    Seq<char>,
    ValueV,
>)
    requires
        index_sane(g),
    ensures
        index_sane(seed_fold(g, seeds, reg, w)),
        seed_fold(g, seeds, reg, w).leaves == g.leaves,
        seed_fold(g, seeds, reg, w).goals == g.goals,
        seed_fold(g, seeds, reg, w).plans == g.plans,
        seed_fold(g, seeds, reg, w).tasks == g.tasks,
    decreases seeds.len(),
{
    if seeds.len() > 0 {
        match seed_node_v(seeds[0], reg, w) {
            Some(nd) => {
                let g1 = GenV {
                    nodes: g.nodes.push(nd),
                    frontier: g.frontier.push(g.nodes.len() as int),
                    leaves: g.leaves,
                    goals: g.goals,
                    plans: g.plans,
                    tasks: g.tasks,
                };
                assert(index_sane(g1)) by {
                    assert(forall|j: int|
                        0 <= j < g.nodes.len() ==> g1.nodes[j] == g.nodes[j]);
                    assert(g1.nodes[g.nodes.len() as int] == nd);
                    assert(forall|i: int|
                        0 <= i < g.frontier.len() ==> g1.frontier[i] == g.frontier[i]);
                }
                lemma_seed_fold_sane(g1, seeds.drop_first(), reg, w);
            },
            None => {
                lemma_seed_fold_sane(g, seeds.drop_first(), reg, w);
            },
        }
    }
}

proof fn lemma_expand_fold_sane(g: GenV, parent: int, ts: Seq<TaskV>, reg: Map<Seq<char>, DescV>)
    requires
        index_sane(g),
        0 <= parent < g.nodes.len(),
    ensures
        index_sane(expand_fold(g, parent, ts, reg)),
    decreases ts.len(),
{
    if ts.len() > 0 {
        match child_v(g.nodes, parent, ts[0], reg) {
            Some(nd) => {
                let g1 = GenV {
                    nodes: g.nodes.push(nd),
                    frontier: seq![g.nodes.len() as int] + g.frontier,
                    leaves: g.leaves,
                    goals: g.goals,
                    plans: g.plans,
                    tasks: g.tasks,
                };
                assert(index_sane(g1)) by {
                    assert(forall|j: int|
                        0 <= j < g.nodes.len() ==> g1.nodes[j] == g.nodes[j]);
                    assert(g1.nodes[g.nodes.len() as int] == nd);
                    assert(nd.parent == Some(parent));
                    assert(forall|i: int|
                        0 <= i < g.frontier.len() ==> g1.frontier[i + 1] == g.frontier[i]);
                    assert(g1.frontier[0] == g.nodes.len() as int);
                    assert(forall|i: int|
                        1 <= i < g1.frontier.len() ==> g1.frontier[i] == g.frontier[i - 1]);
                }
                lemma_expand_fold_sane(g1, parent, ts.drop_first(), reg);
            },
            None => {
                lemma_expand_fold_sane(g, parent, ts.drop_first(), reg);
            },
        }
    }
}

proof fn lemma_gen_single_sane(g: GenV, goal: GoalV, reg: Map<Seq<char>, DescV>, limit: int)
    requires
        index_sane(g),
    ensures
        index_sane(gen_single_spec(g, goal, reg, limit)),
{
    if g.frontier.len() > 0 {
        let idx = g.frontier[0];
        let g_pop = GenV {
            nodes: g.nodes,
            frontier: g.frontier.drop_first(),
            leaves: g.leaves,
            goals: g.goals,
            plans: g.plans,
            tasks: g.tasks,
        };
        assert(forall|i: int|
            0 <= i < g_pop.frontier.len() ==> g_pop.frontier[i] == g.frontier[i + 1]);
        assert(index_sane(g_pop));
        if req_validate(goal.requires, g.nodes[idx].world) {
            let g_leaf = GenV {
                nodes: g_pop.nodes,
                frontier: g_pop.frontier,
                leaves: g_pop.leaves.push(idx),
                goals: g_pop.goals,
                plans: g_pop.plans,
                tasks: g_pop.tasks,
            };
            assert(index_sane(g_leaf)) by {
                assert(forall|i: int|
                    0 <= i < g.leaves.len() ==> g_leaf.leaves[i] == g.leaves[i]);
                assert(g_leaf.leaves[g.leaves.len() as int] == idx);
            }
        } else if g.nodes[idx].depth >= limit || has_rec_v(g.nodes, idx) {
        } else {
            lemma_expand_fold_sane(g_pop, idx, possible_v(g.tasks, reg, g.nodes[idx].world), reg);
        }
    }
}

proof fn lemma_step_sane(g: GenV, goal: GoalV, reg: Map<Seq<char>, DescV>, limit: int)
    requires
        index_sane(g),
    ensures
        index_sane(step_spec(g, goal, reg, limit)),
{
    lemma_gen_single_sane(g, goal, reg, limit);
    let g1 = gen_single_spec(g, goal, reg, limit);
    if g1.leaves.len() > 0 {
        let g2 = GenV {
            nodes: g1.nodes,
            frontier: g1.frontier,
            leaves: g1.leaves.drop_last(),
            goals: g1.goals,
            plans: g1.plans,
            tasks: g1.tasks,
        };
        assert(forall|i: int| 0 <= i < g2.leaves.len() ==> g2.leaves[i] == g1.leaves[i]);
        assert(index_sane(g2));
    }
}

proof fn lemma_run_frame(g: GenV, goal: GoalV, reg: Map<Seq<char>, DescV>, limit: int, n: nat)
    ensures
        run_steps(g, goal, reg, limit, n).goals == g.goals,
        run_steps(g, goal, reg, limit, n).tasks == g.tasks,
    decreases n,
{
    if n > 0 {
        lemma_gen_single_frame(g, goal, reg, limit);
        lemma_run_frame(step_spec(g, goal, reg, limit), goal, reg, limit, (n - 1) as nat);
    }
}

proof fn lemma_shift_lookup(prefix: Seq<NodeV>, small: Seq<NodeV>, i: int)
    requires
        0 <= i < small.len(),
    ensures
        (prefix + small.map_values(|n: NodeV| shift_node(n, prefix.len() as int)))[prefix.len()
            + i] == shift_node(small[i], prefix.len() as int),
        (prefix + small.map_values(|n: NodeV| shift_node(n, prefix.len() as int))).len()
            == prefix.len() + small.len(),
{
    let b = prefix.len() as int;
    let mapped = small.map_values(|n: NodeV| shift_node(n, b));
    assert((prefix + mapped)[b + i] == mapped[i]);
    assert(mapped[i] == shift_node(small[i], b));
}

proof fn lemma_chain_shift(prefix: Seq<NodeV>, small: Seq<NodeV>, i: int)
    requires
        forall|j: int|
            0 <= j < small.len() ==> match (#[trigger] small[j]).parent {
                Some(p) => 0 <= p < j,
                None => true,
            },
        0 <= i < small.len(),
    ensures
        chain_tasks(
            prefix + small.map_values(|n: NodeV| shift_node(n, prefix.len() as int)),
            prefix.len() + i,
        ) == chain_tasks(small, i),
    decreases i,
{
    let b = prefix.len() as int;
    let big = prefix + small.map_values(|n: NodeV| shift_node(n, b));
    lemma_shift_lookup(prefix, small, i);
    match small[i].task {
        None => {},
        Some(t) => {
            match small[i].parent {
                Some(p) => {
                    assert(0 <= p < i);
                    lemma_chain_shift(prefix, small, p);
                    assert(chain_tasks(big, b + i) == seq![t] + chain_tasks(big, b + p));
                    assert(chain_tasks(small, i) == seq![t] + chain_tasks(small, p));
                },
                None => {},
            }
        },
    }
}

proof fn lemma_has_rec_shift(prefix: Seq<NodeV>, small: Seq<NodeV>, i: int)
    requires
        forall|j: int|
            0 <= j < small.len() ==> match (#[trigger] small[j]).parent {
                Some(p) => 0 <= p < j,
                None => true,
            },
        0 <= i < small.len(),
    ensures
        has_rec_v(
            prefix + small.map_values(|n: NodeV| shift_node(n, prefix.len() as int)),
            prefix.len() + i,
        ) == has_rec_v(small, i),
{
    let b = prefix.len() as int;
    let big = prefix + small.map_values(|n: NodeV| shift_node(n, b));
    lemma_shift_lookup(prefix, small, i);
    if small[i].parent is Some {
        let p1 = small[i].parent->0;
        assert(0 <= p1 < i);
        lemma_shift_lookup(prefix, small, p1);
        if small[p1].parent is Some {
            let p2 = small[p1].parent->0;
            assert(0 <= p2 < p1);
            lemma_shift_lookup(prefix, small, p2);
            if small[p2].parent is Some {
                let p3 = small[p2].parent->0;
                assert(0 <= p3 < p2);
                lemma_shift_lookup(prefix, small, p3);
                assert(node_name(big, b + i) == node_name(small, i));
                assert(node_name(big, b + p1) == node_name(small, p1));
                assert(node_name(big, b + p2) == node_name(small, p2));
                assert(node_name(big, b + p3) == node_name(small, p3));
            }
        }
    }
}

proof fn lemma_seed_fold_shift(
    big: GenV,
    small: GenV,
    prefix: Seq<NodeV>,
    seeds: Seq<TaskV>,
    reg: Map<Seq<char>, DescV>,
    w: Map<Seq<char>, ValueV>,
)
    requires
        shifted(big, small, prefix),
    ensures
        shifted(seed_fold(big, seeds, reg, w), seed_fold(small, seeds, reg, w), prefix),
    decreases seeds.len(),
{
    let b = prefix.len() as int;
    if seeds.len() > 0 {
        match seed_node_v(seeds[0], reg, w) {
            Some(nd) => {
                let big1 = GenV {
                    nodes: big.nodes.push(nd),
                    frontier: big.frontier.push(big.nodes.len() as int),
                    leaves: big.leaves,
                    goals: big.goals,
                    plans: big.plans,
                    tasks: big.tasks,
                };
                let small1 = GenV {
                    nodes: small.nodes.push(nd),
                    frontier: small.frontier.push(small.nodes.len() as int),
                    leaves: small.leaves,
                    goals: small.goals,
                    plans: small.plans,
                    tasks: small.tasks,
                };
                assert(shift_node(nd, b) == nd);
                assert(big1.nodes =~= prefix + small1.nodes.map_values(
                    |n: NodeV| shift_node(n, b),
                )) by {
                    assert(big.nodes.len() == b + small.nodes.len());
                    assert(forall|j: int|
                        0 <= j < small.nodes.len() ==> small1.nodes.map_values(
                            |n: NodeV| shift_node(n, b),
                        )[j] == shift_node(small.nodes[j], b));
                }
                assert(big1.frontier =~= small1.frontier.map_values(|i: int| i + b)) by {
                    assert(big.nodes.len() == b + small.nodes.len());
                }
                lemma_seed_fold_shift(big1, small1, prefix, seeds.drop_first(), reg, w);
            },
            None => {
                lemma_seed_fold_shift(big, small, prefix, seeds.drop_first(), reg, w);
            },
        }
    }
}

proof fn lemma_expand_fold_shift(
    big: GenV,
    small: GenV,
    prefix: Seq<NodeV>,
    parent: int,
    ts: Seq<TaskV>,
    reg: Map<Seq<char>, DescV>,
)
    requires
        shifted(big, small, prefix),
        0 <= parent < small.nodes.len(),
    ensures
        shifted(
            expand_fold(big, prefix.len() + parent, ts, reg),
            expand_fold(small, parent, ts, reg),
            prefix,
        ),
    decreases ts.len(),
{
    let b = prefix.len() as int;
    if ts.len() > 0 {
        lemma_shift_lookup(prefix, small.nodes, parent);
        assert(big.nodes[b + parent] == shift_node(small.nodes[parent], b));
        match ts[0] {
            TaskV::Primitive(nm) => {
                if reg.contains_key(nm) {
                    let nd_s = child_v(small.nodes, parent, ts[0], reg)->0;
                    let nd_b = child_v(big.nodes, b + parent, ts[0], reg)->0;
                    assert(nd_b == shift_node(nd_s, b));
                    let big1 = GenV {
                        nodes: big.nodes.push(nd_b),
                        frontier: seq![big.nodes.len() as int] + big.frontier,
                        leaves: big.leaves,
                        goals: big.goals,
                        plans: big.plans,
                        tasks: big.tasks,
                    };
                    let small1 = GenV {
                        nodes: small.nodes.push(nd_s),
                        frontier: seq![small.nodes.len() as int] + small.frontier,
                        leaves: small.leaves,
                        goals: small.goals,
                        plans: small.plans,
                        tasks: small.tasks,
                    };
                    assert(big1.nodes =~= prefix + small1.nodes.map_values(
                        |n: NodeV| shift_node(n, b),
                    )) by {
                        assert(big.nodes.len() == b + small.nodes.len());
                        assert(forall|j: int|
                            0 <= j < small.nodes.len() ==> small1.nodes.map_values(
                                |n: NodeV| shift_node(n, b),
                            )[j] == shift_node(small.nodes[j], b));
                        assert(small1.nodes.map_values(|n: NodeV| shift_node(n, b))[
                        small.nodes.len() as int] == shift_node(nd_s, b));
                    }
                    assert(big1.frontier =~= small1.frontier.map_values(|i: int| i + b)) by {
                        assert(big.nodes.len() == b + small.nodes.len());
                        assert(forall|i: int|
                            0 <= i < small.frontier.len() ==> small1.frontier.map_values(
                                |x: int| x + b,
                            )[i + 1] == small.frontier[i] + b);
                    }
                    lemma_expand_fold_shift(big1, small1, prefix, parent, ts.drop_first(), reg);
                } else {
                    lemma_expand_fold_shift(big, small, prefix, parent, ts.drop_first(), reg);
                }
            },
            TaskV::Macro(_, _) => {
                lemma_expand_fold_shift(big, small, prefix, parent, ts.drop_first(), reg);
            },
        }
    }
}

proof fn lemma_gen_single_shift(
    big: GenV,
    small: GenV,
    prefix: Seq<NodeV>,
    goal: GoalV,
    reg: Map<Seq<char>, DescV>,
    limit: int,
)
    requires
        shifted(big, small, prefix),
        index_sane(small),
    ensures
        shifted(
            gen_single_spec(big, goal, reg, limit),
            gen_single_spec(small, goal, reg, limit),
            prefix,
        ),
{
    let b = prefix.len() as int;
    if small.frontier.len() > 0 {
        let idx = small.frontier[0];
        assert(big.frontier[0] == idx + b);
        assert(0 <= idx < small.nodes.len());
        lemma_shift_lookup(prefix, small.nodes, idx);
        assert(big.nodes[b + idx] == shift_node(small.nodes[idx], b));
        let big_pop = GenV {
            nodes: big.nodes,
            frontier: big.frontier.drop_first(),
            leaves: big.leaves,
            goals: big.goals,
            plans: big.plans,
            tasks: big.tasks,
        };
        let small_pop = GenV {
            nodes: small.nodes,
            frontier: small.frontier.drop_first(),
            leaves: small.leaves,
            goals: small.goals,
            plans: small.plans,
            tasks: small.tasks,
        };
        assert(big_pop.frontier =~= small_pop.frontier.map_values(|i: int| i + b)) by {
            assert(forall|k: int|
                0 <= k < small_pop.frontier.len() ==> small_pop.frontier[k]
                    == small.frontier[k + 1]);
        }
        assert(shifted(big_pop, small_pop, prefix));
        if req_validate(goal.requires, small.nodes[idx].world) {
            assert(gen_single_spec(big, goal, reg, limit).leaves =~= gen_single_spec(
                small,
                goal,
                reg,
                limit,
            ).leaves.map_values(|i: int| i + b)) by {
                assert(forall|k: int|
                    0 <= k < small.leaves.len() ==> small.leaves.push(idx).map_values(
                        |i: int| i + b,
                    )[k] == small.leaves[k] + b);
                assert(small.leaves.push(idx).map_values(|i: int| i + b)[
                small.leaves.len() as int] == idx + b);
            }
        } else if small.nodes[idx].depth >= limit || has_rec_v(small.nodes, idx) {
            lemma_has_rec_shift(prefix, small.nodes, idx);
        } else {
            lemma_has_rec_shift(prefix, small.nodes, idx);
            lemma_expand_fold_shift(
                big_pop,
                small_pop,
                prefix,
                idx,
                possible_v(small.tasks, reg, small.nodes[idx].world),
                reg,
            );
        }
    }
}

proof fn lemma_step_shift(
    big: GenV,
    small: GenV,
    prefix: Seq<NodeV>,
    goal: GoalV,
    reg: Map<Seq<char>, DescV>,
    limit: int,
)
    requires
        shifted(big, small, prefix),
        index_sane(small),
    ensures
        shifted(step_spec(big, goal, reg, limit), step_spec(small, goal, reg, limit), prefix),
{
    let b = prefix.len() as int;
    lemma_gen_single_shift(big, small, prefix, goal, reg, limit);
    lemma_gen_single_sane(small, goal, reg, limit);
    let big1 = gen_single_spec(big, goal, reg, limit);
    let small1 = gen_single_spec(small, goal, reg, limit);
    if small1.leaves.len() > 0 {
        let idx = small1.leaves.last();
        assert(big1.leaves.last() == idx + b);
        assert(0 <= idx < small1.nodes.len());
        lemma_shift_lookup(prefix, small1.nodes, idx);
        lemma_chain_shift(prefix, small1.nodes, idx);
        assert(plan_of(big1.nodes, b + idx) == plan_of(small1.nodes, idx));
        assert(big1.leaves.drop_last() =~= small1.leaves.drop_last().map_values(
            |i: int| i + b,
        )) by {
            assert(forall|k: int|
                0 <= k < small1.leaves.len() - 1 ==> small1.leaves.drop_last()[k]
                    == small1.leaves[k]);
        }
    }
}

proof fn lemma_run_shift(
    big: GenV,
    small: GenV,
    prefix: Seq<NodeV>,
    goal: GoalV,
    reg: Map<Seq<char>, DescV>,
    limit: int,
    n: nat,
)
    requires
        shifted(big, small, prefix),
        index_sane(small),
    ensures
        shifted(
            run_steps(big, goal, reg, limit, n),
            run_steps(small, goal, reg, limit, n),
            prefix,
        ),
        index_sane(run_steps(small, goal, reg, limit, n)),
    decreases n,
{
    if n > 0 {
        lemma_step_shift(big, small, prefix, goal, reg, limit);
        lemma_step_sane(small, goal, reg, limit);
        lemma_run_shift(
            step_spec(big, goal, reg, limit),
            step_spec(small, goal, reg, limit),
            prefix,
            goal,
            reg,
            limit,
            (n - 1) as nat,
        );
    }
}

proof fn lemma_seed_fold_skeleton(
    a: GenV,
    b: GenV,
    seeds: Seq<TaskV>,
    reg: Map<Seq<char>, DescV>,
    w: Map<Seq<char>, ValueV>,
)
    requires
        same_skeleton(a, b),
    ensures
        same_skeleton(seed_fold(a, seeds, reg, w), seed_fold(b, seeds, reg, w)),
    decreases seeds.len(),
{
    if seeds.len() > 0 {
        match seed_node_v(seeds[0], reg, w) {
            Some(nd) => {
                let a1 = GenV {
                    nodes: a.nodes.push(nd),
                    frontier: a.frontier.push(a.nodes.len() as int),
                    leaves: a.leaves,
                    goals: a.goals,
                    plans: a.plans,
                    tasks: a.tasks,
                };
                let b1 = GenV {
                    nodes: b.nodes.push(nd),
                    frontier: b.frontier.push(b.nodes.len() as int),
                    leaves: b.leaves,
                    goals: b.goals,
                    plans: b.plans,
                    tasks: b.tasks,
                };
                lemma_seed_fold_skeleton(a1, b1, seeds.drop_first(), reg, w);
            },
            None => {
                lemma_seed_fold_skeleton(a, b, seeds.drop_first(), reg, w);
            },
        }
    }
}

proof fn lemma_expand_fold_skeleton(
    a: GenV,
    b: GenV,
    parent: int,
    ts: Seq<TaskV>,
    reg: Map<Seq<char>, DescV>,
)
    requires
        same_skeleton(a, b),
    ensures
        same_skeleton(expand_fold(a, parent, ts, reg), expand_fold(b, parent, ts, reg)),
    decreases ts.len(),
{
    if ts.len() > 0 {
        match child_v(a.nodes, parent, ts[0], reg) {
            Some(nd) => {
                let a1 = GenV {
                    nodes: a.nodes.push(nd),
                    frontier: seq![a.nodes.len() as int] + a.frontier,
                    leaves: a.leaves,
                    goals: a.goals,
                    plans: a.plans,
                    tasks: a.tasks,
                };
                let b1 = GenV {
                    nodes: b.nodes.push(nd),
                    frontier: seq![b.nodes.len() as int] + b.frontier,
                    leaves: b.leaves,
                    goals: b.goals,
                    plans: b.plans,
                    tasks: b.tasks,
                };
                lemma_expand_fold_skeleton(a1, b1, parent, ts.drop_first(), reg);
            },
            None => {
                lemma_expand_fold_skeleton(a, b, parent, ts.drop_first(), reg);
            },
        }
    }
}

proof fn lemma_gen_single_skeleton(
    a: GenV,
    b: GenV,
    goal: GoalV,
    reg: Map<Seq<char>, DescV>,
    limit: int,
)
    requires
        same_skeleton(a, b),
    ensures
        same_skeleton(gen_single_spec(a, goal, reg, limit), gen_single_spec(b, goal, reg, limit)),
{
    if a.frontier.len() > 0 {
        let idx = a.frontier[0];
        if req_validate(goal.requires, a.nodes[idx].world) {
        } else if a.nodes[idx].depth >= limit || has_rec_v(a.nodes, idx) {
        } else {
            let a_pop = GenV {
                nodes: a.nodes,
                frontier: a.frontier.drop_first(),
                leaves: a.leaves,
                goals: a.goals,
                plans: a.plans,
                tasks: a.tasks,
            };
            let b_pop = GenV {
                nodes: b.nodes,
                frontier: b.frontier.drop_first(),
                leaves: b.leaves,
                goals: b.goals,
                plans: b.plans,
                tasks: b.tasks,
            };
            lemma_expand_fold_skeleton(
                a_pop,
                b_pop,
                idx,
                possible_v(a.tasks, reg, a.nodes[idx].world),
                reg,
            );
        }
    }
}

/// The plan table the search ends with never stores more than any one
/// candidate it weighed: re-running the same search from its own outcome
/// leaves every plan as it stands. `a0` is the first run, of which `total`
/// ticks empty the frontier; `b0` is the identical search begun over with
/// the first run's finished plan table.
proof fn lemma_rerun_plans_fixed(
    a0: GenV,
    b0: GenV,
    goal: GoalV,
    reg: Map<Seq<char>, DescV>,
    limit: int,
    total: nat,
    k: nat,
)
    requires
        same_skeleton(a0, b0),
        a0.leaves.len() == 0,
        b0.plans == run_steps(a0, goal, reg, limit, total).plans,
        run_steps(a0, goal, reg, limit, total).frontier.len() == 0,
    ensures
        run_steps(b0, goal, reg, limit, k).plans == b0.plans,
        same_skeleton(run_steps(a0, goal, reg, limit, k), run_steps(b0, goal, reg, limit, k)),
    decreases k,
{
    if k > 0 {
        let a0g = gen_single_spec(a0, goal, reg, limit);
        let b0g = gen_single_spec(b0, goal, reg, limit);
        let a1 = step_spec(a0, goal, reg, limit);
        let b1 = step_spec(b0, goal, reg, limit);
        lemma_gen_single_skeleton(a0, b0, goal, reg, limit);
        lemma_gen_single_frame(a0, goal, reg, limit);
        lemma_gen_single_frame(b0, goal, reg, limit);
        lemma_step_leaves_empty(a0, goal, reg, limit);
        assert(same_skeleton(a1, b1));
        if total == 0 {
            assert(run_steps(a0, goal, reg, limit, 0) == a0);
            assert(a0.frontier.len() == 0);
            lemma_idle_step(a0, goal, reg, limit);
            assert(b0.frontier.len() == 0 && b0g.leaves.len() == 0);
            assert(b1 == b0);
            assert(a1 == a0);
            lemma_rerun_plans_fixed(a1, b1, goal, reg, limit, 0, (k - 1) as nat);
            assert(run_steps(b0, goal, reg, limit, k) == run_steps(
                b1,
                goal,
                reg,
                limit,
                (k - 1) as nat,
            ));
            assert(run_steps(a0, goal, reg, limit, k) == run_steps(
                a1,
                goal,
                reg,
                limit,
                (k - 1) as nat,
            ));
        } else {
            assert(run_steps(a0, goal, reg, limit, total) == run_steps(
                a1,
                goal,
                reg,
                limit,
                (total - 1) as nat,
            ));
            if a0g.leaves.len() > 0 {
                let c = plan_of(a0g.nodes, a0g.leaves.last());
                assert(plan_of(b0g.nodes, b0g.leaves.last()) == c);
                assert(a1.plans.contains_key(goal.name) && a1.plans[goal.name].cost <= c.cost);
                lemma_run_never_raises_cost(a1, goal, reg, limit, (total - 1) as nat);
                assert(b0.plans.contains_key(goal.name) && b0.plans[goal.name].cost <= c.cost);
                assert(b0g.plans == b0.plans);
                assert(b1.plans == b0.plans);
            } else {
                assert(b1.plans == b0.plans);
            }
            lemma_rerun_plans_fixed(a1, b1, goal, reg, limit, (total - 1) as nat, (k - 1) as nat);
            assert(run_steps(b0, goal, reg, limit, k) == run_steps(
                b1,
                goal,
                reg,
                limit,
                (k - 1) as nat,
            ));
            assert(run_steps(a0, goal, reg, limit, k) == run_steps(
                a1,
                goal,
                reg,
                limit,
                (k - 1) as nat,
            ));
        }
    } else {
        assert(run_steps(b0, goal, reg, limit, 0) == b0);
        assert(run_steps(a0, goal, reg, limit, 0) == a0);
    }
}

/// Determinism, the second half: a planner that has run its search to
/// completion and is run to completion again — re-seeded from the same
/// world, registry and task list — keeps its plan table exactly, however
/// many ticks the second pass takes. Every candidate the re-run finds was
/// already weighed the first time, and the stored cost never exceeds it.
pub proof fn lemma_rerun_leaves_plans_unchanged(
    base: GenV,
    goal: GoalV,
    reg: Map<Seq<char>, DescV>,
    w: Map<Seq<char>, ValueV>,
    limit: int,
    n1: nat,
    m: nat,
)
    requires
        base.nodes.len() == 0,
        base.frontier.len() == 0,
        base.leaves.len() == 0,
        run_steps(seed_spec(base, reg, w), goal, reg, limit, n1).frontier.len() == 0,
    ensures
        ({
            let first = run_steps(seed_spec(base, reg, w), goal, reg, limit, n1);
            run_steps(seed_spec(first, reg, w), goal, reg, limit, m).plans == first.plans
        }),
{
    let seeds = possible_v(base.tasks, reg, w);
    let a0 = seed_spec(base, reg, w);
    assert(a0 == seed_fold(base, seeds, reg, w));
    assert(index_sane(base));
    lemma_seed_fold_sane(base, seeds, reg, w);
    let first = run_steps(a0, goal, reg, limit, n1);
    lemma_run_leaves_empty(a0, goal, reg, limit, n1);
    lemma_run_frame(a0, goal, reg, limit, n1);
    assert(first.goals == base.goals && first.tasks == base.tasks);
    assert(first.leaves.len() == 0);
    let freshf = GenV {
        nodes: Seq::<NodeV>::empty(),
        frontier: Seq::<int>::empty(),
        leaves: Seq::<int>::empty(),
        goals: first.goals,
        plans: first.plans,
        tasks: first.tasks,
    };
    assert(shifted(first, freshf, first.nodes)) by {
        assert(first.nodes =~= first.nodes + freshf.nodes.map_values(
            |n: NodeV| shift_node(n, first.nodes.len() as int),
        ));
        assert(first.frontier =~= freshf.frontier.map_values(
            |i: int| i + first.nodes.len() as int,
        ));
        assert(first.leaves =~= freshf.leaves.map_values(
            |i: int| i + first.nodes.len() as int,
        ));
    }
    assert(index_sane(freshf));
    let seeds2 = possible_v(first.tasks, reg, w);
    assert(seeds2 == seeds);
    lemma_seed_fold_shift(first, freshf, first.nodes, seeds2, reg, w);
    let b_big = seed_spec(first, reg, w);
    let b0 = seed_spec(freshf, reg, w);
    assert(b_big == seed_fold(first, seeds2, reg, w));
    assert(b0 == seed_fold(freshf, seeds2, reg, w));
    assert(shifted(b_big, b0, first.nodes));
    lemma_seed_fold_sane(freshf, seeds2, reg, w);
    lemma_run_shift(b_big, b0, first.nodes, goal, reg, limit, m);
    assert(run_steps(b_big, goal, reg, limit, m).plans == run_steps(
        b0,
        goal,
        reg,
        limit,
        m,
    ).plans);
    assert(same_skeleton(base, freshf)) by {
        assert(base.nodes =~= freshf.nodes);
        assert(base.frontier =~= freshf.frontier);
        assert(base.leaves =~= freshf.leaves);
    }
    lemma_seed_fold_skeleton(base, freshf, seeds, reg, w);
    assert(same_skeleton(a0, b0));
    assert(a0.leaves.len() == 0);
    assert(b0.plans == first.plans);
    lemma_rerun_plans_fixed(a0, b0, goal, reg, limit, n1, m);
    assert(run_steps(b0, goal, reg, limit, m).plans == b0.plans);
}

/// The name of the task, or "0" where there is none.
fn task_name_or_default(t: &Option<Task>) -> (r: String)
    ensures
        r@ == (match t {
            Some(x) => task_name(x@),
            None => seq!['0'],
        }),
{
    match t {
        Some(x) => x.name(),
        None => {
            proof {
                reveal_strlit("0");
                assert("0"@ =~= seq!['0']);
            }
            "0".to_owned()
        },
    }
}

} // verus!
