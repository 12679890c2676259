//! The task catalog: task identity (primitive or composite), the registry
//! mapping task names to behaviour descriptors, and the derivation of a
//! composite task's net pre- and postconditions.

use vstd::prelude::*;

use crate::data::{
    assoc_insert, assoc_map, consume_map, keys_unique, lemma_assoc_absent, lemma_assoc_get,
    unmet_map, Num, PredV, Requirements, UniqueName, ValueV, WorldState,
};

verus! {

/// The mathematical value of a `Task`: its name, and for a composite its
/// ordered sub-tasks.
pub enum TaskV {
    Primitive(Seq<char>),
    Macro(Seq<TaskV>, Seq<char>),
}

/// A named unit of behaviour: a primitive leaf action, or a composite (an
/// ordered sequence of sub-tasks under one name) with no behaviour
/// descriptor of its own.
#[derive(Debug)]
pub enum Task {
    Primitive(String),
    Macro(Vec<Task>, String),
}

/// The views of a task sequence.
pub open spec fn tasks_view(s: Seq<Task>) -> Seq<TaskV>
    decreases s,
{
    if s.len() == 0 {
        Seq::empty()
    } else {
        seq![s[0]@] + tasks_view(s.subrange(1, s.len() as int))
    }
}

/// The views of a string sequence.
pub open spec fn strs_view(s: Seq<String>) -> Seq<Seq<char>> {
    s.map_values(|x: String| x@)
}

impl View for Task {
    type V = TaskV;

    open spec fn view(&self) -> TaskV
        decreases self,
    {
        match self {
            Task::Primitive(name) => TaskV::Primitive(name@),
            Task::Macro(subs, name) => {
                proof {
                    assert(decreases_to!(subs => subs@));
                }
                TaskV::Macro(tasks_view(subs@), name@)
            },
        }
    }
}

/// A task sequence's view has the element views, in order.
pub proof fn lemma_tasks_view(s: Seq<Task>)
    ensures
        tasks_view(s).len() == s.len(),
        forall|i: int| 0 <= i < s.len() ==> tasks_view(s)[i] == s[i]@,
    decreases s.len(),
{
    if s.len() > 0 {
        let sub = s.subrange(1, s.len() as int);
        lemma_tasks_view(sub);
        assert(tasks_view(s) == seq![s[0]@] + tasks_view(sub));
        assert forall|i: int| 0 <= i < s.len() implies tasks_view(s)[i] == s[i]@ by {
            if i > 0 {
                assert(tasks_view(s)[i] == tasks_view(sub)[i - 1]);
                assert(sub[i - 1] == s[i]);
            } else {
                assert(tasks_view(s)[0] == s[0]@);
            }
        }
    }
}

/// The name a task goes by.
pub open spec fn task_name(t: TaskV) -> Seq<char> {
    match t {
        TaskV::Primitive(name) => name,
        TaskV::Macro(_, name) => name,
    }
}

/// The flat list of primitive task names a task decomposes into, in
/// execution order.
pub open spec fn decompose_v(t: TaskV) -> Seq<Seq<char>>
    decreases t,
{
    match t {
        TaskV::Primitive(name) => seq![name],
        TaskV::Macro(subs, _) => fwd_concat(subs),
    }
}

/// The decompositions of the tasks of `s`, concatenated in order.
pub open spec fn fwd_concat(s: Seq<TaskV>) -> Seq<Seq<char>>
    decreases s,
{
    if s.len() == 0 {
        Seq::empty()
    } else {
        decompose_v(s[0]) + fwd_concat(s.drop_first())
    }
}

/// The decompositions of the tasks of `s`, concatenated in reverse task
/// order: the last task's names first. Each task's own decomposition keeps
/// its forward order.
pub open spec fn rev_concat(s: Seq<TaskV>) -> Seq<Seq<char>>
    decreases s,
{
    if s.len() == 0 {
        Seq::empty()
    } else {
        rev_concat(s.drop_first()) + decompose_v(s[0])
    }
}

/// An element-wise copy of a task sequence.
fn clone_tasks(ts: &Vec<Task>) -> (r: Vec<Task>)
    ensures
        r@.len() == ts@.len(),
        forall|j: int| 0 <= j < ts@.len() ==> r@[j]@ == ts@[j]@,
    decreases ts@,
{
    let n = ts.len();
    let mut v: Vec<Task> = Vec::new();
    let mut i: usize = 0;
    while i < n
        invariant
            n == ts@.len(),
            i <= n,
            v@.len() == i,
            forall|j: int| 0 <= j < i ==> v@[j]@ == ts@[j]@,
        decreases n - i,
    {
        v.push(ts[i].clone());
        i += 1;
    }
    v
}

impl Clone for Task {
    fn clone(&self) -> (r: Self)
        ensures
            r@ == self@,
        decreases self,
    {
        match self {
            Task::Primitive(name) => Task::Primitive(name.clone()),
            Task::Macro(subs, name) => {
                proof {
                    assert(decreases_to!(subs => subs@));
                }
                let v = clone_tasks(subs);
                let r = Task::Macro(v, name.clone());
                proof {
                    lemma_tasks_view(v@);
                    lemma_tasks_view(subs@);
                    assert(tasks_view(v@) =~= tasks_view(subs@));
                }
                r
            },
        }
    }
}

/// The decompositions of the given tasks, concatenated in order.
fn decompose_list(ts: &Vec<Task>) -> (r: Vec<String>)
    ensures
        strs_view(r@) == fwd_concat(tasks_view(ts@)),
    decreases ts@,
{
    let n = ts.len();
    let mut out: Vec<String> = Vec::new();
    let mut i: usize = 0;
    proof {
        lemma_tasks_view(ts@);
        assert(tasks_view(ts@).skip(0) =~= tasks_view(ts@));
        assert(strs_view(out@) =~= Seq::<Seq<char>>::empty());
    }
    while i < n
        invariant
            n == ts@.len(),
            i <= n,
            tasks_view(ts@).len() == n,
            forall|j: int| 0 <= j < n ==> tasks_view(ts@)[j] == ts@[j]@,
            strs_view(out@) + fwd_concat(tasks_view(ts@).skip(i as int)) == fwd_concat(
                tasks_view(ts@),
            ),
        decreases n - i,
    {
        let ghost pre = out@;
        let mut part = ts[i].decompose();
        proof {
            let sv = tasks_view(ts@);
            assert(sv.skip(i as int)[0] == ts@[i as int]@);
            assert(sv.skip(i as int).drop_first() =~= sv.skip(i + 1));
        }
        out.append(&mut part);
        proof {
            assert(strs_view(out@) =~= strs_view(pre) + decompose_v(ts@[i as int]@));
            assert(strs_view(out@) + fwd_concat(tasks_view(ts@).skip(i + 1)) =~= fwd_concat(
                tasks_view(ts@),
            ));
        }
        i += 1;
    }
    proof {
        assert(tasks_view(ts@).skip(n as int) =~= Seq::<TaskV>::empty());
        assert(strs_view(out@) + Seq::<Seq<char>>::empty() =~= strs_view(out@));
    }
    out
}

impl Task {
    /// The task's own name.
    pub fn name(&self) -> (r: String)
        ensures
            r@ == task_name(self@),
    {
        match self {
            Task::Primitive(name) => name.clone(),
            Task::Macro(_, name) => name.clone(),
        }
    }

    /// A primitive task of the given name.
    pub fn primitive(name: &str) -> (r: Task)
        ensures
            r@ == TaskV::Primitive(name@),
    {
        Task::Primitive(name.to_owned())
    }

    /// A composite task of the given sub-tasks, under one name.
    pub fn macro_(set: Vec<Task>, name: &str) -> (r: Task)
        ensures
            r@ == TaskV::Macro(tasks_view(set@), name@),
    {
        Task::Macro(set, name.to_owned())
    }

    /// Flattens the task into its primitive names, in execution order.
    pub fn decompose(&self) -> (r: Vec<String>)
        ensures
            strs_view(r@) == decompose_v(self@),
        decreases self,
    {
        match self {
            Task::Primitive(name) => {
                let mut v: Vec<String> = Vec::new();
                v.push(name.clone());
                proof {
                    assert(strs_view(v@) =~= seq![name@]);
                }
                v
            },
            Task::Macro(subs, _) => {
                proof {
                    assert(decreases_to!(subs => subs@));
                }
                decompose_list(subs)
            },
        }
    }

    /// The decompositions of the given tasks, concatenated in order.
    pub fn decompose_iter(tasks: &Vec<Task>) -> (r: Vec<String>)
        ensures
            strs_view(r@) == fwd_concat(tasks_view(tasks@)),
    {
        decompose_list(tasks)
    }
}

/// The mathematical value of a task descriptor: net precondition, net
/// effect, and cost.
pub struct DescV {
    pub pre: Map<Seq<char>, PredV>,
    pub post: Map<Seq<char>, ValueV>,
    pub cost: int,
}

/// A task behaviour descriptor whose preconditions, postconditions and cost
/// are static values.
#[derive(Debug)]
pub struct SimpleTaskData {
    precon: Requirements,
    postcon: WorldState,
    cost: Num,
}

impl View for SimpleTaskData {
    type V = DescV;

    closed spec fn view(&self) -> DescV {
        DescV { pre: self.precon@, post: self.postcon@, cost: self.cost@ }
    }
}

impl SimpleTaskData {
    /// The representations of the held worlds hold each key at most once.
    pub closed spec fn wf(&self) -> bool {
        self.precon.wf() && self.postcon.wf()
    }

    /// A descriptor of the given conditions and cost.
    pub fn new(precon: Requirements, postcon: WorldState, cost: Num) -> (r: SimpleTaskData)
        ensures
            r@ == (DescV { pre: precon@, post: postcon@, cost: cost@ }),
            r.wf() == (precon.wf() && postcon.wf()),
    {
        SimpleTaskData { precon, postcon, cost }
    }

    /// The requirements that must hold before the task runs.
    pub fn preconditions(&self) -> (r: &Requirements)
        ensures
            r@ == self@.pre,
            self.wf() ==> r.wf(),
    {
        &self.precon
    }

    /// The facts the task makes true.
    pub fn postconditions(&self) -> (r: &WorldState)
        ensures
            r@ == self@.post,
            self.wf() ==> r.wf(),
    {
        &self.postcon
    }

    /// The task's cost, evaluated against a world; this descriptor's cost
    /// does not depend on the world.
    pub fn cost(&self, _world: &WorldState) -> (r: Num)
        ensures
            r@ == self@.cost,
    {
        self.cost
    }
}

impl Clone for SimpleTaskData {
    fn clone(&self) -> (r: Self)
        ensures
            r@ == self@,
            r.wf() == self.wf(),
    {
        SimpleTaskData {
            precon: self.precon.clone(),
            postcon: self.postcon.clone(),
            cost: self.cost,
        }
    }
}

/// What registering tasks under names yields: a mapping from a task name to
/// its behaviour descriptor.
#[derive(Debug)]
pub struct TaskRegistry {
    entries: Vec<(UniqueName, SimpleTaskData)>,
}

impl View for TaskRegistry {
    type V = Map<Seq<char>, DescV>;

    closed spec fn view(&self) -> Map<Seq<char>, DescV> {
        assoc_map(self.entries@)
    }
}

/// The net precondition a name list folds to: for each name in order, drop
/// the running requirements its postconditions already guarantee, then merge
/// its own preconditions in. An unregistered name yields nothing.
pub open spec fn precon_fold(
    names: Seq<Seq<char>>,
    reg: Map<Seq<char>, DescV>,
    acc: Map<Seq<char>, PredV>,
) -> Option<Map<Seq<char>, PredV>>
    decreases names.len(),
{
    if names.len() == 0 {
        Some(acc)
    } else if !reg.contains_key(names[0]) {
        None
    } else {
        precon_fold(
            names.drop_first(),
            reg,
            unmet_map(acc, reg[names[0]].post).union_prefer_right(reg[names[0]].pre),
        )
    }
}

/// The net effect a name list folds to: for each name in order, drop the
/// accumulated facts its preconditions would consume, then merge its
/// postconditions in. An unregistered name yields nothing.
pub open spec fn postcon_fold(
    names: Seq<Seq<char>>,
    reg: Map<Seq<char>, DescV>,
    acc: Map<Seq<char>, ValueV>,
) -> Option<Map<Seq<char>, ValueV>>
    decreases names.len(),
{
    if names.len() == 0 {
        Some(acc)
    } else if !reg.contains_key(names[0]) {
        None
    } else {
        postcon_fold(
            names.drop_first(),
            reg,
            consume_map(reg[names[0]].pre, acc).union_prefer_right(reg[names[0]].post),
        )
    }
}

/// A task's net precondition against a registry: a primitive's own, or the
/// fold over a composite's decomposition in reverse execution order.
pub open spec fn precon_spec(t: TaskV, reg: Map<Seq<char>, DescV>) -> Option<
    Map<Seq<char>, PredV>,
> {
    match t {
        TaskV::Primitive(n) => if reg.contains_key(n) {
            Some(reg[n].pre)
        } else {
            None
        },
        TaskV::Macro(subs, _) => precon_fold(rev_concat(subs), reg, Map::empty()),
    }
}

/// A task's net effect against a registry: a primitive's own, or the fold
/// over a composite's decomposition in reverse execution order.
pub open spec fn postcon_spec(t: TaskV, reg: Map<Seq<char>, DescV>) -> Option<
    Map<Seq<char>, ValueV>,
> {
    match t {
        TaskV::Primitive(n) => if reg.contains_key(n) {
            Some(reg[n].post)
        } else {
            None
        },
        TaskV::Macro(subs, _) => postcon_fold(rev_concat(subs), reg, Map::empty()),
    }
}

impl TaskRegistry {
    /// Each name is registered at most once, and every descriptor is
    /// well-formed.
    pub closed spec fn wf(&self) -> bool {
        keys_unique(self.entries@) && forall|i: int|
            0 <= i < self.entries@.len() ==> (#[trigger] self.entries@[i]).1.wf()
    }

    /// An empty registry.
    pub fn new() -> (r: TaskRegistry)
        ensures
            r@ == Map::<Seq<char>, DescV>::empty(),
            r.wf(),
    {
        TaskRegistry { entries: Vec::new() }
    }

    /// Registers a task of static preconditions, postconditions and cost
    /// under `name`.
    pub fn task(&mut self, name: &str, precon: Requirements, postcon: WorldState, cost: Num)
        requires
            old(self).wf(),
            precon.wf(),
            postcon.wf(),
        ensures
            final(self).wf(),
            final(self)@ == old(self)@.insert(
                name@,
                DescV { pre: precon@, post: postcon@, cost: cost@ },
            ),
    {
        let data = SimpleTaskData::new(precon, postcon, cost);
        assoc_insert(&mut self.entries, UniqueName::new(name), data);
    }

    /// Registers an arbitrary prepared descriptor under `name`.
    pub fn custom_task(&mut self, name: &str, data: SimpleTaskData)
        requires
            old(self).wf(),
            data.wf(),
        ensures
            final(self).wf(),
            final(self)@ == old(self)@.insert(name@, data@),
    {
        assoc_insert(&mut self.entries, UniqueName::new(name), data);
    }

    /// The descriptor registered under `task`, if any.
    pub fn get_named(&self, task: &str) -> (r: Option<&SimpleTaskData>)
        requires
            self.wf(),
        ensures
            r is Some <==> self@.contains_key(task@),
            r matches Some(d) ==> d@ == self@[task@] && d.wf(),
    {
        let key = UniqueName::new(task);
        match crate::data::find_key(&self.entries, &key) {
            Some(i) => {
                proof {
                    lemma_assoc_get(self.entries@, i as int);
                }
                Some(&self.entries[i].1)
            },
            None => {
                proof {
                    lemma_assoc_absent(self.entries@, key@);
                }
                None
            },
        }
    }

    /// The descriptor a task resolves to: a primitive's registered entry; a
    /// composite resolves to none, having no descriptor of its own.
    pub fn get_task(&self, task: &Task) -> (r: Option<&SimpleTaskData>)
        requires
            self.wf(),
        ensures
            task@ is Macro ==> r is None,
            task@ matches TaskV::Primitive(n) ==> ((r is Some <==> self@.contains_key(n)) && (
            r matches Some(d) ==> d@ == self@[n] && d.wf())),
    {
        match task {
            Task::Primitive(name) => self.get_named(name.as_str()),
            Task::Macro(_, _) => None,
        }
    }

    /// Both the net precondition and the net effect of `task`, where both
    /// resolve.
    pub fn pre_and_postcon(&self, task: &Task) -> (r: Option<(Requirements, WorldState)>)
        requires
            self.wf(),
        ensures
            r is Some <==> (precon_spec(task@, self@) is Some && postcon_spec(task@, self@)
                is Some),
            r matches Some(p) ==> precon_spec(task@, self@) == Some(p.0@) && postcon_spec(
                task@,
                self@,
            ) == Some(p.1@) && p.0.wf() && p.1.wf(),
    {
        let pre = self.precon(task);
        let post = self.postcon(task);
        match (pre, post) {
            (Some(p), Some(q)) => Some((p, q)),
            _ => None,
        }
    }

    /// The flat decomposition of a composite's sub-tasks in reverse task
    /// order: the last sub-task's primitive names first.
    fn reverse_names(subs: &Vec<Task>) -> (r: Vec<String>)
        ensures
            strs_view(r@) == rev_concat(tasks_view(subs@)),
    {
        let n = subs.len();
        let mut names: Vec<String> = Vec::new();
        let mut k: usize = 0;
        proof {
            lemma_tasks_view(subs@);
            assert(tasks_view(subs@).skip(n as int) =~= Seq::<TaskV>::empty());
            assert(strs_view(names@) =~= Seq::<Seq<char>>::empty());
        }
        while k < n
            invariant
                n == subs@.len(),
                k <= n,
                tasks_view(subs@).len() == n,
                forall|j: int| 0 <= j < n ==> tasks_view(subs@)[j] == subs@[j]@,
                strs_view(names@) == rev_concat(tasks_view(subs@).skip((n - k) as int)),
            decreases n - k,
        {
            let idx = n - 1 - k;
            let ghost pre = names@;
            let mut part = subs[idx].decompose();
            names.append(&mut part);
            proof {
                let sv = tasks_view(subs@);
                assert(sv.skip(idx as int)[0] == subs@[idx as int]@);
                assert(sv.skip(idx as int).drop_first() =~= sv.skip(idx + 1));
                assert(strs_view(names@) =~= strs_view(pre) + decompose_v(subs@[idx as int]@));
            }
            k += 1;
        }
        proof {
            assert(tasks_view(subs@).skip(0) =~= tasks_view(subs@));
        }
        names
    }

    /// The net precondition of `task`: what must hold before the whole task
    /// starts. Nothing, if a primitive name it stands on is unregistered.
    pub fn precon(&self, task: &Task) -> (r: Option<Requirements>)
        requires
            self.wf(),
        ensures
            r is Some <==> precon_spec(task@, self@) is Some,
            r matches Some(p) ==> precon_spec(task@, self@) == Some(p@) && p.wf(),
    {
        match task {
            Task::Primitive(name) => {
                match self.get_named(name.as_str()) {
                    Some(data) => Some(data.preconditions().clone()),
                    None => None,
                }
            },
            Task::Macro(subs, mname) => {
                let names = Self::reverse_names(subs);
                let m = names.len();
                let ghost nv = strs_view(names@);
                let ghost target = precon_fold(nv, self@, Map::empty());
                let mut req = Requirements::new();
                let mut i: usize = 0;
                proof {
                    assert(nv.skip(0) =~= nv);
                    assert(task@ == TaskV::Macro(tasks_view(subs@), mname@));
                    assert(precon_spec(task@, self@) == target);
                }
                while i < m
                    invariant
                        self.wf(),
                        m == names@.len(),
                        i <= m,
                        nv == strs_view(names@),
                        nv.len() == m,
                        req.wf(),
                        precon_fold(nv.skip(i as int), self@, req@) == target,
                        precon_spec(task@, self@) == target,
                    decreases m - i,
                {
                    proof {
                        assert(nv.skip(i as int)[0] == names@[i as int]@);
                        assert(nv.skip(i as int).drop_first() =~= nv.skip(i + 1));
                    }
                    match self.get_named(names[i].as_str()) {
                        None => {
                            return None;
                        },
                        Some(data) => {
                            req = req.unmet_requirements(data.postconditions());
                            req.append(data.preconditions());
                        },
                    }
                    i += 1;
                }
                proof {
                    assert(nv.skip(m as int) =~= Seq::<Seq<char>>::empty());
                }
                Some(req)
            },
        }
    }

    /// The net effect of `task`: what holds after the whole task has run.
    /// Nothing, if a primitive name it stands on is unregistered.
    pub fn postcon(&self, task: &Task) -> (r: Option<WorldState>)
        requires
            self.wf(),
        ensures
            r is Some <==> postcon_spec(task@, self@) is Some,
            r matches Some(w) ==> postcon_spec(task@, self@) == Some(w@) && w.wf(),
    {
        match task {
            Task::Primitive(name) => {
                match self.get_named(name.as_str()) {
                    Some(data) => Some(data.postconditions().clone()),
                    None => None,
                }
            },
            Task::Macro(subs, mname) => {
                let names = Self::reverse_names(subs);
                let m = names.len();
                let ghost nv = strs_view(names@);
                let ghost target = postcon_fold(nv, self@, Map::empty());
                let mut context = WorldState::new();
                let mut i: usize = 0;
                proof {
                    assert(nv.skip(0) =~= nv);
                    assert(task@ == TaskV::Macro(tasks_view(subs@), mname@));
                    assert(postcon_spec(task@, self@) == target);
                }
                while i < m
                    invariant
                        self.wf(),
                        m == names@.len(),
                        i <= m,
                        nv == strs_view(names@),
                        nv.len() == m,
                        context.wf(),
                        postcon_fold(nv.skip(i as int), self@, context@) == target,
                        postcon_spec(task@, self@) == target,
                    decreases m - i,
                {
                    proof {
                        assert(nv.skip(i as int)[0] == names@[i as int]@);
                        assert(nv.skip(i as int).drop_first() =~= nv.skip(i + 1));
                    }
                    match self.get_named(names[i].as_str()) {
                        None => {
                            return None;
                        },
                        Some(data) => {
                            context = data.preconditions().consume(&context);
                            context.append(data.postconditions());
                        },
                    }
                    i += 1;
                }
                proof {
                    assert(nv.skip(m as int) =~= Seq::<Seq<char>>::empty());
                }
                Some(context)
            },
        }
    }
}

} // verus!
