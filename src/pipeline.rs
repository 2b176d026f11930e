//! Types and algorithms to represent and manipulate pipelines.
//!
//! A pipeline is represented as a directed bipartite graph of tasks and files.

pub mod artifact;
mod graph;
pub mod task;

pub use artifact::Artifact;
pub use task::{Task, TaskBuilder, TaskModel, TaskBuilderModel};

use task::{clone_strings, strings_view};

use vstd::prelude::*;

use graph::{
    adjacent, graph_add_edge, graph_add_node, graph_edges, graph_neighbors, graph_new,
    graph_node_weight, graph_nodes, PipeGraph,
};

verus! {

/// Error encountered when setting up the pipeline.
#[derive(Debug, Clone, PartialEq, Eq)]
pub enum SetupError {
    /// A task with this name is already in the pipeline.
    DuplicateTask(String),
    /// A task was built without a name.
    MissingName,
}

/// A node of the pipeline graph: a task or an artifact.
#[derive(Debug, Clone)]
pub enum PipeNode {
    Task(Task),
    Artifact(Artifact),
}

/// Abstract value of a pipeline: its tasks in order of insertion, and the paths of
/// its artifacts in order of first mention.
pub struct PipelineModel {
    pub tasks: Seq<TaskModel>,
    pub artifacts: Seq<Seq<char>>,
}

/// The names of a sequence of tasks.
pub open spec fn task_names(tasks: Seq<TaskModel>) -> Seq<Seq<char>> {
    tasks.map_values(|t: TaskModel| t.name)
}

/// `known` extended by each path of `paths` that it does not hold yet, in order.
pub open spec fn add_paths(known: Seq<Seq<char>>, paths: Seq<Seq<char>>) -> Seq<Seq<char>>
    decreases paths.len(),
{
    if paths.len() == 0 {
        known
    } else {
        let before = add_paths(known, paths.drop_last());
        if before.contains(paths.last()) {
            before
        } else {
            before.push(paths.last())
        }
    }
}

/// Every path that some task of `tasks` names as a dependency or an output.
pub open spec fn mentioned_paths(tasks: Seq<TaskModel>) -> Set<Seq<char>> {
    Set::new(
        |p: Seq<char>|
            exists|i: int|
                0 <= i < tasks.len() && (#[trigger] tasks[i].dependencies.contains(p)
                    || tasks[i].outputs.contains(p)),
    )
}

/// The number of edges that the tasks of `tasks` give rise to: one per dependency
/// and one per output.
pub open spec fn edge_total(tasks: Seq<TaskModel>) -> nat
    decreases tasks.len(),
{
    if tasks.len() == 0 {
        0
    } else {
        edge_total(tasks.drop_last()) + tasks.last().dependencies.len()
            + tasks.last().outputs.len()
    }
}

impl PipelineModel {
    /// The pipeline with no tasks and no artifacts.
    pub open spec fn empty() -> PipelineModel {
        PipelineModel { tasks: Seq::empty(), artifacts: Seq::empty() }
    }

    /// Whether a task named `name` is in the pipeline.
    pub open spec fn has_task(self, name: Seq<char>) -> bool {
        task_names(self.tasks).contains(name)
    }

    /// The pipeline after adding `t`: unchanged if a task of that name is already
    /// there, else with `t` appended and its new paths registered as artifacts,
    /// dependencies first.
    pub open spec fn add_task(self, t: TaskModel) -> PipelineModel {
        if self.has_task(t.name) {
            self
        } else {
            PipelineModel {
                tasks: self.tasks.push(t),
                artifacts: add_paths(self.artifacts, t.dependencies + t.outputs),
            }
        }
    }
}

/// The pipeline obtained by adding each task of `tasks` in turn to an empty one.
pub open spec fn build_all(tasks: Seq<TaskModel>) -> PipelineModel
    decreases tasks.len(),
{
    if tasks.len() == 0 {
        PipelineModel::empty()
    } else {
        build_all(tasks.drop_last()).add_task(tasks.last())
    }
}

/// The node that `key` is indexed to, searching from the most recent entry.
pub open spec fn lookup(entries: Seq<(String, usize)>, key: Seq<char>) -> Option<usize>
    decreases entries.len(),
{
    if entries.len() == 0 {
        None
    } else if entries.last().0@ == key {
        Some(entries.last().1)
    } else {
        lookup(entries.drop_last(), key)
    }
}

/// The keys of an index, as character sequences.
pub open spec fn index_keys(entries: Seq<(String, usize)>) -> Seq<Seq<char>> {
    entries.map_values(|e: (String, usize)| e.0@)
}

proof fn lemma_lookup_found(entries: Seq<(String, usize)>, j: int)
    requires
        0 <= j < entries.len(),
        index_keys(entries).no_duplicates(),
    ensures
        lookup(entries, entries[j].0@) == Some(entries[j].1),
    decreases entries.len(),
{
    if j < entries.len() - 1 {
        let k = entries.len() - 1;
        assert(index_keys(entries)[j] != index_keys(entries)[k]);
        assert(index_keys(entries.drop_last()) =~= index_keys(entries).drop_last());
        lemma_lookup_found(entries.drop_last(), j);
    }
}

proof fn lemma_lookup_absent(entries: Seq<(String, usize)>, key: Seq<char>)
    requires
        !index_keys(entries).contains(key),
    ensures
        lookup(entries, key) is None,
    decreases entries.len(),
{
    if entries.len() > 0 {
        let k = entries.len() - 1;
        assert(index_keys(entries)[k] == entries[k].0@);
        assert(index_keys(entries.drop_last()) =~= index_keys(entries).drop_last());
        lemma_lookup_absent(entries.drop_last(), key);
    }
}

proof fn lemma_lookup_entry(entries: Seq<(String, usize)>, key: Seq<char>) -> (j: int)
    requires
        lookup(entries, key) is Some,
    ensures
        0 <= j < entries.len(),
        entries[j].0@ == key,
        lookup(entries, key) == Some(entries[j].1),
    decreases entries.len(),
{
    if entries.last().0@ == key {
        entries.len() - 1
    } else {
        let j = lemma_lookup_entry(entries.drop_last(), key);
        j
    }
}

proof fn lemma_lookup_push(entries: Seq<(String, usize)>, e: (String, usize), key: Seq<char>)
    ensures
        lookup(entries.push(e), key) == if e.0@ == key {
            Some(e.1)
        } else {
            lookup(entries, key)
        },
{
    assert(entries.push(e).drop_last() =~= entries);
}

proof fn lemma_adjacent_push(edges: Seq<(usize, usize)>, e: (usize, usize), a: usize, incoming: bool)
    ensures
        adjacent(edges.push(e), a, incoming) == if incoming && e.1 == a {
            seq![e.0] + adjacent(edges, a, incoming)
        } else if !incoming && e.0 == a {
            seq![e.1] + adjacent(edges, a, incoming)
        } else {
            adjacent(edges, a, incoming)
        },
{
    assert(edges.push(e).drop_last() =~= edges);
}

proof fn lemma_adjacent_isolated(edges: Seq<(usize, usize)>, a: usize, incoming: bool)
    requires
        forall|k: int| 0 <= k < edges.len() ==> (#[trigger] edges[k]).0 != a && edges[k].1 != a,
    ensures
        adjacent(edges, a, incoming) == Seq::<usize>::empty(),
    decreases edges.len(),
{
    if edges.len() > 0 {
        lemma_adjacent_isolated(edges.drop_last(), a, incoming);
    }
}

proof fn lemma_add_paths_contains(known: Seq<Seq<char>>, paths: Seq<Seq<char>>, p: Seq<char>)
    ensures
        add_paths(known, paths).contains(p) <==> known.contains(p) || paths.contains(p),
    decreases paths.len(),
{
    if paths.len() > 0 {
        lemma_add_paths_contains(known, paths.drop_last(), p);
        if paths.drop_last().contains(p) {
            let k = choose|k: int| 0 <= k < paths.drop_last().len() && paths.drop_last()[k] == p;
            assert(paths[k] == p);
        }
        if paths.contains(p) && p != paths.last() {
            let k = choose|k: int| 0 <= k < paths.len() && paths[k] == p;
            assert(paths.drop_last()[k] == p);
        }
        let before = add_paths(known, paths.drop_last());
        if !before.contains(paths.last()) {
            if before.push(paths.last()).contains(p) && p != paths.last() {
                let k = choose|k: int| 0 <= k < before.push(paths.last()).len() && before.push(paths.last())[k] == p;
                assert(before[k] == p);
            }
            if before.contains(p) {
                let k = choose|k: int| 0 <= k < before.len() && before[k] == p;
                assert(before.push(paths.last())[k] == p);
            }
            assert(before.push(paths.last())[before.len() as int] == paths.last());
        }
        assert(paths[paths.len() - 1] == paths.last());
    }
}

proof fn lemma_add_paths_step(known: Seq<Seq<char>>, paths: Seq<Seq<char>>, j: int)
    requires
        0 <= j < paths.len(),
    ensures
        add_paths(known, paths.take(j + 1)) == if add_paths(known, paths.take(j)).contains(paths[j]) {
            add_paths(known, paths.take(j))
        } else {
            add_paths(known, paths.take(j)).push(paths[j])
        },
{
    assert(paths.take(j + 1).drop_last() =~= paths.take(j));
}

proof fn lemma_task_push_totals(tasks: Seq<TaskModel>, t: TaskModel)
    ensures
        edge_total(tasks.push(t)) == edge_total(tasks) + t.dependencies.len() + t.outputs.len(),
        forall|p: Seq<char>|
            #[trigger] mentioned_paths(tasks.push(t)).contains(p) <==> mentioned_paths(tasks).contains(p)
                || t.dependencies.contains(p) || t.outputs.contains(p),
{
    assert(tasks.push(t).drop_last() =~= tasks);
    assert forall|p: Seq<char>|
        #[trigger] mentioned_paths(tasks.push(t)).contains(p) <==> mentioned_paths(tasks).contains(p)
            || t.dependencies.contains(p) || t.outputs.contains(p) by {
        let ts = tasks.push(t);
        if t.dependencies.contains(p) || t.outputs.contains(p) {
            assert(ts[tasks.len() as int] == t);
            assert(ts[tasks.len() as int].dependencies.contains(p) || ts[tasks.len() as int].outputs.contains(p));
        }
        if mentioned_paths(tasks).contains(p) {
            let i = choose|i: int|
                0 <= i < tasks.len() && (#[trigger] tasks[i].dependencies.contains(p)
                    || tasks[i].outputs.contains(p));
            assert(ts[i] == tasks[i]);
            assert(ts[i].dependencies.contains(p) || ts[i].outputs.contains(p));
        }
        if !mentioned_paths(tasks).contains(p) && !t.dependencies.contains(p) && !t.outputs.contains(p) {
            assert forall|i: int| 0 <= i < ts.len() implies !(#[trigger] ts[i].dependencies.contains(p)
                || ts[i].outputs.contains(p)) by {
                if i < tasks.len() {
                    assert(ts[i] == tasks[i]);
                    assert(!(tasks[i].dependencies.contains(p) || tasks[i].outputs.contains(p)));
                } else {
                    assert(ts[i] == t);
                }
            }
        }
    }
}

/// The pipeline's graph: tasks and artifacts, with an edge from each dependency
/// into its task and from each task out to each of its outputs, indexed by task
/// name and by artifact path.
pub struct Pipeline {
    graph: PipeGraph,
    tasks: Vec<(String, usize)>,
    artifacts: Vec<(String, usize)>,
}

/// The task that a node holds, if it holds one.
pub open spec fn node_task(n: PipeNode) -> TaskModel {
    match n {
        PipeNode::Task(t) => t@,
        PipeNode::Artifact(_) => arbitrary(),
    }
}

impl View for Pipeline {
    type V = PipelineModel;

    closed spec fn view(&self) -> PipelineModel {
        PipelineModel {
            tasks: self.tasks@.map_values(
                |e: (String, usize)| node_task(graph_nodes(self.graph)[e.1 as int]),
            ),
            artifacts: index_keys(self.artifacts@),
        }
    }
}

impl Pipeline {
    /// The nodes of the graph that the indexes promise: each task entry names a task
    /// node of that name, each artifact entry an artifact node of that path, and no
    /// key appears twice.
    closed spec fn indexes_ok(&self) -> bool {
        let nodes = graph_nodes(self.graph);
        &&& forall|i: int|
            0 <= i < self.tasks@.len() ==> {
                let e = #[trigger] self.tasks@[i];
                &&& e.1 < nodes.len()
                &&& nodes[e.1 as int] is Task
                &&& node_task(nodes[e.1 as int]).name == e.0@
            }
        &&& forall|i: int|
            0 <= i < self.artifacts@.len() ==> {
                let e = #[trigger] self.artifacts@[i];
                &&& e.1 < nodes.len()
                &&& nodes[e.1 as int] matches PipeNode::Artifact(a) && a.path@ == e.0@
            }
        &&& index_keys(self.tasks@).no_duplicates()
        &&& index_keys(self.artifacts@).no_duplicates()
    }

    /// The artifact node of `path`.
    pub closed spec fn artifact_node(&self, path: Seq<char>) -> usize {
        lookup(self.artifacts@, path).unwrap()
    }

    /// The artifact nodes with an edge into the `i`-th task's node, most recent first.
    pub closed spec fn dependency_nodes(&self, i: int) -> Seq<usize> {
        adjacent(graph_edges(self.graph), self.tasks@[i].1, true)
    }

    /// The artifact nodes with an edge out of the `i`-th task's node, most recent first.
    pub closed spec fn output_nodes(&self, i: int) -> Seq<usize> {
        adjacent(graph_edges(self.graph), self.tasks@[i].1, false)
    }

    /// The artifact that node `n` holds.
    pub closed spec fn artifact_at(&self, n: usize) -> Artifact {
        match graph_nodes(self.graph)[n as int] {
            PipeNode::Artifact(a) => a,
            PipeNode::Task(_) => arbitrary(),
        }
    }

    /// The `i`-th task's edges are those of its dependencies and outputs: one edge
    /// from the artifact node of each dependency, one to that of each output.
    closed spec fn wired(&self, i: int) -> bool {
        let t = self@.tasks[i];
        let deps = self.dependency_nodes(i);
        let outs = self.output_nodes(i);
        &&& deps.len() == t.dependencies.len()
        &&& forall|k: int|
            0 <= k < t.dependencies.len() ==> lookup(self.artifacts@, #[trigger] t.dependencies[k])
                == Some(deps[deps.len() - 1 - k])
        &&& outs.len() == t.outputs.len()
        &&& forall|k: int|
            0 <= k < t.outputs.len() ==> lookup(self.artifacts@, #[trigger] t.outputs[k]) == Some(
                outs[outs.len() - 1 - k],
            )
    }

    /// Every edge joins two nodes of the graph.
    closed spec fn edges_bounded(&self) -> bool {
        forall|k: int|
            0 <= k < graph_edges(self.graph).len() ==> {
                let e = #[trigger] graph_edges(self.graph)[k];
                e.0 < graph_nodes(self.graph).len() && e.1 < graph_nodes(self.graph).len()
            }
    }

    /// The task names in the view are the keys of the task index.
    proof fn lemma_task_names(&self)
        requires
            self.indexes_ok(),
        ensures
            task_names(self@.tasks) == index_keys(self.tasks@),
    {
        assert(task_names(self@.tasks) =~= index_keys(self.tasks@));
    }

    /// What `wired` needs of the graph and the artifact index is kept from
    /// `before` to `after`.
    proof fn lemma_wired_kept(before: Pipeline, after: Pipeline, i: int)
        requires
            0 <= i < before.tasks@.len(),
            0 <= i < after.tasks@.len(),
            before.wired(i),
            after@.tasks[i] == before@.tasks[i],
            after.dependency_nodes(i) == before.dependency_nodes(i),
            after.output_nodes(i) == before.output_nodes(i),
            forall|p: Seq<char>|
                lookup(before.artifacts@, p) is Some ==> #[trigger] lookup(after.artifacts@, p)
                    == lookup(before.artifacts@, p),
        ensures
            after.wired(i),
    {
        let t = before@.tasks[i];
        assert forall|k: int| 0 <= k < t.dependencies.len() implies lookup(
            after.artifacts@,
            #[trigger] t.dependencies[k],
        ) == lookup(before.artifacts@, t.dependencies[k]) by {
            assert(lookup(before.artifacts@, t.dependencies[k]) is Some);
        }
        assert forall|k: int| 0 <= k < t.outputs.len() implies lookup(
            after.artifacts@,
            #[trigger] t.outputs[k],
        ) == lookup(before.artifacts@, t.outputs[k]) by {
            assert(lookup(before.artifacts@, t.outputs[k]) is Some);
        }
    }

    /// The pipeline's invariant.
    pub closed spec fn wf(&self) -> bool {
        &&& self.indexes_ok()
        &&& graph_nodes(self.graph).len() == self.tasks@.len() + self.artifacts@.len()
        &&& graph_edges(self.graph).len() == edge_total(self@.tasks)
        &&& self.edges_bounded()
        &&& forall|i: int| 0 <= i < self.tasks@.len() ==> #[trigger] self.wired(i)
        &&& self@.artifacts.to_set() == mentioned_paths(self@.tasks)
    }
}

/// Adding tasks of pairwise distinct names to an empty pipeline keeps every one of
/// them, in order, so the task count is the number of tasks added; and the only
/// task of a pipeline so built under the name of an added task is that task.
pub proof fn lemma_distinct_tasks_all_added(tasks: Seq<TaskModel>)
    requires
        task_names(tasks).no_duplicates(),
    ensures
        build_all(tasks).tasks == tasks,
        build_all(tasks).tasks.len() == tasks.len(),
        forall|i: int, t: TaskModel|
            0 <= i < tasks.len() && #[trigger] build_all(tasks).tasks.contains(t) && t.name
                == #[trigger] tasks[i].name ==> t == tasks[i],
    decreases tasks.len(),
{
    if tasks.len() > 0 {
        let prefix = tasks.drop_last();
        assert(task_names(prefix) =~= task_names(tasks).drop_last());
        lemma_distinct_tasks_all_added(prefix);
        let last = tasks.last();
        if build_all(prefix).has_task(last.name) {
            let k = choose|k: int| 0 <= k < task_names(prefix).len() && task_names(prefix)[k] == last.name;
            assert(task_names(tasks)[k] == task_names(tasks)[tasks.len() - 1]);
        }
        assert(prefix.push(last) =~= tasks);
    }
    assert forall|i: int, t: TaskModel|
        0 <= i < tasks.len() && #[trigger] build_all(tasks).tasks.contains(t) && t.name
            == #[trigger] tasks[i].name implies t == tasks[i] by {
        let k = choose|k: int| 0 <= k < tasks.len() && tasks[k] == t;
        assert(task_names(tasks)[k] == task_names(tasks)[i]);
    }
}

/// The paths of a sequence of artifacts.
pub open spec fn paths_of(arts: Seq<&Artifact>) -> Seq<Seq<char>> {
    arts.map_values(|a: &Artifact| a.path@)
}

/// The node that `key` is indexed to in `entries`, if any.
fn find_entry(entries: &Vec<(String, usize)>, key: &String) -> (r: Option<usize>)
    ensures
        r == lookup(entries@, key@),
{
    let mut i: usize = entries.len();
    assert(entries@.take(i as int) =~= entries@);
    while i > 0
        invariant
            i <= entries.len(),
            lookup(entries@, key@) == lookup(entries@.take(i as int), key@),
        decreases i,
    {
        assert(entries@.take(i as int).drop_last() =~= entries@.take(i - 1));
        if entries[i - 1].0 == *key {
            return Some(entries[i - 1].1);
        }
        i = i - 1;
    }
    None
}

impl Pipeline {
    /// Construct an empty pipeline.
    pub fn new() -> (r: Pipeline)
        ensures
            r.wf(),
            r@ == PipelineModel::empty(),
    {
        let r = Pipeline { graph: graph_new(), tasks: Vec::new(), artifacts: Vec::new() };
        assert(r@.tasks =~= Seq::<TaskModel>::empty());
        assert(r@.artifacts =~= Seq::<Seq<char>>::empty());
        assert(r@.artifacts.to_set() =~= mentioned_paths(r@.tasks));
        r
    }

    /// Add a new task to the pipeline.
    ///
    /// Fails with [SetupError::DuplicateTask], leaving the pipeline as it was, when a
    /// task of the same name is already there. Otherwise the task gets a node, each
    /// dependency and output path not seen before gets an artifact node, and each
    /// dependency gets an edge into the task and each output an edge out of it.
    pub fn add_task(&mut self, task: Task) -> (r: Result<(), SetupError>)
        requires
            old(self).wf(),
        ensures
            final(self).wf(),
            final(self)@ == old(self)@.add_task(task@),
            r is Err <==> old(self)@.has_task(task@.name),
            r is Err ==> r->Err_0 == SetupError::DuplicateTask(task.name),
    {
        let name = task.name.clone();
        proof {
            self.lemma_task_names();
        }
        match find_entry(&self.tasks, &name) {
            Some(_) => {
                proof {
                    let j = lemma_lookup_entry(self.tasks@, name@);
                    assert(index_keys(self.tasks@)[j] == name@);
                }
                return Err(SetupError::DuplicateTask(name));
            },
            None => {},
        }
        proof {
            if index_keys(self.tasks@).contains(name@) {
                let j = choose|j: int| 0 <= j < self.tasks@.len() && index_keys(self.tasks@)[j] == name@;
                lemma_lookup_found(self.tasks@, j);
            }
        }
        let ghost t = task@;
        let ghost pre = *self;
        let deps = clone_strings(&task.dependencies);
        let outs = clone_strings(&task.outputs);
        let node = graph_add_node(&mut self.graph, PipeNode::Task(task));
        self.tasks.push((name, node));
        let ghost n = pre.tasks@.len() as int;
        proof {
            assert(self@.tasks =~= pre@.tasks.push(t));
            assert(index_keys(self.tasks@) =~= index_keys(pre.tasks@).push(t.name));
            lemma_adjacent_isolated(graph_edges(self.graph), node, true);
            lemma_adjacent_isolated(graph_edges(self.graph), node, false);
            assert forall|i: int| 0 <= i < n implies #[trigger] self.wired(i) by {
                assert(pre.wired(i));
                Pipeline::lemma_wired_kept(pre, *self, i);
            }
            assert(t.dependencies.take(0) =~= Seq::<Seq<char>>::empty());
        }
        let mut j: usize = 0;
        while j < deps.len()
            invariant
                pre.wf(),
                n == pre.tasks@.len(),
                node == pre.tasks@.len() + pre.artifacts@.len(),
                self.indexes_ok(),
                graph_nodes(self.graph).len() == self.tasks@.len() + self.artifacts@.len(),
                self.edges_bounded(),
                self.tasks@.len() == n + 1,
                forall|i: int| 0 <= i < n ==> #[trigger] self.tasks@[i] == pre.tasks@[i],
                self.tasks@[n].1 == node,
                self@.tasks == pre@.tasks.push(t),
                strings_view(deps@) == t.dependencies,
                strings_view(outs@) == t.outputs,
                j <= deps.len(),
                graph_edges(self.graph).len() == edge_total(pre@.tasks) + j,
                self.artifacts@.len() <= pre.artifacts@.len() + j,
                index_keys(self.artifacts@) == add_paths(pre@.artifacts, t.dependencies.take(j as int)),
                forall|i: int| 0 <= i < n ==> #[trigger] self.wired(i),
                self.dependency_nodes(n).len() == j,
                forall|k: int|
                    0 <= k < j ==> lookup(self.artifacts@, #[trigger] t.dependencies[k]) == Some(
                        self.dependency_nodes(n)[j - 1 - k],
                    ),
                self.output_nodes(n).len() == 0,
            decreases deps.len() - j,
        {
            let ghost before = *self;
            let a = self.find_or_insert_artifact(&deps[j]);
            let ghost mid = *self;
            graph_add_edge(&mut self.graph, a, node);
            proof {
                let e = (a, node);
                assert(graph_edges(self.graph) == graph_edges(mid.graph).push(e));
                let ja = lemma_lookup_entry(self.artifacts@, deps@[j as int]@);
                assert(a != node);
                assert(t.dependencies[j as int] == deps@[j as int]@);
                lemma_add_paths_step(pre@.artifacts, t.dependencies, j as int);
                lemma_adjacent_push(graph_edges(mid.graph), e, node, true);
                lemma_adjacent_push(graph_edges(mid.graph), e, node, false);
                assert forall|i: int| 0 <= i < n implies #[trigger] self.wired(i) by {
                    let ni = self.tasks@[i].1;
                    assert(self.tasks@[i] == pre.tasks@[i]);
                    assert(ni != a);
                    lemma_adjacent_push(graph_edges(mid.graph), e, ni, true);
                    lemma_adjacent_push(graph_edges(mid.graph), e, ni, false);
                    assert(before.wired(i));
                    Pipeline::lemma_wired_kept(before, *self, i);
                }
                assert forall|k: int|
                    0 <= k < j + 1 implies lookup(self.artifacts@, #[trigger] t.dependencies[k])
                    == Some(self.dependency_nodes(n)[j + 1 - 1 - k]) by {
                    if k < j {
                        assert(lookup(before.artifacts@, t.dependencies[k]) is Some);
                    }
                }
                assert forall|m: int| 0 <= m < graph_edges(self.graph).len() implies {
                    let ed = #[trigger] graph_edges(self.graph)[m];
                    ed.0 < graph_nodes(self.graph).len() && ed.1 < graph_nodes(self.graph).len()
                } by {
                    if m < graph_edges(mid.graph).len() {
                        assert(graph_edges(mid.graph)[m] == graph_edges(before.graph)[m]);
                    }
                }
            }
            j = j + 1;
        }
        proof {
            assert(t.dependencies.take(deps.len() as int) =~= t.dependencies);
            assert(t.dependencies + t.outputs.take(0) =~= t.dependencies);
        }
        let mut j: usize = 0;
        while j < outs.len()
            invariant
                pre.wf(),
                n == pre.tasks@.len(),
                node == pre.tasks@.len() + pre.artifacts@.len(),
                self.indexes_ok(),
                graph_nodes(self.graph).len() == self.tasks@.len() + self.artifacts@.len(),
                self.edges_bounded(),
                self.tasks@.len() == n + 1,
                forall|i: int| 0 <= i < n ==> #[trigger] self.tasks@[i] == pre.tasks@[i],
                self.tasks@[n].1 == node,
                self@.tasks == pre@.tasks.push(t),
                strings_view(outs@) == t.outputs,
                j <= outs.len(),
                graph_edges(self.graph).len() == edge_total(pre@.tasks) + t.dependencies.len() + j,
                self.artifacts@.len() <= pre.artifacts@.len() + t.dependencies.len() + j,
                index_keys(self.artifacts@) == add_paths(
                    pre@.artifacts,
                    t.dependencies + t.outputs.take(j as int),
                ),
                forall|i: int| 0 <= i < n ==> #[trigger] self.wired(i),
                self.dependency_nodes(n).len() == t.dependencies.len(),
                forall|k: int|
                    0 <= k < t.dependencies.len() ==> lookup(
                        self.artifacts@,
                        #[trigger] t.dependencies[k],
                    ) == Some(self.dependency_nodes(n)[t.dependencies.len() - 1 - k]),
                self.output_nodes(n).len() == j,
                forall|k: int|
                    0 <= k < j ==> lookup(self.artifacts@, #[trigger] t.outputs[k]) == Some(
                        self.output_nodes(n)[j - 1 - k],
                    ),
            decreases outs.len() - j,
        {
            let ghost before = *self;
            let a = self.find_or_insert_artifact(&outs[j]);
            let ghost mid = *self;
            graph_add_edge(&mut self.graph, node, a);
            proof {
                let e = (node, a);
                assert(graph_edges(self.graph) == graph_edges(mid.graph).push(e));
                let ja = lemma_lookup_entry(self.artifacts@, outs@[j as int]@);
                assert(a != node);
                assert(t.outputs[j as int] == outs@[j as int]@);
                let ps = t.dependencies + t.outputs;
                assert(t.dependencies + t.outputs.take(j + 1) =~= ps.take(t.dependencies.len() + j + 1));
                assert(t.dependencies + t.outputs.take(j as int) =~= ps.take(t.dependencies.len() + j));
                lemma_add_paths_step(pre@.artifacts, ps, t.dependencies.len() + j);
                lemma_adjacent_push(graph_edges(mid.graph), e, node, true);
                lemma_adjacent_push(graph_edges(mid.graph), e, node, false);
                assert forall|i: int| 0 <= i < n implies #[trigger] self.wired(i) by {
                    let ni = self.tasks@[i].1;
                    assert(self.tasks@[i] == pre.tasks@[i]);
                    assert(ni != a);
                    lemma_adjacent_push(graph_edges(mid.graph), e, ni, true);
                    lemma_adjacent_push(graph_edges(mid.graph), e, ni, false);
                    assert(before.wired(i));
                    Pipeline::lemma_wired_kept(before, *self, i);
                }
                assert forall|k: int|
                    0 <= k < t.dependencies.len() implies lookup(
                        self.artifacts@,
                        #[trigger] t.dependencies[k],
                    ) == Some(self.dependency_nodes(n)[t.dependencies.len() - 1 - k]) by {
                    assert(lookup(before.artifacts@, t.dependencies[k]) is Some);
                }
                assert forall|k: int|
                    0 <= k < j + 1 implies lookup(self.artifacts@, #[trigger] t.outputs[k])
                    == Some(self.output_nodes(n)[j + 1 - 1 - k]) by {
                    if k < j {
                        assert(lookup(before.artifacts@, t.outputs[k]) is Some);
                    }
                }
                assert forall|m: int| 0 <= m < graph_edges(self.graph).len() implies {
                    let ed = #[trigger] graph_edges(self.graph)[m];
                    ed.0 < graph_nodes(self.graph).len() && ed.1 < graph_nodes(self.graph).len()
                } by {
                    if m < graph_edges(mid.graph).len() {
                        assert(graph_edges(mid.graph)[m] == graph_edges(before.graph)[m]);
                    }
                }
            }
            j = j + 1;
        }
        proof {
            let ps = t.dependencies + t.outputs;
            assert(t.dependencies + t.outputs.take(outs.len() as int) =~= ps);
            assert(self.wired(n));
            lemma_task_push_totals(pre@.tasks, t);
            assert forall|p: Seq<char>| #[trigger] self@.artifacts.to_set().contains(p) <==> mentioned_paths(self@.tasks).contains(p) by {
                lemma_add_paths_contains(pre@.artifacts, ps, p);
                assert(pre@.artifacts.to_set().contains(p) == mentioned_paths(pre@.tasks).contains(p));
                if ps.contains(p) {
                    let k = choose|k: int| 0 <= k < ps.len() && ps[k] == p;
                    if k < t.dependencies.len() {
                        assert(t.dependencies[k] == p);
                    } else {
                        assert(t.outputs[k - t.dependencies.len()] == p);
                    }
                }
                if t.dependencies.contains(p) {
                    let k = choose|k: int| 0 <= k < t.dependencies.len() && t.dependencies[k] == p;
                    assert(ps[k] == p);
                }
                if t.outputs.contains(p) {
                    let k = choose|k: int| 0 <= k < t.outputs.len() && t.outputs[k] == p;
                    assert(ps[t.dependencies.len() + k] == p);
                }
            }
            assert(self@.artifacts.to_set() =~= mentioned_paths(self@.tasks));
            assert(self@ == pre@.add_task(t));
        }
        Ok(())
    }

    /// Get a task by name.
    ///
    /// Returns `None` when no task of that name was added.
    pub fn get_task(&self, name: &str) -> (r: Option<&Task>)
        requires
            self.wf(),
        ensures
            r is Some <==> self@.has_task(name@),
            r matches Some(t) ==> t@.name == name@ && self@.tasks.contains(t@),
            forall|i: int|
                0 <= i < self@.tasks.len() && #[trigger] self@.tasks[i].name == name@ ==> (r matches Some(
                    t,
                ) && t@ == self@.tasks[i]),
    {
        let key = name.to_owned();
        proof {
            self.lemma_task_names();
            if index_keys(self.tasks@).contains(name@) {
                let j = choose|j: int| 0 <= j < self.tasks@.len() && index_keys(self.tasks@)[j] == name@;
                lemma_lookup_found(self.tasks@, j);
            }
        }
        match find_entry(&self.tasks, &key) {
            Some(idx) => {
                proof {
                    let j = lemma_lookup_entry(self.tasks@, name@);
                    assert(index_keys(self.tasks@)[j] == name@);
                    assert(self@.tasks[j] == node_task(graph_nodes(self.graph)[idx as int]));
                    assert forall|i: int|
                        0 <= i < self@.tasks.len() && #[trigger] self@.tasks[i].name == name@ implies i
                        == j by {
                        assert(index_keys(self.tasks@)[i] == name@);
                    }
                }
                self.get_task_by_index(idx)
            },
            None => {
                proof {
                    assert forall|i: int|
                        0 <= i < self@.tasks.len() && #[trigger] self@.tasks[i].name == name@ implies false by {
                        self.lemma_task_entry(name@, i);
                    }
                }
                None
            },
        }
    }

    /// Get an artifact by path.
    ///
    /// Returns `None` when no task names that path as a dependency or an output.
    pub fn get_artifact(&self, path: &str) -> (r: Option<&Artifact>)
        requires
            self.wf(),
        ensures
            r is Some <==> self@.artifacts.contains(path@),
            r matches Some(a) ==> a.path@ == path@,
    {
        let key = path.to_owned();
        proof {
            if index_keys(self.artifacts@).contains(path@) {
                let j = choose|j: int| 0 <= j < self.artifacts@.len() && index_keys(self.artifacts@)[j] == path@;
                lemma_lookup_found(self.artifacts@, j);
            }
        }
        match find_entry(&self.artifacts, &key) {
            Some(idx) => {
                proof {
                    let j = lemma_lookup_entry(self.artifacts@, path@);
                    assert(index_keys(self.artifacts@)[j] == path@);
                }
                self.get_artifact_by_index(idx)
            },
            None => None,
        }
    }

    /// Get the task at a node.
    fn get_task_by_index(&self, idx: usize) -> (r: Option<&Task>)
        requires
            idx < graph_nodes(self.graph).len(),
            graph_nodes(self.graph)[idx as int] is Task,
        ensures
            r matches Some(t) && graph_nodes(self.graph)[idx as int] == PipeNode::Task(*t),
    {
        match graph_node_weight(&self.graph, idx) {
            Some(PipeNode::Task(task)) => Some(task),
            _ => None,
        }
    }

    /// Get the artifact at a node.
    fn get_artifact_by_index(&self, idx: usize) -> (r: Option<&Artifact>)
        requires
            idx < graph_nodes(self.graph).len(),
            graph_nodes(self.graph)[idx as int] is Artifact,
        ensures
            r matches Some(a) && *a == self.artifact_at(idx),
    {
        match graph_node_weight(&self.graph, idx) {
            Some(PipeNode::Artifact(art)) => Some(art),
            _ => None,
        }
    }

    /// The artifacts at the neighbours of node `idx` in one direction, most recently
    /// wired first.
    fn neighbor_artifacts(&self, idx: usize, incoming: bool) -> (r: Vec<&Artifact>)
        requires
            idx < graph_nodes(self.graph).len(),
            forall|k: int|
                0 <= k < adjacent(graph_edges(self.graph), idx, incoming).len() ==> {
                    let m = #[trigger] adjacent(graph_edges(self.graph), idx, incoming)[k];
                    m < graph_nodes(self.graph).len() && graph_nodes(self.graph)[m as int] is Artifact
                },
        ensures
            r@.len() == adjacent(graph_edges(self.graph), idx, incoming).len(),
            forall|k: int|
                0 <= k < r@.len() ==> *#[trigger] r@[k] == self.artifact_at(
                    adjacent(graph_edges(self.graph), idx, incoming)[k],
                ),
    {
        let ns = graph_neighbors(&self.graph, idx, incoming);
        let mut r: Vec<&Artifact> = Vec::new();
        let mut k: usize = 0;
        while k < ns.len()
            invariant
                ns@ == adjacent(graph_edges(self.graph), idx, incoming),
                    forall|m: int|
                    0 <= m < ns@.len() ==> {
                        let x = #[trigger] ns@[m];
                        x < graph_nodes(self.graph).len() && graph_nodes(self.graph)[x as int] is Artifact
                    },
                k <= ns.len(),
                r@.len() == k,
                forall|m: int| 0 <= m < k ==> *#[trigger] r@[m] == self.artifact_at(ns@[m]),
            decreases ns.len() - k,
        {
            match self.get_artifact_by_index(ns[k]) {
                Some(a) => r.push(a),
                None => {},
            }
            k = k + 1;
        }
        r
    }

    /// Of the `i`-th task, named `name`: the task index finds its node, and its
    /// neighbours are artifact nodes holding its dependency and output paths, most
    /// recent first.
    proof fn lemma_task_entry(&self, name: Seq<char>, i: int)
        requires
            self.wf(),
            0 <= i < self.tasks@.len(),
            self@.tasks[i].name == name,
        ensures
            lookup(self.tasks@, name) == Some(self.tasks@[i].1),
            self.tasks@[i].1 < graph_nodes(self.graph).len(),
            self.wired(i),
            forall|k: int|
                0 <= k < self.dependency_nodes(i).len() ==> {
                    let m = #[trigger] self.dependency_nodes(i)[k];
                    &&& m < graph_nodes(self.graph).len()
                    &&& graph_nodes(self.graph)[m as int] is Artifact
                    &&& self.artifact_at(m).path@ == self@.tasks[i].dependencies.reverse()[k]
                },
            forall|k: int|
                0 <= k < self.output_nodes(i).len() ==> {
                    let m = #[trigger] self.output_nodes(i)[k];
                    &&& m < graph_nodes(self.graph).len()
                    &&& graph_nodes(self.graph)[m as int] is Artifact
                    &&& self.artifact_at(m).path@ == self@.tasks[i].outputs.reverse()[k]
                },
    {
        lemma_lookup_found(self.tasks@, i);
        assert(self.wired(i));
        let t = self@.tasks[i];
        assert forall|k: int| 0 <= k < self.dependency_nodes(i).len() implies {
            let m = #[trigger] self.dependency_nodes(i)[k];
            &&& m < graph_nodes(self.graph).len()
            &&& graph_nodes(self.graph)[m as int] is Artifact
            &&& self.artifact_at(m).path@ == t.dependencies.reverse()[k]
        } by {
            let q = t.dependencies.len() - 1 - k;
            assert(lookup(self.artifacts@, t.dependencies[q]) == Some(self.dependency_nodes(i)[k]));
            let j = lemma_lookup_entry(self.artifacts@, t.dependencies[q]);
            assert(self.artifacts@[j].1 == self.dependency_nodes(i)[k]);
        }
        assert forall|k: int| 0 <= k < self.output_nodes(i).len() implies {
            let m = #[trigger] self.output_nodes(i)[k];
            &&& m < graph_nodes(self.graph).len()
            &&& graph_nodes(self.graph)[m as int] is Artifact
            &&& self.artifact_at(m).path@ == t.outputs.reverse()[k]
        } by {
            let q = t.outputs.len() - 1 - k;
            assert(lookup(self.artifacts@, t.outputs[q]) == Some(self.output_nodes(i)[k]));
            let j = lemma_lookup_entry(self.artifacts@, t.outputs[q]);
            assert(self.artifacts@[j].1 == self.output_nodes(i)[k]);
        }
    }

    /// Get the dependencies of a task: the artifacts with an edge into it, most
    /// recently wired first.
    ///
    /// Returns an empty list when no task of that name was added.
    pub fn task_dependencies(&self, name: &str) -> (r: Vec<&Artifact>)
        requires
            self.wf(),
        ensures
            !self@.has_task(name@) ==> r@.len() == 0,
            forall|i: int|
                0 <= i < self@.tasks.len() && #[trigger] self@.tasks[i].name == name@ ==> {
                    &&& paths_of(r@) == self@.tasks[i].dependencies.reverse()
                    &&& r@.len() == self.dependency_nodes(i).len()
                    &&& forall|k: int|
                        0 <= k < r@.len() ==> *#[trigger] r@[k] == self.artifact_at(
                            self.dependency_nodes(i)[k],
                        )
                },
    {
        let key = name.to_owned();
        proof {
            self.lemma_task_names();
        }
        match find_entry(&self.tasks, &key) {
            Some(idx) => {
                proof {
                    let j = lemma_lookup_entry(self.tasks@, name@);
                    assert(index_keys(self.tasks@)[j] == name@);
                    self.lemma_task_entry(name@, j);
                }
                let r = self.neighbor_artifacts(idx, true);
                proof {
                    assert forall|i: int|
                        0 <= i < self@.tasks.len() && #[trigger] self@.tasks[i].name == name@ implies {
                            &&& paths_of(r@) == self@.tasks[i].dependencies.reverse()
                            &&& r@.len() == self.dependency_nodes(i).len()
                            &&& forall|k: int|
                                0 <= k < r@.len() ==> *#[trigger] r@[k] == self.artifact_at(
                                    self.dependency_nodes(i)[k],
                                )
                        } by {
                        self.lemma_task_entry(name@, i);
                        assert(paths_of(r@) =~= self@.tasks[i].dependencies.reverse());
                    }
                }
                r
            },
            None => {
                proof {
                    assert forall|i: int|
                        0 <= i < self@.tasks.len() && #[trigger] self@.tasks[i].name == name@ implies false by {
                        self.lemma_task_entry(name@, i);
                    }
                }
                Vec::new()
            },
        }
    }

    /// Get the outputs of a task: the artifacts with an edge out of it, most
    /// recently wired first.
    ///
    /// Returns an empty list when no task of that name was added.
    pub fn task_outputs(&self, name: &str) -> (r: Vec<&Artifact>)
        requires
            self.wf(),
        ensures
            !self@.has_task(name@) ==> r@.len() == 0,
            forall|i: int|
                0 <= i < self@.tasks.len() && #[trigger] self@.tasks[i].name == name@ ==> {
                    &&& paths_of(r@) == self@.tasks[i].outputs.reverse()
                    &&& r@.len() == self.output_nodes(i).len()
                    &&& forall|k: int|
                        0 <= k < r@.len() ==> *#[trigger] r@[k] == self.artifact_at(
                            self.output_nodes(i)[k],
                        )
                },
    {
        let key = name.to_owned();
        proof {
            self.lemma_task_names();
        }
        match find_entry(&self.tasks, &key) {
            Some(idx) => {
                proof {
                    let j = lemma_lookup_entry(self.tasks@, name@);
                    assert(index_keys(self.tasks@)[j] == name@);
                    self.lemma_task_entry(name@, j);
                }
                let r = self.neighbor_artifacts(idx, false);
                proof {
                    assert forall|i: int|
                        0 <= i < self@.tasks.len() && #[trigger] self@.tasks[i].name == name@ implies {
                            &&& paths_of(r@) == self@.tasks[i].outputs.reverse()
                            &&& r@.len() == self.output_nodes(i).len()
                            &&& forall|k: int|
                                0 <= k < r@.len() ==> *#[trigger] r@[k] == self.artifact_at(
                                    self.output_nodes(i)[k],
                                )
                        } by {
                        self.lemma_task_entry(name@, i);
                        assert(paths_of(r@) =~= self@.tasks[i].outputs.reverse());
                    }
                }
                r
            },
            None => {
                proof {
                    assert forall|i: int|
                        0 <= i < self@.tasks.len() && #[trigger] self@.tasks[i].name == name@ implies false by {
                        self.lemma_task_entry(name@, i);
                    }
                }
                Vec::new()
            },
        }
    }

    /// Get the number of tasks in the pipeline.
    pub fn task_count(&self) -> (r: usize)
        ensures
            r == self@.tasks.len(),
    {
        self.tasks.len()
    }

    /// Get the number of artifacts in the pipeline.
    pub fn artifact_count(&self) -> (r: usize)
        ensures
            r == self@.artifacts.len(),
    {
        self.artifacts.len()
    }

    /// No two tasks of a pipeline share a name, and no two artifacts a path.
    pub proof fn lemma_names_distinct(&self)
        requires
            self.wf(),
        ensures
            task_names(self@.tasks).no_duplicates(),
            self@.artifacts.no_duplicates(),
    {
        self.lemma_task_names();
    }

    /// The artifacts of a pipeline are exactly the distinct paths that its tasks name
    /// as dependencies or outputs, so the artifact count is the number of those paths.
    pub proof fn lemma_artifact_count(&self)
        requires
            self.wf(),
        ensures
            self@.artifacts.to_set() == mentioned_paths(self@.tasks),
            self@.artifacts.len() == mentioned_paths(self@.tasks).len(),
    {
        self@.artifacts.unique_seq_to_set();
    }

    /// When task `a` outputs `path` and task `b` depends on it, both are wired to the
    /// one artifact node of that path: it has an edge from `a` and an edge into `b`.
    pub proof fn lemma_wiring(&self, a: int, b: int, path: Seq<char>)
        requires
            self.wf(),
            0 <= a < self@.tasks.len(),
            0 <= b < self@.tasks.len(),
            self@.tasks[a].outputs.contains(path),
            self@.tasks[b].dependencies.contains(path),
        ensures
            self.output_nodes(a).contains(self.artifact_node(path)),
            self.dependency_nodes(b).contains(self.artifact_node(path)),
            self.artifact_at(self.artifact_node(path)).path@ == path,
    {
        assert(self.wired(a));
        assert(self.wired(b));
        let ta = self@.tasks[a];
        let tb = self@.tasks[b];
        let qa = choose|q: int| 0 <= q < ta.outputs.len() && ta.outputs[q] == path;
        let qb = choose|q: int| 0 <= q < tb.dependencies.len() && tb.dependencies[q] == path;
        let outs = self.output_nodes(a);
        let deps = self.dependency_nodes(b);
        assert(lookup(self.artifacts@, ta.outputs[qa]) == Some(outs[outs.len() - 1 - qa]));
        assert(lookup(self.artifacts@, tb.dependencies[qb]) == Some(deps[deps.len() - 1 - qb]));
        assert(outs[outs.len() - 1 - qa] == self.artifact_node(path));
        assert(deps[deps.len() - 1 - qb] == self.artifact_node(path));
        let j = lemma_lookup_entry(self.artifacts@, path);
    }

    /// Look up or insert an artifact by path.
    fn find_or_insert_artifact(&mut self, path: &String) -> (r: usize)
        requires
            old(self).indexes_ok(),
            graph_nodes(old(self).graph).len() == old(self).tasks@.len() + old(self).artifacts@.len(),
        ensures
            final(self).indexes_ok(),
            graph_nodes(final(self).graph).len() == final(self).tasks@.len() + final(self).artifacts@.len(),
            final(self).tasks == old(self).tasks,
            final(self)@.tasks == old(self)@.tasks,
            graph_edges(final(self).graph) == graph_edges(old(self).graph),
            graph_nodes(final(self).graph).len() >= graph_nodes(old(self).graph).len(),
            forall|k: int|
                0 <= k < graph_nodes(old(self).graph).len() ==> graph_nodes(final(self).graph)[k]
                    == graph_nodes(old(self).graph)[k],
            r < graph_nodes(final(self).graph).len(),
            final(self).artifacts@.len() <= old(self).artifacts@.len() + 1,
            lookup(final(self).artifacts@, path@) == Some(r),
            forall|p: Seq<char>|
                lookup(old(self).artifacts@, p) is Some ==> #[trigger] lookup(
                    final(self).artifacts@,
                    p,
                ) == lookup(old(self).artifacts@, p),
            index_keys(final(self).artifacts@) == if index_keys(old(self).artifacts@).contains(
                path@,
            ) {
                index_keys(old(self).artifacts@)
            } else {
                index_keys(old(self).artifacts@).push(path@)
            },
    {
        proof {
            if index_keys(self.artifacts@).contains(path@) {
                let j = choose|j: int| 0 <= j < self.artifacts@.len() && index_keys(self.artifacts@)[j] == path@;
                lemma_lookup_found(self.artifacts@, j);
            } else {
                lemma_lookup_absent(self.artifacts@, path@);
            }
        }
        match find_entry(&self.artifacts, path) {
            Some(n) => {
                proof {
                    let j = lemma_lookup_entry(self.artifacts@, path@);
                    assert(index_keys(self.artifacts@)[j] == path@);
                }
                n
            },
            None => {
                let ghost prev = *self;
                let art = Artifact { path: path.clone() };
                let n = graph_add_node(&mut self.graph, PipeNode::Artifact(art));
                self.artifacts.push((path.clone(), n));
                proof {
                    assert(self.artifacts@ == prev.artifacts@.push(self.artifacts@.last()));
                    assert(index_keys(self.artifacts@) =~= index_keys(prev.artifacts@).push(path@));
                    assert forall|p: Seq<char>| lookup(prev.artifacts@, p) is Some implies #[trigger] lookup(
                        self.artifacts@,
                        p,
                    ) == lookup(prev.artifacts@, p) by {
                        lemma_lookup_push(prev.artifacts@, self.artifacts@.last(), p);
                    }
                    lemma_lookup_push(prev.artifacts@, self.artifacts@.last(), path@);
                    assert(self@.tasks =~= prev@.tasks);
                    assert(index_keys(self.artifacts@).no_duplicates()) by {
                        assert(index_keys(self.artifacts@) =~= index_keys(prev.artifacts@).push(path@));
                    }
                }
                n
            },
        }
    }
}

} // verus!
