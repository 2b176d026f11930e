//! Pipeline tasks.

use vstd::prelude::*;

use super::SetupError;

verus! {

/// Abstract value of a task: its name, command and the paths it reads and writes.
pub struct TaskModel {
    pub name: Seq<char>,
    pub command: Option<Seq<char>>,
    pub dependencies: Seq<Seq<char>>,
    pub outputs: Seq<Seq<char>>,
}

/// Abstract value of a task builder.
pub struct TaskBuilderModel {
    pub name: Option<Seq<char>>,
    pub command: Option<Seq<char>>,
    pub dependencies: Seq<Seq<char>>,
    pub outputs: Seq<Seq<char>>,
}

impl TaskBuilderModel {
    /// The task that a builder in this state builds, once it has a name.
    pub open spec fn task(self) -> TaskModel {
        TaskModel {
            name: self.name.unwrap(),
            command: self.command,
            dependencies: self.dependencies,
            outputs: self.outputs,
        }
    }
}

/// The character sequences of a list of strings.
pub open spec fn strings_view(v: Seq<String>) -> Seq<Seq<char>> {
    v.map_values(|s: String| s@)
}

/// The character sequence of an optional string.
pub open spec fn opt_string_view(o: Option<String>) -> Option<Seq<char>> {
    match o {
        Some(s) => Some(s@),
        None => None,
    }
}

/// A single task in a pipeline.
#[derive(Debug, Clone)]
pub struct Task {
    pub name: String,
    pub command: Option<String>,
    pub dependencies: Vec<String>,
    pub outputs: Vec<String>,
}

impl View for Task {
    type V = TaskModel;

    open spec fn view(&self) -> TaskModel {
        TaskModel {
            name: self.name@,
            command: opt_string_view(self.command),
            dependencies: strings_view(self.dependencies@),
            outputs: strings_view(self.outputs@),
        }
    }
}

/// Builder to construct a task.
///
/// Use [Task::builder] to construct this.
#[derive(Debug)]
pub struct TaskBuilder {
    name: Option<String>,
    command: Option<String>,
    dependencies: Vec<String>,
    outputs: Vec<String>,
}

impl View for TaskBuilder {
    type V = TaskBuilderModel;

    closed spec fn view(&self) -> TaskBuilderModel {
        TaskBuilderModel {
            name: opt_string_view(self.name),
            command: opt_string_view(self.command),
            dependencies: strings_view(self.dependencies@),
            outputs: strings_view(self.outputs@),
        }
    }
}

impl Task {
    /// Construct a new task builder.
    pub fn builder() -> (r: TaskBuilder)
        ensures
            r@ == (TaskBuilderModel {
                name: None,
                command: None,
                dependencies: Seq::empty(),
                outputs: Seq::empty(),
            }),
    {
        let r = TaskBuilder {
            name: None,
            command: None,
            dependencies: Vec::new(),
            outputs: Vec::new(),
        };
        assert(strings_view(r.dependencies@) =~= Seq::empty());
        assert(strings_view(r.outputs@) =~= Seq::empty());
        r
    }
}

impl TaskBuilder {
    /// Set the name of the task being built.
    pub fn name(&mut self, name: &str) -> (r: &mut Self)
        ensures
            r@ == (TaskBuilderModel { name: Some(name@), ..old(self)@ }),
            *final(self) == *final(r),
    {
        self.name = Some(name.to_string());
        self
    }

    /// Set the command that the task being built runs.
    pub fn command(&mut self, command: &str) -> (r: &mut Self)
        ensures
            r@ == (TaskBuilderModel { command: Some(command@), ..old(self)@ }),
            *final(self) == *final(r),
    {
        self.command = Some(command.to_string());
        self
    }

    /// Add a dependency path to the task being built.
    pub fn dependency(&mut self, dep: &str) -> (r: &mut Self)
        ensures
            r@ == (TaskBuilderModel {
                dependencies: old(self)@.dependencies.push(dep@),
                ..old(self)@
            }),
            *final(self) == *final(r),
    {
        self.dependencies.push(dep.to_string());
        assert(strings_view(self.dependencies@) =~= old(self)@.dependencies.push(dep@));
        self
    }

    /// Add an output path to the task being built.
    pub fn output(&mut self, out: &str) -> (r: &mut Self)
        ensures
            r@ == (TaskBuilderModel { outputs: old(self)@.outputs.push(out@), ..old(self)@ }),
            *final(self) == *final(r),
    {
        self.outputs.push(out.to_string());
        assert(strings_view(self.outputs@) =~= old(self)@.outputs.push(out@));
        self
    }

    /// Build the task.
    ///
    /// Fails with [SetupError::MissingName] when no name was set.
    pub fn build(&self) -> (r: Result<Task, SetupError>)
        ensures
            r is Ok <==> self@.name is Some,
            r is Ok ==> r->Ok_0@ == self@.task(),
            r is Err ==> r->Err_0 == SetupError::MissingName,
    {
        match &self.name {
            Some(name) => {
                let command = match &self.command {
                    Some(c) => Some(c.clone()),
                    None => None,
                };
                let dependencies = clone_strings(&self.dependencies);
                let outputs = clone_strings(&self.outputs);
                Ok(Task { name: name.clone(), command, dependencies, outputs })
            },
            None => Err(SetupError::MissingName),
        }
    }
}

/// A copy of a list of strings.
pub(crate) fn clone_strings(v: &Vec<String>) -> (r: Vec<String>)
    ensures
        strings_view(r@) == strings_view(v@),
{
    let mut r: Vec<String> = Vec::new();
    let mut i: usize = 0;
    while i < v.len()
        invariant
            i <= v.len(),
            r.len() == i,
            strings_view(r@) == strings_view(v@).take(i as int),
        decreases v.len() - i,
    {
        let ghost prev = r@;
        let s = v[i].clone();
        r.push(s);
        assert forall|k: int| 0 <= k < i + 1 implies #[trigger] strings_view(r@)[k] == strings_view(
            v@,
        )[k] by {
            if k < i {
                assert(strings_view(prev)[k] == strings_view(v@).take(i as int)[k]);
            }
        }
        assert(strings_view(r@) =~= strings_view(v@).take(i + 1));
        i = i + 1;
    }
    assert(strings_view(v@).take(v.len() as int) =~= strings_view(v@));
    r
}

} // verus!
