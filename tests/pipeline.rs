use dpcl::pipeline::{Pipeline, SetupError, Task};

fn paths(arts: &[&dpcl::pipeline::Artifact]) -> Vec<String> {
    arts.iter().map(|a| a.path.clone()).collect()
}

/// Initial conditions for an empty pipeline.
#[test]
fn test_empty_pipeline() {
    let pipe = Pipeline::new();

    assert_eq!(pipe.task_count(), 0);
    assert_eq!(pipe.artifact_count(), 0);
    assert!(pipe.get_task("bob").is_none());
    assert!(pipe.get_task("bob").is_none());
}

/// A single task with no inputs or outputs.
#[test]
fn test_add_empty_task() {
    let mut pipe = Pipeline::new();

    let task = Task::builder().name("bob").build().unwrap();
    pipe.add_task(task).unwrap();

    assert_eq!(pipe.task_count(), 1);
    assert_eq!(pipe.artifact_count(), 0);

    let task = pipe.get_task("bob");
    assert!(task.is_some());
    let task = task.expect("no task found");
    assert_eq!(&task.name, "bob");
    assert_eq!(task.dependencies.len(), 0);
    assert_eq!(task.outputs.len(), 0);

    assert_eq!(pipe.task_dependencies("bob").len(), 0);
    assert_eq!(pipe.task_outputs("bob").len(), 0);
}

/// A single task with one input and one output.
#[test]
fn test_add_single_inout() {
    let mut pipe = Pipeline::new();

    let task = Task::builder().name("bob").dependency("bob.in").output("bob.out").build().unwrap();
    pipe.add_task(task).unwrap();

    assert_eq!(pipe.task_count(), 1);
    assert_eq!(pipe.artifact_count(), 2);

    let task = pipe.get_task("bob");
    assert!(task.is_some());
    let task = task.expect("no task found");
    assert_eq!(task.name.as_str(), "bob");
    assert_eq!(task.dependencies.len(), 1);
    assert_eq!(task.outputs.len(), 1);

    let deps = pipe.task_dependencies("bob");
    assert_eq!(deps.len(), 1);
    assert_eq!(&deps[0].path, "bob.in");

    let outs = pipe.task_outputs("bob");
    assert_eq!(outs.len(), 1);
    assert_eq!(&outs[0].path, "bob.out");

    let dep = pipe.get_artifact("bob.in");
    assert!(dep.is_some());
    assert_eq!(&dep.expect("no artifact").path, "bob.in");

    let out = pipe.get_artifact("bob.out");
    assert!(out.is_some());
    assert_eq!(&out.expect("no artifact").path, "bob.out");
}

/// Wiring two tasks together.
#[test]
fn test_add_task_wire() {
    let mut pipe = Pipeline::new();

    let task = Task::builder().name("alice").output("alice.out").build().unwrap();
    pipe.add_task(task).unwrap();

    let task = Task::builder()
        .name("bob")
        .dependency("bob.in")
        .dependency("alice.out")
        .output("bob.out")
        .build()
        .unwrap();
    pipe.add_task(task).unwrap();

    assert_eq!(pipe.task_count(), 2);
    assert_eq!(pipe.artifact_count(), 3);

    let task = pipe.get_task("bob");
    assert!(task.is_some());
    let task = task.expect("no task found");
    assert_eq!(task.name.as_str(), "bob");
    assert_eq!(task.dependencies.len(), 2);
    assert_eq!(task.outputs.len(), 1);

    let task = pipe.get_task("alice");
    assert!(task.is_some());
    let task = task.expect("no task found");
    assert_eq!(task.name.as_str(), "alice");
    assert_eq!(task.dependencies.len(), 0);
    assert_eq!(task.outputs.len(), 1);

    let deps = pipe.task_dependencies("bob");
    assert_eq!(deps.len(), 2);
    let paths: Vec<_> = deps.into_iter().map(|a| a.path.as_str()).collect();
    assert!(paths.contains(&"bob.in"));
    assert!(paths.contains(&"alice.out"));

    let outs = pipe.task_outputs("bob");
    assert_eq!(outs.len(), 1);
    assert_eq!(outs[0].path, "bob.out");

    let dep = pipe.get_artifact("bob.in");
    assert!(dep.is_some());
    assert_eq!(dep.expect("no artifact").path, "bob.in");

    let out = pipe.get_artifact("bob.out");
    assert!(out.is_some());
    assert_eq!(out.expect("no artifact").path, "bob.out");
}

#[test]
fn duplicate_task_is_rejected_and_pipeline_unchanged() {
    let mut pipe = Pipeline::new();
    pipe.add_task(Task::builder().name("bob").output("bob.out").build().unwrap()).unwrap();

    let again = Task::builder().name("bob").dependency("other.in").build().unwrap();
    let r = pipe.add_task(again);
    assert_eq!(r, Err(SetupError::DuplicateTask("bob".to_string())));

    assert_eq!(pipe.task_count(), 1);
    assert_eq!(pipe.artifact_count(), 1);
    assert!(pipe.get_artifact("other.in").is_none());
    assert_eq!(pipe.get_task("bob").unwrap().outputs, vec!["bob.out".to_string()]);
    assert_eq!(pipe.task_dependencies("bob").len(), 0);
}

#[test]
fn unknown_names_give_empty_results() {
    let mut pipe = Pipeline::new();
    pipe.add_task(Task::builder().name("bob").dependency("bob.in").build().unwrap()).unwrap();

    assert!(pipe.get_task("alice").is_none());
    assert!(pipe.get_task("bob.in").is_none());
    assert!(pipe.get_artifact("bob").is_none());
    assert!(pipe.get_artifact("missing").is_none());
    assert!(pipe.task_dependencies("alice").is_empty());
    assert!(pipe.task_outputs("alice").is_empty());
    assert!(pipe.task_dependencies("bob.in").is_empty());
}

#[test]
fn artifacts_are_deduplicated_by_path() {
    let mut pipe = Pipeline::new();
    // the same path twice as a dependency, and once again as an output
    let t = Task::builder()
        .name("loop")
        .dependency("a")
        .dependency("a")
        .output("a")
        .output("b")
        .build()
        .unwrap();
    pipe.add_task(t).unwrap();
    assert_eq!(pipe.artifact_count(), 2);

    let t = Task::builder().name("next").dependency("b").dependency("c").output("a").build().unwrap();
    pipe.add_task(t).unwrap();
    assert_eq!(pipe.task_count(), 2);
    assert_eq!(pipe.artifact_count(), 3);

    // one edge per declared dependency, even a repeated one
    assert_eq!(paths(&pipe.task_dependencies("loop")), vec!["a", "a"]);
    assert_eq!(paths(&pipe.task_outputs("loop")), vec!["b", "a"]);
}

#[test]
fn neighbours_come_most_recent_first() {
    let mut pipe = Pipeline::new();
    let t = Task::builder()
        .name("t")
        .dependency("d1")
        .dependency("d2")
        .dependency("d3")
        .output("o1")
        .output("o2")
        .build()
        .unwrap();
    pipe.add_task(t).unwrap();
    assert_eq!(paths(&pipe.task_dependencies("t")), vec!["d3", "d2", "d1"]);
    assert_eq!(paths(&pipe.task_outputs("t")), vec!["o2", "o1"]);
}

#[test]
fn wired_tasks_share_the_artifact() {
    let mut pipe = Pipeline::new();
    pipe.add_task(Task::builder().name("a").output("p").build().unwrap()).unwrap();
    pipe.add_task(Task::builder().name("b").dependency("p").build().unwrap()).unwrap();

    let outs = pipe.task_outputs("a");
    let deps = pipe.task_dependencies("b");
    let art = pipe.get_artifact("p").unwrap();
    assert_eq!(outs.len(), 1);
    assert_eq!(deps.len(), 1);
    assert!(std::ptr::eq(outs[0], deps[0]));
    assert!(std::ptr::eq(outs[0], art));
    assert_eq!(pipe.artifact_count(), 1);
}

#[test]
fn many_distinct_tasks_are_all_kept() {
    let mut pipe = Pipeline::new();
    let names = ["t0", "t1", "t2", "t3", "t4"];
    for (i, n) in names.iter().enumerate() {
        let out = format!("{}.out", n);
        let mut b = Task::builder();
        b.name(n).output(&out).command(&format!("run {}", i));
        if i > 0 {
            b.dependency(&format!("{}.out", names[i - 1]));
        }
        pipe.add_task(b.build().unwrap()).unwrap();
    }
    assert_eq!(pipe.task_count(), 5);
    assert_eq!(pipe.artifact_count(), 5);
    for (i, n) in names.iter().enumerate() {
        let t = pipe.get_task(n).unwrap();
        assert_eq!(t.name, *n);
        assert_eq!(t.command, Some(format!("run {}", i)));
        assert_eq!(t.outputs, vec![format!("{}.out", n)]);
    }
}
