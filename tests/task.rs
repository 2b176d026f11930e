use dpcl::pipeline::{SetupError, Task};

#[test]
fn test_no_deps() {
    let task = Task::builder().name("bob").build().unwrap();
    assert_eq!(task.dependencies.len(), 0);
    assert_eq!(task.outputs.len(), 0);
}

#[test]
fn test_one_dep_out() {
    let task = Task::builder().name("bob").dependency("bob.in").output("bob.out").build().unwrap();
    assert_eq!(task.dependencies.len(), 1);
    assert_eq!(task.dependencies[0], "bob.in");
    assert_eq!(task.outputs.len(), 1);
    assert_eq!(task.outputs[0], "bob.out");
}

#[test]
fn build_without_name_fails() {
    let r = Task::builder().dependency("a.in").output("a.out").build();
    assert!(matches!(r, Err(SetupError::MissingName)));
}

#[test]
fn builder_keeps_declaration_order() {
    let task = Task::builder()
        .name("carol")
        .dependency("x")
        .dependency("y")
        .dependency("x")
        .output("z")
        .output("w")
        .build()
        .unwrap();
    assert_eq!(task.name, "carol");
    assert_eq!(task.dependencies, vec!["x".to_string(), "y".to_string(), "x".to_string()]);
    assert_eq!(task.outputs, vec!["z".to_string(), "w".to_string()]);
    assert_eq!(task.command, None);
}

#[test]
fn builder_sets_command_and_last_name_wins() {
    let task = Task::builder().name("first").command("make all").name("second").build().unwrap();
    assert_eq!(task.name, "second");
    assert_eq!(task.command, Some("make all".to_string()));
}

#[test]
fn builder_can_build_twice() {
    let mut b = Task::builder();
    b.name("dave").output("d.out");
    let t1 = b.build().unwrap();
    b.dependency("d.in");
    let t2 = b.build().unwrap();
    assert_eq!(t1.dependencies.len(), 0);
    assert_eq!(t2.dependencies, vec!["d.in".to_string()]);
    assert_eq!(t2.outputs, vec!["d.out".to_string()]);
}
