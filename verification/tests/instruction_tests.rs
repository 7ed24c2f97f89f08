use bakefile::Instruction;

#[test]
fn test_attributes() {
    let prepare = Instruction::with_action("nap", "sleep 2");
    assert_eq!(&prepare.name(), "nap");
    assert_eq!(&prepare.command(), "sleep 2");
}

#[test]
fn test_dependencies() {
    let mut bake_with_frosting = Instruction::with_dependencies(
        "produce-cake",
        &["apply-frosting"],
        &vec!["acquire-ingredients", "bake-cake"],
    );
    assert_eq!(&bake_with_frosting.name(), "produce-cake");
    assert_eq!(&bake_with_frosting.command(), "apply-frosting");
    assert_eq!(
        bake_with_frosting.dependencies(),
        vec!["acquire-ingredients".to_string(), "bake-cake".to_string(),]
    );

    bake_with_frosting.add_dependency("wait-til-cooldown");

    assert_eq!(
        bake_with_frosting.dependencies(),
        vec![
            "acquire-ingredients".to_string(),
            "bake-cake".to_string(),
            "wait-til-cooldown".to_string(),
        ]
    );
}

#[test]
fn test_command_joins_steps_with_newlines() {
    let inst = Instruction::with_dependencies("x", &["a", "b", "c"], &[]);
    assert_eq!(inst.command(), "a\nb\nc");
    assert_eq!(Instruction::new("empty").command(), "");
}

#[test]
fn test_set_label_and_actions() {
    let mut inst = Instruction::new("old");
    inst.set_label("new");
    assert_eq!(inst.name(), "new");
    inst.add_action("one");
    inst.set_action(&["two", "three"]);
    assert_eq!(
        inst.steps(),
        vec!["one".to_string(), "two".to_string(), "three".to_string()]
    );
}

#[test]
fn test_of_dependencies_has_no_steps() {
    let inst = Instruction::of_dependencies("top", &["a", "b"]);
    assert_eq!(inst.steps(), Vec::<String>::new());
    assert_eq!(inst.dependencies(), vec!["a".to_string(), "b".to_string()]);
}
