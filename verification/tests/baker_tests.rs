use bakefile::Baker;
use bakefile::Cli;
use bakefile::Error;
use bakefile::Instruction;
use bakefile::Recipe;

fn sample_recipe() -> Recipe {
    let mut recipe = Recipe::blank();
    recipe.add_instruction(Instruction::with_action("first", "echo 1"));
    recipe.add_instruction(Instruction::with_action("second", "echo 2"));
    recipe.add_instruction(Instruction::with_action("second", "echo 2b"));
    recipe
}

#[test]
fn test_perform_without_labels_plans_main() -> Result<(), Error> {
    let baker = Baker::new(None, false, Vec::new());
    let plan = baker.perform(&sample_recipe())?;
    assert_eq!(plan, vec![Instruction::with_action("first", "echo 1")]);
    Ok(())
}

#[test]
fn test_perform_follows_request_order() -> Result<(), Error> {
    let baker = Baker::new(None, false, vec!["second".to_string(), "first".to_string()]);
    let plan = baker.perform(&sample_recipe())?;
    assert_eq!(
        plan,
        vec![
            Instruction::with_action("second", "echo 2"),
            Instruction::with_action("second", "echo 2b"),
            Instruction::with_action("first", "echo 1"),
        ]
    );
    Ok(())
}

#[test]
fn test_perform_unknown_label_falls_back_to_main() -> Result<(), Error> {
    let baker = Baker::new(None, false, vec!["missing".to_string()]);
    let plan = baker.perform(&sample_recipe())?;
    assert_eq!(plan, vec![Instruction::with_action("first", "echo 1")]);
    Ok(())
}

#[test]
fn test_perform_on_empty_recipe_fails() {
    let baker = Baker::new(None, false, Vec::new());
    assert_eq!(baker.perform(&Recipe::blank()), Err(Error::UnstructedRecipe));
}

#[test]
fn test_baker_keeps_its_configuration() {
    let baker = Baker::new(Some("/work".to_string()), true, vec!["a".to_string()]);
    assert_eq!(baker.working_directory(), Some("/work".to_string()));
    assert!(baker.safe_output());
    assert_eq!(baker.requested_labels(), vec!["a".to_string()]);
}

#[test]
fn test_cli_carries_the_run_configuration() {
    let cli = Cli {
        bakefile: "Bakefile".to_string(),
        cwd: None,
        safe: false,
        instructions: vec!["all".to_string()],
    };
    assert_eq!(cli.bakefile, "Bakefile");
    assert_eq!(cli.cwd, None);
    assert!(!cli.safe);
    assert_eq!(cli.instructions, vec!["all".to_string()]);
}
