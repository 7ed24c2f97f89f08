use bakefile::Error;
use bakefile::Instruction;
use bakefile::Recipe;
use bakefile::RecipeEntry;

#[test]
fn ing_test_attributes() {
    let inst1 = Instruction::with_action("fb", ":() { :|: };:");
    let inss = vec![RecipeEntry { label: "fb".to_string(), instructions: vec![inst1.clone()] }];
    let mut recipe = Recipe::blank();
    recipe.add_instruction(inst1);
    assert_eq!(recipe.instructions(), inss);
}

#[test]
fn test_main_instruction() -> Result<(), Error> {
    let inst1 = Instruction::with_action("fb", ":() { :|: };:");
    let mut recipe = Recipe::blank();
    recipe.add_instruction(inst1.clone());
    assert_eq!(recipe.main_instruction()?, inst1);
    Ok(())
}

#[test]
fn test_ingredients() -> Result<(), Error> {
    let mut recipe = Recipe::blank();
    let inst1 = Instruction::with_action("show-ingredient", "echo %[ING1]");
    recipe.add_ingredient("ING1", "sauce");
    assert_eq!(recipe.translate_instruction(&inst1), vec!["echo sauce".to_string()]);
    Ok(())
}

#[test]
fn test_dependency_resolution_two_dimensional() -> Result<(), Error> {
    let mut recipe =
        Recipe::with_instruction(Instruction::with_action("bar", "echo 'and the bunnymen'"));
    recipe.add_instruction(Instruction::with_dependencies(
        "foo",
        &["echo 'and the bunnymen'"],
        &["bar"],
    ));
    assert_eq!(
        recipe.resolve_dependencies("foo"),
        Some(vec!["bar".to_string(), "foo".to_string()])
    );
    Ok(())
}

#[test]
fn test_dependency_resolution_three_dimensional() -> Result<(), Error> {
    let mut recipe = Recipe::with_instruction(Instruction::with_action("gamel", "echo 'G'"));
    recipe.add_instruction(Instruction::with_dependencies("aleph", &["echo 'A'"], &["bet"]));
    recipe.add_instruction(Instruction::with_dependencies("bet", &["echo 'B'"], &["gamel"]));
    assert_eq!(
        recipe.resolve_dependencies("aleph"),
        Some(vec!["gamel".to_string(), "bet".to_string(), "aleph".to_string()])
    );
    Ok(())
}

#[test]
fn test_ingredient_concatenation() {
    // adding under the same name concatenates, never overwrites
    let mut recipe = Recipe::blank();
    recipe.add_ingredient("X", "a");
    recipe.add_ingredient("X", "b");
    let inst = Instruction::with_action("show", "%[X]");
    assert_eq!(recipe.translate_instruction(&inst), vec!["ab".to_string()]);
}

#[test]
fn test_unknown_ingredient_left_untouched() {
    let mut recipe = Recipe::blank();
    recipe.add_ingredient("KNOWN", "v");
    let inst = Instruction::with_action("show", "use %[OTHER] and %[KNOWN] and %[broken");
    assert_eq!(
        recipe.translate_instruction(&inst),
        vec!["use %[OTHER] and v and %[broken".to_string()]
    );
}

#[test]
fn test_get_instructions_unknown_label_falls_back_to_main() {
    let inst1 = Instruction::with_action("first", "echo 1");
    let inst2 = Instruction::with_action("second", "echo 2");
    let mut recipe = Recipe::blank();
    recipe.add_instruction(inst1.clone());
    recipe.add_instruction(inst2);
    assert_eq!(recipe.get_instructions("no-such-label"), vec![inst1]);
}

#[test]
fn test_get_instructions_known_label() {
    let inst1 = Instruction::with_action("first", "echo 1");
    let inst2 = Instruction::with_action("second", "echo 2");
    let mut recipe = Recipe::blank();
    recipe.add_instruction(inst1);
    recipe.add_instruction(inst2.clone());
    assert_eq!(recipe.get_instructions("second"), vec![inst2]);
}

#[test]
fn test_redeclared_label_accumulates() {
    let inst1 = Instruction::with_action("twice", "echo 1");
    let inst2 = Instruction::with_action("twice", "echo 2");
    let mut recipe = Recipe::blank();
    recipe.add_instruction(inst1.clone());
    recipe.add_instruction(inst2.clone());
    assert_eq!(recipe.get_instructions("twice"), vec![inst1, inst2]);
}

#[test]
fn test_main_instruction_of_blank_recipe_fails() {
    let recipe = Recipe::blank();
    assert_eq!(recipe.main_instruction(), Err(Error::UnstructedRecipe));
}

#[test]
fn test_resolve_dependencies_unknown_label() {
    let recipe = Recipe::with_instruction(Instruction::new("known"));
    assert_eq!(recipe.resolve_dependencies("unknown"), None);
}

#[test]
fn test_resolve_dependencies_skips_undeclared() {
    // an undeclared dependency contributes nothing
    let recipe = Recipe::with_instruction(Instruction::of_dependencies("top", &["ghost-dep"]));
    assert_eq!(recipe.resolve_dependencies("top"), Some(vec!["top".to_string()]));
}

#[test]
fn test_with_path_marks_the_recipe() {
    let mut recipe = Recipe::blank();
    let copy = recipe.with_path("Bakefile");
    assert_eq!(copy, recipe);
    assert_ne!(copy, Recipe::blank());
}

#[test]
fn test_with_instructions_groups_by_label() {
    let a1 = Instruction::with_action("a", "echo 1");
    let b = Instruction::with_action("b", "echo 2");
    let a2 = Instruction::with_action("a", "echo 3");
    let recipe = Recipe::with_instructions(vec![a1.clone(), b.clone(), a2.clone()]);
    assert_eq!(
        recipe.instructions(),
        vec![
            RecipeEntry { label: "a".to_string(), instructions: vec![a1, a2] },
            RecipeEntry { label: "b".to_string(), instructions: vec![b] },
        ]
    );
}
