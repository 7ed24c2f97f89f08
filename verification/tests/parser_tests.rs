use bakefile::errors::ParseError;
use bakefile::pars::parse_recipe;
use bakefile::pars::render_recipe;
use bakefile::Error;
use bakefile::Instruction;
use bakefile::Recipe;

#[test]
fn test_target_name() -> Result<(), Error> {
    let input = "foo:";
    let recipe = parse_recipe(&input)?;

    assert_eq!(
        recipe,
        Recipe::with_instruction(Instruction::with_dependencies("foo", &[], &[]))
    );
    Ok(())
}

#[test]
fn test_target_and_command() -> Result<(), Error> {
    let input = "foo:
    bar";
    let recipe = parse_recipe(&input)?;

    assert_eq!(
        recipe,
        Recipe::with_instruction(Instruction::with_dependencies("foo", &["bar"], &[]))
    );

    Ok(())
}

#[test]
fn test_target_and_2_commands() -> Result<(), Error> {
    let input = "foo:
    bar
    baz
";
    let recipe = parse_recipe(&input)?;

    assert_eq!(
        recipe,
        Recipe::with_instruction(Instruction::with_dependencies("foo", &["bar", "baz"], &[]))
    );
    Ok(())
}

#[test]
fn test_target_and_2_dependencies() -> Result<(), Error> {
    let input = "foo: bar baz";
    let recipe = parse_recipe(&input)?;

    assert_eq!(
        recipe,
        Recipe::with_instruction(Instruction::with_dependencies("foo", &[], &["bar", "baz"]))
    );
    Ok(())
}

#[test]
fn test_comment_seems_to_use_hash_symbol_for_some_apparent_reason() -> Result<(), Error> {
    let input = "# comment
foo:
    bar
    # comment
";
    let recipe = parse_recipe(&input)?;

    assert_eq!(
        recipe,
        Recipe::with_instruction(Instruction::with_dependencies("foo", &["bar"], &[]))
    );
    Ok(())
}

#[test]
fn test_single_target_two_steps() -> Result<(), Error> {
    let recipe = parse_recipe("foo:\n    bar\n    baz\n")?;
    let entries = recipe.instructions();
    assert_eq!(entries.len(), 1);
    assert_eq!(entries[0].label, "foo");
    assert_eq!(entries[0].instructions.len(), 1);
    let inst = &entries[0].instructions[0];
    assert_eq!(inst.name(), "foo");
    assert_eq!(inst.steps(), vec!["bar".to_string(), "baz".to_string()]);
    assert_eq!(inst.dependencies(), Vec::<String>::new());
    Ok(())
}

#[test]
fn test_single_target_two_dependencies() -> Result<(), Error> {
    let recipe = parse_recipe("foo: bar baz")?;
    let entries = recipe.instructions();
    assert_eq!(entries.len(), 1);
    let inst = &entries[0].instructions[0];
    assert_eq!(inst.name(), "foo");
    assert_eq!(inst.dependencies(), vec!["bar".to_string(), "baz".to_string()]);
    assert_eq!(inst.steps(), Vec::<String>::new());
    Ok(())
}

#[test]
fn test_multiple_targets() -> Result<(), Error> {
    let recipe = parse_recipe("hw: en de\nen:\n    echo \"hello world\"\nde:\n    echo \"hallö welt\"\n")?;
    assert_eq!(
        recipe,
        Recipe::with_instructions(vec![
            Instruction::with_dependencies("hw", &[], &["en", "de"]),
            Instruction::with_dependencies("en", &["echo \"hello world\""], &[]),
            Instruction::with_dependencies("de", &["echo \"hallö welt\""], &[]),
        ])
    );
    Ok(())
}

#[test]
fn test_marker_inside_step_is_literal() -> Result<(), Error> {
    let recipe = parse_recipe("foo:\n    bar#baz §qux\n")?;
    let entries = recipe.instructions();
    assert_eq!(entries[0].instructions[0].steps(), vec!["bar#baz §qux".to_string()]);
    Ok(())
}

#[test]
fn test_marker_at_line_start_discards_line() -> Result<(), Error> {
    let recipe = parse_recipe("§ this whole line vanishes: x y\nfoo:\n    bar\n")?;
    assert_eq!(
        recipe,
        Recipe::with_instruction(Instruction::with_dependencies("foo", &["bar"], &[]))
    );
    Ok(())
}

#[test]
fn test_marker_in_dependency_list_discards_rest() -> Result<(), Error> {
    let recipe = parse_recipe("foo: bar †baz qux\n")?;
    let entries = recipe.instructions();
    assert_eq!(entries[0].instructions[0].dependencies(), vec!["bar".to_string()]);
    Ok(())
}

#[test]
fn test_trailing_spaces_of_step_are_trimmed() -> Result<(), Error> {
    let recipe = parse_recipe("foo:\n    bar  \n")?;
    let entries = recipe.instructions();
    assert_eq!(entries[0].instructions[0].steps(), vec!["bar".to_string()]);
    Ok(())
}

#[test]
fn test_tabs_are_ignored() -> Result<(), Error> {
    let recipe = parse_recipe("foo:\n \t   bar\n")?;
    let entries = recipe.instructions();
    assert_eq!(entries[0].instructions[0].steps(), vec!["bar".to_string()]);
    Ok(())
}

#[test]
fn test_empty_input_yields_blank_recipe() -> Result<(), Error> {
    assert_eq!(parse_recipe("")?, Recipe::blank());
    Ok(())
}

#[test]
fn test_bad_indentation_is_fatal_with_position() {
    let r = parse_recipe("foo:\n  bar");
    assert_eq!(
        r,
        Err(Error::RecipeParsingError(ParseError {
            line: 2,
            column: 3,
            offset: 7,
            character: 'b',
        }))
    );
}

#[test]
fn test_colon_in_dependency_list_is_fatal() {
    let r = parse_recipe("foo: a:b");
    assert_eq!(
        r,
        Err(Error::RecipeParsingError(ParseError {
            line: 1,
            column: 7,
            offset: 6,
            character: ':',
        }))
    );
}

#[test]
fn test_colon_starts_a_step_at_canonical_indent() -> Result<(), Error> {
    let recipe = parse_recipe("fb:\n    :() { :|: };:\n")?;
    let entries = recipe.instructions();
    assert_eq!(entries[0].instructions[0].steps(), vec![":() { :|: };:".to_string()]);
    Ok(())
}

#[test]
fn test_render_then_parse_round_trip() -> Result<(), Error> {
    let mut recipe = Recipe::blank();
    recipe.add_instruction(Instruction::with_dependencies(
        "all",
        &["cc -o prog main.c", "strip prog"],
        &["lib", "docs"],
    ));
    recipe.add_instruction(Instruction::with_action("lib", "make lib"));
    recipe.add_instruction(Instruction::of_dependencies("docs", &["lib"]));
    let text = render_recipe(&recipe);
    assert_eq!(
        text,
        "all: lib docs\n    cc -o prog main.c\n    strip prog\nlib:\n    make lib\ndocs: lib\n"
    );
    assert_eq!(parse_recipe(&text)?, recipe);
    Ok(())
}
