//! The data model: an [`Instruction`] is a labeled, ordered list of shell
//! steps plus an ordered list of dependency labels; a [`Recipe`] is an
//! insertion-ordered collection of instructions grouped by label, together
//! with an ingredient table for `%[NAME]` text substitution.

use vstd::prelude::*;

use crate::errors::Error;
use crate::text::clone_strings;
use crate::text::copy_strs;
use crate::text::eq_strings;
use crate::text::str_eq;

verus! {

/// The mathematical image of an [`Instruction`]: its label, steps and
/// dependency labels as character sequences.
pub ghost struct InstructionView {
    pub label: Seq<char>,
    pub actions: Seq<Seq<char>>,
    pub deps: Seq<Seq<char>>,
}

/// An atomic named unit of work: a label, an ordered list of shell-command
/// steps ("actions"), and an ordered list of dependency labels.  Dependency
/// labels are plain strings resolved by lookup at use time, never direct
/// references.
#[derive(Debug)]
pub struct Instruction {
    label: String,
    actions: Vec<String>,
    deps: Vec<String>,
}

impl View for Instruction {
    type V = InstructionView;

    closed spec fn view(&self) -> InstructionView {
        InstructionView {
            label: self.label@,
            actions: self.actions.deep_view(),
            deps: self.deps.deep_view(),
        }
    }
}

impl DeepView for Instruction {
    type V = InstructionView;

    open spec fn deep_view(&self) -> InstructionView {
        self.view()
    }
}

/// The steps of an instruction joined by single newlines.
pub open spec fn join_lines(actions: Seq<Seq<char>>) -> Seq<char>
    decreases actions.len(),
{
    if actions.len() == 0 {
        Seq::empty()
    } else if actions.len() == 1 {
        actions[0]
    } else {
        actions[0] + seq!['\n'] + join_lines(actions.skip(1))
    }
}

/// Appending one more line extends the join by a newline and that line.
pub proof fn lemma_join_lines_push(actions: Seq<Seq<char>>, a: Seq<char>)
    ensures
        join_lines(actions.push(a)) == if actions.len() == 0 {
            a
        } else {
            join_lines(actions) + seq!['\n'] + a
        },
    decreases actions.len(),
{
    let p = actions.push(a);
    if actions.len() == 0 {
        assert(p.len() == 1);
        assert(p[0] == a);
        assert(join_lines(p) == a);
    } else {
        assert(p.skip(1) =~= actions.skip(1).push(a));
        lemma_join_lines_push(actions.skip(1), a);
        if actions.len() == 1 {
            assert(actions.skip(1).len() == 0);
            assert(join_lines(p) == p[0] + seq!['\n'] + join_lines(p.skip(1)));
            assert(p[0] == actions[0]);
            assert(join_lines(p.skip(1)) == a);
            assert(join_lines(actions) == actions[0]);
        } else {
            assert(join_lines(p) == p[0] + seq!['\n'] + join_lines(p.skip(1)));
            assert(join_lines(actions) == actions[0] + seq!['\n'] + join_lines(actions.skip(1)));
            assert(actions[0] + seq!['\n'] + (join_lines(actions.skip(1)) + seq!['\n'] + a) =~= (
            actions[0] + seq!['\n'] + join_lines(actions.skip(1))) + seq!['\n'] + a);
        }
    }
}

impl Instruction {
    /// Replaces the label.
    pub fn set_label(&mut self, label: &str)
        ensures
            final(self)@ == (InstructionView { label: label@, ..old(self)@ }),
    {
        self.label = label.to_owned();
    }

    /// The label.
    pub fn name(&self) -> (r: String)
        ensures
            r@ == self@.label,
    {
        self.label.clone()
    }

    /// Appends every given step, in order.
    pub fn set_action(&mut self, actions: &[&str])
        ensures
            final(self)@ == (InstructionView {
                actions: old(self)@.actions + actions.deep_view(),
                ..old(self)@
            }),
    {
        let mut more = copy_strs(actions);
        self.actions.append(&mut more);
        proof {
            assert(self.actions.deep_view() =~= old(self)@.actions + actions.deep_view());
        }
    }

    /// Appends one step.
    pub fn add_action(&mut self, action: &str)
        ensures
            final(self)@ == (InstructionView {
                actions: old(self)@.actions.push(action@),
                ..old(self)@
            }),
    {
        self.actions.push(action.to_owned());
        proof {
            assert(self.actions.deep_view() =~= old(self)@.actions.push(action@));
        }
    }

    /// All steps joined by newlines into one command text.
    pub fn command(&self) -> (r: String)
        ensures
            r@ == join_lines(self@.actions),
    {
        let mut r = String::new();
        let n = self.actions.len();
        let mut i: usize = 0;
        while i < n
            invariant
                i <= n,
                n == self.actions@.len(),
                r@ == join_lines(self@.actions.take(i as int)),
            decreases n - i,
        {
            if i > 0 {
                r.push('\n');
            }
            r.append(self.actions[i].as_str());
            proof {
                let prefix = self@.actions.take(i as int);
                assert(self@.actions.take(i + 1) =~= prefix.push(self@.actions[i as int]));
                lemma_join_lines_push(prefix, self@.actions[i as int]);
            }
            i = i + 1;
        }
        proof {
            assert(self@.actions.take(n as int) =~= self@.actions);
        }
        r
    }

    /// A copy of the ordered step list.
    pub fn steps(&self) -> (r: Vec<String>)
        ensures
            r.deep_view() == self@.actions,
    {
        clone_strings(&self.actions)
    }

    /// An instruction with the given label, steps and dependency labels.
    pub fn with_dependencies(name: &str, actions: &[&str], dependencies: &[&str]) -> (r:
        Instruction)
        ensures
            r@ == (InstructionView {
                label: name@,
                actions: actions.deep_view(),
                deps: dependencies.deep_view(),
            }),
    {
        Instruction {
            label: name.to_owned(),
            actions: copy_strs(actions),
            deps: copy_strs(dependencies),
        }
    }

    /// An instruction with the given label and dependency labels, no steps.
    pub fn of_dependencies(name: &str, dependencies: &[&str]) -> (r: Instruction)
        ensures
            r@ == (InstructionView {
                label: name@,
                actions: Seq::empty(),
                deps: dependencies.deep_view(),
            }),
    {
        let r = Instruction {
            label: name.to_owned(),
            actions: Vec::new(),
            deps: copy_strs(dependencies),
        };
        proof {
            assert(r@.actions =~= Seq::<Seq<char>>::empty());
        }
        r
    }

    /// An instruction with the given label, no steps, no dependencies.
    pub fn new(name: &str) -> (r: Instruction)
        ensures
            r@ == (InstructionView {
                label: name@,
                actions: Seq::empty(),
                deps: Seq::empty(),
            }),
    {
        let r = Instruction { label: name.to_owned(), actions: Vec::new(), deps: Vec::new() };
        proof {
            assert(r@.actions =~= Seq::<Seq<char>>::empty());
            assert(r@.deps =~= Seq::<Seq<char>>::empty());
        }
        r
    }

    /// An instruction with the given label and a single step.
    pub fn with_action(name: &str, action: &str) -> (r: Instruction)
        ensures
            r@ == (InstructionView {
                label: name@,
                actions: seq![action@],
                deps: Seq::empty(),
            }),
    {
        let mut actions: Vec<String> = Vec::new();
        actions.push(action.to_owned());
        let r = Instruction { label: name.to_owned(), actions, deps: Vec::new() };
        proof {
            assert(r@.actions =~= seq![action@]);
            assert(r@.deps =~= Seq::<Seq<char>>::empty());
        }
        r
    }

    /// A copy of the ordered dependency-label list.
    pub fn dependencies(&self) -> (r: Vec<String>)
        ensures
            r.deep_view() == self@.deps,
    {
        clone_strings(&self.deps)
    }

    /// Appends one dependency label.
    pub fn add_dependency(&mut self, dependency_name: &str)
        ensures
            final(self)@ == (InstructionView {
                deps: old(self)@.deps.push(dependency_name@),
                ..old(self)@
            }),
    {
        self.deps.push(dependency_name.to_owned());
        proof {
            assert(self.deps.deep_view() =~= old(self)@.deps.push(dependency_name@));
        }
    }
}

impl Clone for Instruction {
    /// A field-for-field copy.
    fn clone(&self) -> (r: Self)
        ensures
            r@ == self@,
    {
        Instruction {
            label: self.label.clone(),
            actions: clone_strings(&self.actions),
            deps: clone_strings(&self.deps),
        }
    }
}

impl PartialEq for Instruction {
    fn eq(&self, other: &Self) -> (r: bool) {
        self.label == other.label && eq_strings(&self.actions, &other.actions) && eq_strings(
            &self.deps,
            &other.deps,
        )
    }
}

impl vstd::std_specs::cmp::PartialEqSpecImpl for Instruction {
    open spec fn obeys_eq_spec() -> bool {
        true
    }

    open spec fn eq_spec(&self, other: &Self) -> bool {
        self@ == other@
    }
}


/// The mathematical image of a [`RecipeEntry`].
pub ghost struct EntryView {
    pub label: Seq<char>,
    pub instructions: Seq<InstructionView>,
}

/// The mathematical image of an ingredient: a substitution variable's name
/// and its accumulated text.
pub ghost struct IngredientView {
    pub name: Seq<char>,
    pub value: Seq<char>,
}

/// The mathematical image of a [`Recipe`]: an optional source path, the
/// label-grouped instruction lists in insertion order, and the ingredient
/// table in insertion order.
pub ghost struct RecipeView {
    pub path: Option<Seq<char>>,
    pub entries: Seq<EntryView>,
    pub ings: Seq<IngredientView>,
}

/// One label of a recipe together with every instruction declared under it,
/// in declaration order.
#[derive(Debug)]
pub struct RecipeEntry {
    pub label: String,
    pub instructions: Vec<Instruction>,
}

impl View for RecipeEntry {
    type V = EntryView;

    open spec fn view(&self) -> EntryView {
        EntryView { label: self.label@, instructions: self.instructions.deep_view() }
    }
}

impl DeepView for RecipeEntry {
    type V = EntryView;

    open spec fn deep_view(&self) -> EntryView {
        self.view()
    }
}

/// A named text-substitution variable and its accumulated text.
#[derive(Debug)]
pub struct Ingredient {
    pub name: String,
    pub value: String,
}

impl View for Ingredient {
    type V = IngredientView;

    open spec fn view(&self) -> IngredientView {
        IngredientView { name: self.name@, value: self.value@ }
    }
}

impl DeepView for Ingredient {
    type V = IngredientView;

    open spec fn deep_view(&self) -> IngredientView {
        self.view()
    }
}

/// The position of the entry declaring `label`, or -1 when no entry does.
pub open spec fn decl_index_of(entries: Seq<EntryView>, label: Seq<char>) -> int
    decreases entries.len(),
{
    if entries.len() == 0 {
        -1
    } else if entries[0].label == label {
        0
    } else {
        let r = decl_index_of(entries.skip(1), label);
        if r < 0 {
            -1
        } else {
            r + 1
        }
    }
}

/// What [`decl_index_of`] returns: the first entry with the label, or -1
/// when the label occurs in no entry.
pub proof fn lemma_decl_index_of(entries: Seq<EntryView>, label: Seq<char>)
    ensures
        decl_index_of(entries, label) >= -1,
        decl_index_of(entries, label) >= 0 ==> decl_index_of(entries, label) < entries.len()
            && entries[decl_index_of(entries, label)].label == label,
        decl_index_of(entries, label) >= 0 ==> forall|j: int|
            0 <= j < decl_index_of(entries, label) ==> (#[trigger] entries[j]).label != label,
        decl_index_of(entries, label) < 0 ==> forall|j: int|
            0 <= j < entries.len() ==> (#[trigger] entries[j]).label != label,
    decreases entries.len(),
{
    if entries.len() == 0 {
    } else if entries[0].label == label {
    } else {
        lemma_decl_index_of(entries.skip(1), label);
        assert(forall|j: int|
            1 <= j < entries.len() ==> #[trigger] entries[j] == entries.skip(1)[j - 1]);
    }
}

/// If `entries[j]` is the first entry with the label, [`decl_index_of`]
/// returns `j`.
pub proof fn lemma_decl_index_of_first(entries: Seq<EntryView>, label: Seq<char>, j: int)
    requires
        0 <= j < entries.len(),
        entries[j].label == label,
        forall|k: int| 0 <= k < j ==> (#[trigger] entries[k]).label != label,
    ensures
        decl_index_of(entries, label) == j,
{
    lemma_decl_index_of(entries, label);
    let idx = decl_index_of(entries, label);
    if idx < 0 {
        assert(entries[j].label != label);
    } else {
        if idx < j {
            assert(entries[idx].label != label);
        }
        if j < idx {
            assert(entries[j].label != label);
        }
    }
}

/// The position of the ingredient named `name`, or -1 when none is.
pub open spec fn ing_index_of(ings: Seq<IngredientView>, name: Seq<char>) -> int
    decreases ings.len(),
{
    if ings.len() == 0 {
        -1
    } else if ings[0].name == name {
        0
    } else {
        let r = ing_index_of(ings.skip(1), name);
        if r < 0 {
            -1
        } else {
            r + 1
        }
    }
}

/// What [`ing_index_of`] returns: the first ingredient with the name, or -1
/// when no ingredient has it.
pub proof fn lemma_ing_index_of(ings: Seq<IngredientView>, name: Seq<char>)
    ensures
        ing_index_of(ings, name) >= -1,
        ing_index_of(ings, name) >= 0 ==> ing_index_of(ings, name) < ings.len()
            && ings[ing_index_of(ings, name)].name == name,
        ing_index_of(ings, name) >= 0 ==> forall|j: int|
            0 <= j < ing_index_of(ings, name) ==> (#[trigger] ings[j]).name != name,
        ing_index_of(ings, name) < 0 ==> forall|j: int|
            0 <= j < ings.len() ==> (#[trigger] ings[j]).name != name,
    decreases ings.len(),
{
    if ings.len() == 0 {
    } else if ings[0].name == name {
    } else {
        lemma_ing_index_of(ings.skip(1), name);
        assert(forall|j: int| 1 <= j < ings.len() ==> #[trigger] ings[j] == ings.skip(1)[j - 1]);
    }
}

/// If `ings[j]` is the first ingredient with the name, [`ing_index_of`]
/// returns `j`.
pub proof fn lemma_ing_index_of_first(ings: Seq<IngredientView>, name: Seq<char>, j: int)
    requires
        0 <= j < ings.len(),
        ings[j].name == name,
        forall|k: int| 0 <= k < j ==> (#[trigger] ings[k]).name != name,
    ensures
        ing_index_of(ings, name) == j,
{
    lemma_ing_index_of(ings, name);
    let idx = ing_index_of(ings, name);
    if idx < 0 {
        assert(ings[j].name != name);
    } else {
        if idx < j {
            assert(ings[idx].name != name);
        }
        if j < idx {
            assert(ings[j].name != name);
        }
    }
}

impl RecipeView {
    /// The structural invariant of a recipe: labels are unique, every entry
    /// holds at least one instruction, every instruction sits under its own
    /// label, and ingredient names are unique.
    pub open spec fn wf(&self) -> bool {
        &&& forall|i: int, j: int|
            #![trigger self.entries[i], self.entries[j]]
            0 <= i < j < self.entries.len() ==> self.entries[i].label != self.entries[j].label
        &&& forall|i: int|
            0 <= i < self.entries.len() ==> (#[trigger] self.entries[i]).instructions.len() > 0
        &&& forall|i: int, k: int|
            #![trigger self.entries[i].instructions[k]]
            0 <= i < self.entries.len() && 0 <= k < self.entries[i].instructions.len()
                ==> self.entries[i].instructions[k].label == self.entries[i].label
        &&& forall|i: int, j: int|
            #![trigger self.ings[i], self.ings[j]]
            0 <= i < j < self.ings.len() ==> self.ings[i].name != self.ings[j].name
    }

    /// Whether some entry declares `label`.
    pub open spec fn declared(&self, label: Seq<char>) -> bool {
        decl_index_of(self.entries, label) >= 0
    }

    /// The instruction list declared under `label`.
    pub open spec fn lookup(&self, label: Seq<char>) -> Seq<InstructionView> {
        self.entries[decl_index_of(self.entries, label)].instructions
    }

    /// The first instruction of the first declared label.
    pub open spec fn main_inst(&self) -> InstructionView {
        self.entries[0].instructions[0]
    }
}

/// The recipe with no instructions, no ingredients and no source path.
pub open spec fn blank_recipe_view() -> RecipeView {
    RecipeView { path: None, entries: Seq::empty(), ings: Seq::empty() }
}

/// `r` after registering one instruction: appended to its label's entry when
/// the label is declared, and opening a new entry at the end otherwise.
pub open spec fn add_instruction_view(r: RecipeView, i: InstructionView) -> RecipeView {
    let idx = decl_index_of(r.entries, i.label);
    if idx >= 0 {
        RecipeView {
            entries: r.entries.update(
                idx,
                EntryView {
                    label: r.entries[idx].label,
                    instructions: r.entries[idx].instructions.push(i),
                },
            ),
            ..r
        }
    } else {
        RecipeView {
            entries: r.entries.push(EntryView { label: i.label, instructions: seq![i] }),
            ..r
        }
    }
}

/// `r` after folding in a list of instructions, first to last.
pub open spec fn fold_instructions(r: RecipeView, insts: Seq<InstructionView>) -> RecipeView
    decreases insts.len(),
{
    if insts.len() == 0 {
        r
    } else {
        fold_instructions(add_instruction_view(r, insts[0]), insts.skip(1))
    }
}

/// Folding one more instruction applies [`add_instruction_view`] last.
pub proof fn lemma_fold_instructions_push(r: RecipeView, insts: Seq<InstructionView>, i: InstructionView)
    ensures
        fold_instructions(r, insts.push(i)) == add_instruction_view(fold_instructions(r, insts), i),
    decreases insts.len(),
{
    let p = insts.push(i);
    assert(p.len() == insts.len() + 1);
    if insts.len() == 0 {
        assert(p[0] == i);
        assert(p.skip(1) =~= Seq::<InstructionView>::empty());
        assert(fold_instructions(r, p) == fold_instructions(add_instruction_view(r, i), p.skip(1)));
    } else {
        assert(p[0] == insts[0]);
        assert(p.skip(1) =~= insts.skip(1).push(i));
        lemma_fold_instructions_push(add_instruction_view(r, insts[0]), insts.skip(1), i);
    }
}

/// Registering an instruction keeps a recipe well-formed.
pub proof fn lemma_add_instruction_view_wf(r: RecipeView, i: InstructionView)
    requires
        r.wf(),
    ensures
        add_instruction_view(r, i).wf(),
{
    lemma_decl_index_of(r.entries, i.label);
    let idx = decl_index_of(r.entries, i.label);
    let r2 = add_instruction_view(r, i);
    if idx >= 0 {
        assert(forall|j: int|
            0 <= j < r2.entries.len() && j != idx ==> #[trigger] r2.entries[j] == r.entries[j]);
        assert(r2.entries[idx].label == r.entries[idx].label);
        assert(r.entries[idx].label == i.label);
        assert(forall|j: int, k: int|
            #![trigger r2.entries[j].instructions[k]]
            0 <= j < r2.entries.len() && 0 <= k < r2.entries[j].instructions.len()
                ==> r2.entries[j].instructions[k].label == r2.entries[j].label) by {
            assert(forall|k: int|
                0 <= k < r.entries[idx].instructions.len()
                    ==> (#[trigger] r2.entries[idx].instructions[k]) == r.entries[
                idx].instructions[k]);
        }
    } else {
        assert(forall|j: int|
            0 <= j < r.entries.len() ==> #[trigger] r2.entries[j] == r.entries[j]);
        assert(forall|j: int|
            0 <= j < r.entries.len() ==> (#[trigger] r.entries[j]).label != i.label);
    }
}

/// An insertion-ordered collection of labeled instructions, plus an
/// ingredient table for `%[NAME]` substitution and an optional display path.
///
/// A label declared twice keeps both instructions, in order, under one
/// entry; the entry order records which label came first.  The main
/// instruction is the first instruction of the first entry.
#[derive(Debug)]
pub struct Recipe {
    path: Option<String>,
    entries: Vec<RecipeEntry>,
    ings: Vec<Ingredient>,
}

impl View for Recipe {
    type V = RecipeView;

    closed spec fn view(&self) -> RecipeView {
        RecipeView {
            path: self.path.deep_view(),
            entries: self.entries.deep_view(),
            ings: self.ings.deep_view(),
        }
    }
}

impl Recipe {
    /// The empty recipe.
    pub fn blank() -> (r: Recipe)
        ensures
            r@ == blank_recipe_view(),
            r@.wf(),
    {
        let r = Recipe { path: None, entries: Vec::new(), ings: Vec::new() };
        proof {
            assert(r@.entries =~= Seq::<EntryView>::empty());
            assert(r@.ings =~= Seq::<IngredientView>::empty());
        }
        r
    }

    /// Sets the display path.
    pub fn with_path(&mut self, path: &str) -> (r: Recipe)
        ensures
            final(self)@ == (RecipeView { path: Some(path@), ..old(self)@ }),
            r@ == final(self)@,
    {
        self.path = Some(path.to_owned());
        self.clone()
    }

    /// The recipe holding exactly the given instruction.
    pub fn with_instruction(instruction: Instruction) -> (r: Recipe)
        ensures
            r@ == add_instruction_view(blank_recipe_view(), instruction@),
            r@.wf(),
    {
        let mut recipe = Self::blank();
        recipe.add_instruction(instruction);
        recipe
    }

    /// The recipe built by registering the given instructions in order.
    pub fn with_instructions(instructions: Vec<Instruction>) -> (r: Recipe)
        ensures
            r@ == fold_instructions(blank_recipe_view(), instructions.deep_view()),
            r@.wf(),
    {
        let ghost all = instructions.deep_view();
        let mut recipe = Self::blank();
        let n = instructions.len();
        let mut i: usize = 0;
        proof {
            assert(all.take(0) =~= Seq::<InstructionView>::empty());
        }
        let mut rest = instructions;
        let mut taken: usize = 0;
        while taken < n
            invariant
                taken <= n,
                n == all.len(),
                rest@.len() == n - taken,
                forall|j: int| 0 <= j < rest@.len() ==> rest@[j].deep_view() == all[taken + j],
                recipe@ == fold_instructions(blank_recipe_view(), all.take(taken as int)),
                recipe@.wf(),
            decreases n - taken,
        {
            let inst = rest.remove(0);
            proof {
                assert(all.take(taken + 1) =~= all.take(taken as int).push(inst@));
                lemma_fold_instructions_push(blank_recipe_view(), all.take(taken as int), inst@);
            }
            recipe.add_instruction(inst);
            taken = taken + 1;
        }
        proof {
            assert(all.take(n as int) =~= all);
        }
        recipe
    }

    /// A copy of every entry, in insertion order.
    pub fn instructions(&self) -> (r: Vec<RecipeEntry>)
        ensures
            r.deep_view() == self@.entries,
    {
        let mut r: Vec<RecipeEntry> = Vec::new();
        let n = self.entries.len();
        let mut i: usize = 0;
        while i < n
            invariant
                i <= n,
                n == self.entries@.len(),
                r@.len() == i,
                forall|j: int| 0 <= j < i ==> r@[j].deep_view() == self@.entries[j],
            decreases n - i,
        {
            let e = &self.entries[i];
            r.push(RecipeEntry {
                label: e.label.clone(),
                instructions: clone_instructions(&e.instructions),
            });
            i = i + 1;
        }
        proof {
            assert(r.deep_view() =~= self@.entries);
        }
        r
    }

    /// The first instruction of the first declared label, or
    /// [`Error::UnstructedRecipe`] when the recipe declares nothing.
    pub fn main_instruction(&self) -> (r: Result<Instruction, Error>)
        requires
            self@.wf(),
        ensures
            self@.entries.len() == 0 ==> r == Err::<Instruction, Error>(Error::UnstructedRecipe),
            self@.entries.len() > 0 ==> (r matches Ok(i) && i@ == self@.main_inst()),
    {
        if self.entries.is_empty() {
            Err(Error::UnstructedRecipe)
        } else {
            let e = &self.entries[0];
            assert(self@.entries[0].instructions.len() > 0);
            Ok(e.instructions[0].clone())
        }
    }

    /// The instructions declared under `name`; an unknown label falls back
    /// to the main instruction alone.
    pub fn get_instructions(&self, name: &str) -> (r: Vec<Instruction>)
        requires
            self@.wf(),
            self@.declared(name@) || self@.entries.len() > 0,
        ensures
            self@.declared(name@) ==> r.deep_view() == self@.lookup(name@),
            !self@.declared(name@) ==> r.deep_view() == seq![self@.main_inst()],
    {
        proof {
            lemma_decl_index_of(self@.entries, name@);
        }
        let n = self.entries.len();
        let mut i: usize = 0;
        while i < n
            invariant
                i <= n,
                n == self.entries@.len(),
                self@.wf(),
                forall|j: int| 0 <= j < i ==> (#[trigger] self@.entries[j]).label != name@,
            decreases n - i,
        {
            if str_eq(self.entries[i].label.as_str(), name) {
                proof {
                    lemma_decl_index_of_first(self@.entries, name@, i as int);
                }
                return clone_instructions(&self.entries[i].instructions);
            }
            i = i + 1;
        }
        proof {
            if self@.declared(name@) {
                lemma_decl_index_of(self@.entries, name@);
                assert(self@.entries[decl_index_of(self@.entries, name@)].label == name@);
                assert(false);
            }
        }
        let m = self.entries[0].instructions[0].clone();
        let mut r: Vec<Instruction> = Vec::new();
        r.push(m);
        proof {
            assert(r.deep_view() =~= seq![self@.main_inst()]);
        }
        r
    }

    /// Registers an instruction: the label joins the entry list if new, and
    /// the instruction is appended to its label's list.
    pub fn add_instruction(&mut self, instruction: Instruction)
        requires
            old(self)@.wf(),
        ensures
            final(self)@ == add_instruction_view(old(self)@, instruction@),
            final(self)@.wf(),
    {
        proof {
            lemma_add_instruction_view_wf(old(self)@, instruction@);
        }
        let n = self.entries.len();
        let mut i: usize = 0;
        while i < n
            invariant
                i <= n,
                n == self.entries@.len(),
                *self == *old(self),
                old(self)@.wf(),
                forall|j: int|
                    0 <= j < i ==> (#[trigger] self@.entries[j]).label != instruction@.label,
            decreases n - i,
        {
            if str_eq(self.entries[i].label.as_str(), instruction.label.as_str()) {
                let ghost iv = instruction@;
                proof {
                    lemma_decl_index_of_first(self@.entries, iv.label, i as int);
                    lemma_add_instruction_view_wf(old(self)@, iv);
                }
                self.entries[i].instructions.push(instruction);
                proof {
                    let oe = old(self)@.entries;
                    assert(self.entries@ == old(self).entries@.update(
                        i as int,
                        self.entries@[i as int],
                    ));
                    assert(self.entries@[i as int].instructions@ == old(self).entries@[
                    i as int].instructions@.push(instruction));
                    assert(self.entries@[i as int].deep_view().instructions =~= oe[
                    i as int].instructions.push(iv));
                    assert(self.entries@[i as int].deep_view() == EntryView {
                        label: oe[i as int].label,
                        instructions: oe[i as int].instructions.push(iv),
                    });
                    assert(self@.entries =~= oe.update(
                        i as int,
                        EntryView {
                            label: oe[i as int].label,
                            instructions: oe[i as int].instructions.push(iv),
                        },
                    ));
                }
                return ;
            }
            i = i + 1;
        }
        let ghost iv = instruction@;
        proof {
            lemma_decl_index_of(self@.entries, iv.label);
            if decl_index_of(self@.entries, iv.label) >= 0 {
                assert(self@.entries[decl_index_of(self@.entries, iv.label)].label == iv.label);
                assert(false);
            }
        }
        let label = instruction.label.clone();
        let mut instructions: Vec<Instruction> = Vec::new();
        instructions.push(instruction);
        self.entries.push(RecipeEntry { label, instructions });
        proof {
            let last = self.entries@[self.entries@.len() - 1];
            assert(last.instructions@.len() == 1);
            assert(last.instructions.deep_view() =~= seq![iv]);
            assert(last.deep_view() == EntryView { label: iv.label, instructions: seq![iv] });
            assert(self@.entries =~= old(self)@.entries.push(
                EntryView { label: iv.label, instructions: seq![iv] },
            ));
        }
    }
}

/// Copies a vector of instructions element by element.
pub fn clone_instructions(v: &Vec<Instruction>) -> (r: Vec<Instruction>)
    ensures
        r.deep_view() == v.deep_view(),
{
    let mut r: Vec<Instruction> = Vec::new();
    let n = v.len();
    let mut i: usize = 0;
    while i < n
        invariant
            i <= n,
            n == v@.len(),
            r@.len() == i,
            forall|j: int| 0 <= j < i ==> r@[j].deep_view() == v@[j].deep_view(),
        decreases n - i,
    {
        r.push(v[i].clone());
        i = i + 1;
    }
    proof {
        assert(r.deep_view() =~= v.deep_view());
    }
    r
}


impl Clone for RecipeEntry {
    /// A field-for-field copy.
    fn clone(&self) -> (r: Self)
        ensures
            r@ == self@,
    {
        RecipeEntry {
            label: self.label.clone(),
            instructions: clone_instructions(&self.instructions),
        }
    }
}

impl Clone for Ingredient {
    /// A field-for-field copy.
    fn clone(&self) -> (r: Self)
        ensures
            r@ == self@,
    {
        Ingredient { name: self.name.clone(), value: self.value.clone() }
    }
}

/// Copies a vector of recipe entries element by element.
fn clone_entries(v: &Vec<RecipeEntry>) -> (r: Vec<RecipeEntry>)
    ensures
        r.deep_view() == v.deep_view(),
{
    let mut r: Vec<RecipeEntry> = Vec::new();
    let n = v.len();
    let mut i: usize = 0;
    while i < n
        invariant
            i <= n,
            n == v@.len(),
            r@.len() == i,
            forall|j: int| 0 <= j < i ==> r@[j].deep_view() == v@[j].deep_view(),
        decreases n - i,
    {
        r.push(v[i].clone());
        i = i + 1;
    }
    proof {
        assert(r.deep_view() =~= v.deep_view());
    }
    r
}

/// Copies a vector of ingredients element by element.
fn clone_ingredients(v: &Vec<Ingredient>) -> (r: Vec<Ingredient>)
    ensures
        r.deep_view() == v.deep_view(),
{
    let mut r: Vec<Ingredient> = Vec::new();
    let n = v.len();
    let mut i: usize = 0;
    while i < n
        invariant
            i <= n,
            n == v@.len(),
            r@.len() == i,
            forall|j: int| 0 <= j < i ==> r@[j].deep_view() == v@[j].deep_view(),
        decreases n - i,
    {
        r.push(v[i].clone());
        i = i + 1;
    }
    proof {
        assert(r.deep_view() =~= v.deep_view());
    }
    r
}

impl Clone for Recipe {
    /// A field-for-field copy.
    fn clone(&self) -> (r: Self)
        ensures
            r@ == self@,
    {
        let path = match &self.path {
            Some(p) => Some(p.clone()),
            None => None,
        };
        Recipe {
            path,
            entries: clone_entries(&self.entries),
            ings: clone_ingredients(&self.ings),
        }
    }
}

/// Whether two instruction vectors hold equal instructions, element by
/// element.
fn eq_instructions(a: &Vec<Instruction>, b: &Vec<Instruction>) -> (r: bool)
    ensures
        r == (a.deep_view() == b.deep_view()),
{
    let na = a.len();
    let nb = b.len();
    if na != nb {
        proof {
            assert(a.deep_view().len() == na);
            assert(b.deep_view().len() == nb);
        }
        return false;
    }
    let mut i: usize = 0;
    while i < na
        invariant
            i <= na,
            na == a@.len(),
            na == b@.len(),
            forall|j: int| 0 <= j < i ==> a@[j].deep_view() == b@[j].deep_view(),
        decreases na - i,
    {
        if !(a[i] == b[i]) {
            proof {
                assert(a.deep_view()[i as int] != b.deep_view()[i as int]);
            }
            return false;
        }
        i = i + 1;
    }
    proof {
        assert(a.deep_view() =~= b.deep_view());
    }
    true
}

impl PartialEq for RecipeEntry {
    fn eq(&self, other: &Self) -> (r: bool) {
        self.label == other.label && eq_instructions(&self.instructions, &other.instructions)
    }
}

impl vstd::std_specs::cmp::PartialEqSpecImpl for RecipeEntry {
    open spec fn obeys_eq_spec() -> bool {
        true
    }

    open spec fn eq_spec(&self, other: &Self) -> bool {
        self@ == other@
    }
}

impl PartialEq for Ingredient {
    fn eq(&self, other: &Self) -> (r: bool) {
        self.name == other.name && self.value == other.value
    }
}

impl vstd::std_specs::cmp::PartialEqSpecImpl for Ingredient {
    open spec fn obeys_eq_spec() -> bool {
        true
    }

    open spec fn eq_spec(&self, other: &Self) -> bool {
        self@ == other@
    }
}

/// Whether two entry vectors hold equal entries, element by element.
fn eq_entries(a: &Vec<RecipeEntry>, b: &Vec<RecipeEntry>) -> (r: bool)
    ensures
        r == (a.deep_view() == b.deep_view()),
{
    let na = a.len();
    let nb = b.len();
    if na != nb {
        proof {
            assert(a.deep_view().len() == na);
            assert(b.deep_view().len() == nb);
        }
        return false;
    }
    let mut i: usize = 0;
    while i < na
        invariant
            i <= na,
            na == a@.len(),
            na == b@.len(),
            forall|j: int| 0 <= j < i ==> a@[j].deep_view() == b@[j].deep_view(),
        decreases na - i,
    {
        if !(a[i] == b[i]) {
            proof {
                assert(a.deep_view()[i as int] != b.deep_view()[i as int]);
            }
            return false;
        }
        i = i + 1;
    }
    proof {
        assert(a.deep_view() =~= b.deep_view());
    }
    true
}

/// Whether two ingredient vectors hold equal ingredients, element by
/// element.
fn eq_ingredients(a: &Vec<Ingredient>, b: &Vec<Ingredient>) -> (r: bool)
    ensures
        r == (a.deep_view() == b.deep_view()),
{
    let na = a.len();
    let nb = b.len();
    if na != nb {
        proof {
            assert(a.deep_view().len() == na);
            assert(b.deep_view().len() == nb);
        }
        return false;
    }
    let mut i: usize = 0;
    while i < na
        invariant
            i <= na,
            na == a@.len(),
            na == b@.len(),
            forall|j: int| 0 <= j < i ==> a@[j].deep_view() == b@[j].deep_view(),
        decreases na - i,
    {
        if !(a[i] == b[i]) {
            proof {
                assert(a.deep_view()[i as int] != b.deep_view()[i as int]);
            }
            return false;
        }
        i = i + 1;
    }
    proof {
        assert(a.deep_view() =~= b.deep_view());
    }
    true
}

impl PartialEq for Recipe {
    fn eq(&self, other: &Self) -> (r: bool) {
        let path_eq = match (&self.path, &other.path) {
            (None, None) => true,
            (Some(a), Some(b)) => str_eq(a.as_str(), b.as_str()),
            _ => false,
        };
        proof {
            match (&self.path, &other.path) {
                (Some(a), Some(b)) => {
                    assert(self@.path == Some(a@));
                    assert(other@.path == Some(b@));
                },
                _ => {},
            }
            assert(path_eq == (self@.path == other@.path));
        }
        let r = path_eq && eq_entries(&self.entries, &other.entries) && eq_ingredients(
            &self.ings,
            &other.ings,
        );
        proof {
            if r {
                assert(self@ == other@);
            }
        }
        r
    }
}

impl vstd::std_specs::cmp::PartialEqSpecImpl for Recipe {
    open spec fn obeys_eq_spec() -> bool {
        true
    }

    open spec fn eq_spec(&self, other: &Self) -> bool {
        self@ == other@
    }
}


/// `r` after adding ingredient text: concatenated onto the existing value
/// when the name is present, and a new ingredient otherwise.
pub open spec fn add_ingredient_view(r: RecipeView, name: Seq<char>, value: Seq<char>) -> RecipeView {
    let idx = ing_index_of(r.ings, name);
    if idx >= 0 {
        RecipeView {
            ings: r.ings.update(
                idx,
                IngredientView { name: r.ings[idx].name, value: r.ings[idx].value + value },
            ),
            ..r
        }
    } else {
        RecipeView { ings: r.ings.push(IngredientView { name, value }), ..r }
    }
}

/// Adding ingredient text keeps a recipe well-formed.
pub proof fn lemma_add_ingredient_view_wf(r: RecipeView, name: Seq<char>, value: Seq<char>)
    requires
        r.wf(),
    ensures
        add_ingredient_view(r, name, value).wf(),
{
    lemma_ing_index_of(r.ings, name);
    let idx = ing_index_of(r.ings, name);
    let r2 = add_ingredient_view(r, name, value);
    if idx >= 0 {
        assert(forall|j: int|
            0 <= j < r2.ings.len() && j != idx ==> #[trigger] r2.ings[j] == r.ings[j]);
        assert(r2.ings[idx].name == r.ings[idx].name);
    } else {
        assert(forall|j: int| 0 <= j < r.ings.len() ==> #[trigger] r2.ings[j] == r.ings[j]);
        assert(forall|j: int| 0 <= j < r.ings.len() ==> (#[trigger] r.ings[j]).name != name);
    }
}

/// The accumulated text of the ingredient named `name`, if any is.
pub open spec fn ing_value_of(ings: Seq<IngredientView>, name: Seq<char>) -> Option<Seq<char>> {
    let idx = ing_index_of(ings, name);
    if idx >= 0 {
        Some(ings[idx].value)
    } else {
        None
    }
}

/// The position of the first `c` in `s`, or -1 when `s` holds none.
pub open spec fn find_char(s: Seq<char>, c: char) -> int
    decreases s.len(),
{
    if s.len() == 0 {
        -1
    } else if s[0] == c {
        0
    } else {
        let r = find_char(s.skip(1), c);
        if r < 0 {
            -1
        } else {
            r + 1
        }
    }
}

/// What [`find_char`] returns: the first occurrence, or -1 when none is.
pub proof fn lemma_find_char(s: Seq<char>, c: char)
    ensures
        find_char(s, c) >= -1,
        find_char(s, c) >= 0 ==> find_char(s, c) < s.len() && s[find_char(s, c)] == c,
        find_char(s, c) >= 0 ==> forall|j: int| 0 <= j < find_char(s, c) ==> s[j] != c,
        find_char(s, c) < 0 ==> forall|j: int| 0 <= j < s.len() ==> s[j] != c,
    decreases s.len(),
{
    if s.len() == 0 {
    } else if s[0] == c {
    } else {
        lemma_find_char(s.skip(1), c);
        assert(forall|j: int| 1 <= j < s.len() ==> s[j] == s.skip(1)[j - 1]);
    }
}

/// If `s[j]` is the first `c` in `s`, [`find_char`] returns `j`.
pub proof fn lemma_find_char_first(s: Seq<char>, c: char, j: int)
    requires
        0 <= j < s.len(),
        s[j] == c,
        forall|k: int| 0 <= k < j ==> s[k] != c,
    ensures
        find_char(s, c) == j,
{
    lemma_find_char(s, c);
    let idx = find_char(s, c);
    if idx < 0 {
        assert(s[j] != c);
    } else {
        if idx < j {
            assert(s[idx] != c);
        }
        if j < idx {
            assert(s[j] != c);
        }
    }
}

/// `s` with every `%[NAME]` token of a known ingredient replaced by that
/// ingredient's text.  A `%[` opens a token and the next `]` closes it; a
/// token naming no ingredient stays as written, and a `%[` with no closing
/// `]` is plain text.
pub open spec fn substitute(s: Seq<char>, ings: Seq<IngredientView>) -> Seq<char>
    decreases s.len(),
{
    if s.len() == 0 {
        s
    } else if s.len() >= 3 && s[0] == '%' && s[1] == '[' && 0 <= find_char(s.skip(2), ']')
        < s.len() - 2 {
        let j = find_char(s.skip(2), ']');
        let name = s.skip(2).take(j);
        let rest = s.skip(3 + j);
        match ing_value_of(ings, name) {
            Some(v) => v + substitute(rest, ings),
            None => s.take(3 + j) + substitute(rest, ings),
        }
    } else {
        seq![s[0]] + substitute(s.skip(1), ings)
    }
}

/// Replaces every known `%[NAME]` token in `s` by its ingredient's text.
fn substitute_text(s: &str, ings: &Vec<Ingredient>) -> (r: String)
    ensures
        r@ == substitute(s@, ings.deep_view()),
{
    let ghost ii = ings.deep_view();
    let n = s.unicode_len();
    let mut out = String::new();
    let mut i: usize = 0;
    proof {
        assert(s@.skip(0) =~= s@);
        assert(out@ + substitute(s@, ii) =~= substitute(s@, ii));
    }
    while i < n
        invariant
            i <= n,
            n == s@.len(),
            ii == ings.deep_view(),
            substitute(s@, ii) == out@ + substitute(s@.skip(i as int), ii),
        decreases n - i,
    {
        let ghost t = s@.skip(i as int);
        proof {
            assert(t.len() == n - i);
            assert(t[0] == s@[i as int]);
        }
        let c = s.get_char(i);
        let mut plain = true;
        if c == '%' && i + 1 < n && s.get_char(i + 1) == '[' {
            // look for the closing bracket
            let mut j = i + 2;
            while j < n && s.get_char(j) != ']'
                invariant
                    i + 2 <= j <= n,
                    n == s@.len(),
                    forall|m: int| i + 2 <= m < j ==> s@[m] != ']',
                decreases n - j,
            {
                j = j + 1;
            }
            if j < n {
                plain = false;
                proof {
                    assert(t.skip(2) =~= s@.subrange(i + 2, n as int));
                    assert(t.skip(2)[j - (i + 2)] == ']');
                    assert(forall|k: int|
                        0 <= k < j - (i + 2) ==> t.skip(2)[k] == s@[k + (i + 2)]);
                    lemma_find_char_first(t.skip(2), ']', j - (i + 2));
                    assert(t.len() >= 3);
                }
                let ghost jj = j - (i + 2);
                let name_str = s.substring_char(i + 2, j);
                proof {
                    assert(name_str@ =~= t.skip(2).take(jj as int));
                }
                // look the name up among the ingredients
                let m = ings.len();
                let mut k: usize = 0;
                let mut found = false;
                while k < m && !found
                    invariant
                        k <= m,
                        m == ings@.len(),
                        ii == ings.deep_view(),
                        name_str@ == t.skip(2).take(jj as int),
                        !found ==> forall|q: int|
                            0 <= q < k ==> (#[trigger] ii[q]).name != name_str@,
                        found ==> k < m && ii[k as int].name == name_str@ && forall|q: int|
                            0 <= q < k ==> (#[trigger] ii[q]).name != name_str@,
                    decreases m - k, (if found { 0int } else { 1int }),
                {
                    if str_eq(ings[k].name.as_str(), name_str) {
                        found = true;
                    } else {
                        k = k + 1;
                    }
                }
                if found {
                    proof {
                        lemma_ing_index_of_first(ii, name_str@, k as int);
                        assert(ing_value_of(ii, name_str@) == Some(ii[k as int].value));
                    }
                    out.append(ings[k].value.as_str());
                } else {
                    proof {
                        lemma_ing_index_of(ii, name_str@);
                        if ing_index_of(ii, name_str@) >= 0 {
                            assert(ii[ing_index_of(ii, name_str@)].name == name_str@);
                            assert(false);
                        }
                        assert(ing_value_of(ii, name_str@) is None);
                    }
                    let token = s.substring_char(i, j + 1);
                    proof {
                        assert(token@ =~= t.take(3 + jj as int));
                    }
                    out.append(token);
                }
                proof {
                    assert(t.skip(3 + jj as int) =~= s@.skip(j + 1));
                    assert(substitute(t, ii) == (match ing_value_of(ii, t.skip(2).take(jj as int)) {
                        Some(v) => v + substitute(t.skip(3 + jj as int), ii),
                        None => t.take(3 + jj as int) + substitute(t.skip(3 + jj as int), ii),
                    }));
                }
                i = j + 1;
            }
        }
        if plain {
            proof {
                if t.len() >= 3 && t[0] == '%' && t[1] == '[' && 0 <= find_char(t.skip(2), ']')
                    < t.len() - 2 {
                    lemma_find_char(t.skip(2), ']');
                    let f = find_char(t.skip(2), ']');
                    assert(t.skip(2)[f] == ']');
                    assert(t.skip(2) =~= s@.subrange(i + 2, n as int));
                    assert(s@[f + i + 2] == ']');
                    assert(false);
                }
                assert(substitute(t, ii) == seq![t[0]] + substitute(t.skip(1), ii));
                assert(t.skip(1) =~= s@.skip(i + 1));
            }
            out.push(c);
            i = i + 1;
        }
    }
    proof {
        assert(s@.skip(n as int) =~= Seq::<char>::empty());
        assert(substitute(Seq::<char>::empty(), ii) == Seq::<char>::empty());
        assert(out@ =~= out@ + Seq::<char>::empty());
    }
    out
}

/// The steps of `i` with every known `%[NAME]` token replaced, in order.
pub open spec fn translate_view(i: InstructionView, ings: Seq<IngredientView>) -> Seq<Seq<char>> {
    Seq::new(i.actions.len(), |k: int| substitute(i.actions[k], ings))
}

impl Recipe {
    /// Adds text to the ingredient named `name`: concatenated onto the
    /// existing value when the name is present, and a new ingredient
    /// otherwise.
    pub fn add_ingredient(&mut self, name: &str, substance: &str)
        requires
            old(self)@.wf(),
        ensures
            final(self)@ == add_ingredient_view(old(self)@, name@, substance@),
            final(self)@.wf(),
    {
        let n = self.ings.len();
        let mut i: usize = 0;
        while i < n
            invariant
                i <= n,
                n == self.ings@.len(),
                *self == *old(self),
                old(self)@.wf(),
                forall|j: int| 0 <= j < i ==> (#[trigger] self@.ings[j]).name != name@,
            decreases n - i,
        {
            if str_eq(self.ings[i].name.as_str(), name) {
                proof {
                    lemma_ing_index_of_first(self@.ings, name@, i as int);
                    lemma_add_ingredient_view_wf(old(self)@, name@, substance@);
                }
                self.ings[i].value.append(substance);
                proof {
                    let oi = old(self)@.ings;
                    assert(self.ings@ == old(self).ings@.update(i as int, self.ings@[i as int]));
                    assert(self.ings@[i as int].value@ == oi[i as int].value + substance@);
                    assert(self.ings@[i as int].deep_view() == IngredientView {
                        name: oi[i as int].name,
                        value: oi[i as int].value + substance@,
                    });
                    assert(self@.ings =~= oi.update(
                        i as int,
                        IngredientView {
                            name: oi[i as int].name,
                            value: oi[i as int].value + substance@,
                        },
                    ));
                }
                return ;
            }
            i = i + 1;
        }
        proof {
            lemma_ing_index_of(self@.ings, name@);
            if ing_index_of(self@.ings, name@) >= 0 {
                assert(self@.ings[ing_index_of(self@.ings, name@)].name == name@);
                assert(false);
            }
            lemma_add_ingredient_view_wf(old(self)@, name@, substance@);
        }
        self.ings.push(Ingredient { name: name.to_owned(), value: substance.to_owned() });
        proof {
            assert(self@.ings =~= old(self)@.ings.push(
                IngredientView { name: name@, value: substance@ },
            ));
        }
    }

    /// The steps of `instruction` with every known `%[NAME]` token replaced
    /// by its ingredient's text; tokens naming no ingredient stay as
    /// written.
    pub fn translate_instruction(&mut self, instruction: &Instruction) -> (r: Vec<String>)
        ensures
            *final(self) == *old(self),
            r.deep_view() == translate_view(instruction@, old(self)@.ings),
    {
        let mut r: Vec<String> = Vec::new();
        let n = instruction.actions.len();
        let mut i: usize = 0;
        while i < n
            invariant
                i <= n,
                n == instruction@.actions.len(),
                *self == *old(self),
                r@.len() == i,
                forall|j: int|
                    0 <= j < i ==> r@[j]@ == substitute(
                        instruction@.actions[j],
                        old(self)@.ings,
                    ),
            decreases n - i,
        {
            r.push(substitute_text(instruction.actions[i].as_str(), &self.ings));
            i = i + 1;
        }
        proof {
            assert(r.deep_view() =~= translate_view(instruction@, old(self)@.ings));
        }
        r
    }
}


/// Depth-first pre-order dependency expansion of one label, cut off at a
/// recursion depth of `fuel` labels: `None` when the label is undeclared or
/// the fuel is spent; otherwise, for each instruction under the label in
/// order, the expansions of its dependencies in order followed by the label
/// itself.  A dependency that expands to `None` contributes nothing.
pub open spec fn resolve_label(r: RecipeView, label: Seq<char>, fuel: nat) -> Option<
    Seq<Seq<char>>,
>
    decreases fuel, 0int, 0int,
{
    if fuel == 0 {
        None
    } else {
        let idx = decl_index_of(r.entries, label);
        if idx < 0 {
            None
        } else {
            Some(resolve_instructions(r, r.entries[idx].instructions, (fuel - 1) as nat, 0))
        }
    }
}

/// The expansions of `insts[k..]`: for each instruction, its dependencies'
/// expansions followed by its own label.
pub open spec fn resolve_instructions(
    r: RecipeView,
    insts: Seq<InstructionView>,
    fuel: nat,
    k: int,
) -> Seq<Seq<char>>
    decreases fuel, 2int, insts.len() - k,
{
    if k < 0 || k >= insts.len() {
        Seq::empty()
    } else {
        resolve_deps(r, insts[k].deps, fuel, 0) + seq![insts[k].label] + resolve_instructions(
            r,
            insts,
            fuel,
            k + 1,
        )
    }
}

/// The concatenated expansions of the dependency labels `deps[j..]`.
pub open spec fn resolve_deps(r: RecipeView, deps: Seq<Seq<char>>, fuel: nat, j: int) -> Seq<
    Seq<char>,
>
    decreases fuel, 1int, deps.len() - j,
{
    if j < 0 || j >= deps.len() {
        Seq::empty()
    } else {
        let first = match resolve_label(r, deps[j], fuel) {
            Some(s) => s,
            None => Seq::empty(),
        };
        first + resolve_deps(r, deps, fuel, j + 1)
    }
}

/// [`resolve_label`] with its depth cut at the number of declared labels,
/// which every acyclic recipe resolves within.
pub open spec fn resolve_all(r: RecipeView, label: Seq<char>) -> Option<Seq<Seq<char>>> {
    resolve_label(r, label, r.entries.len() as nat)
}

impl Recipe {
    /// The fuel-bounded expansion behind [`Recipe::resolve_dependencies`].
    fn resolve_rec(&self, instruction_label: &str, fuel: usize) -> (r: Option<Vec<String>>)
        ensures
            match resolve_label(self@, instruction_label@, fuel as nat) {
                None => r is None,
                Some(s) => r matches Some(v) && v.deep_view() == s,
            },
        decreases fuel,
    {
        if fuel == 0 {
            return None;
        }
        let ghost rv = self@;
        let ghost f = (fuel - 1) as nat;
        let n = self.entries.len();
        let mut idx: usize = 0;
        let mut found = false;
        while idx < n && !found
            invariant
                idx <= n,
                n == self.entries@.len(),
                rv == self@,
                !found ==> forall|j: int|
                    0 <= j < idx ==> (#[trigger] rv.entries[j]).label != instruction_label@,
                found ==> idx < n && rv.entries[idx as int].label == instruction_label@
                    && forall|j: int|
                    0 <= j < idx ==> (#[trigger] rv.entries[j]).label != instruction_label@,
            decreases n - idx, (if found { 0int } else { 1int }),
        {
            if str_eq(self.entries[idx].label.as_str(), instruction_label) {
                found = true;
            } else {
                idx = idx + 1;
            }
        }
        if !found {
            proof {
                lemma_decl_index_of(rv.entries, instruction_label@);
                if decl_index_of(rv.entries, instruction_label@) >= 0 {
                    assert(rv.entries[decl_index_of(rv.entries, instruction_label@)].label
                        == instruction_label@);
                    assert(false);
                }
            }
            return None;
        }
        proof {
            lemma_decl_index_of_first(rv.entries, instruction_label@, idx as int);
        }
        let ghost instsv = rv.entries[idx as int].instructions;
        let mut out: Vec<String> = Vec::new();
        let m = self.entries[idx].instructions.len();
        let mut k: usize = 0;
        proof {
            assert(self.entries@[idx as int].deep_view() == rv.entries[idx as int]);
            assert(m == instsv.len());
            assert(out.deep_view() =~= Seq::<Seq<char>>::empty());
            assert(Seq::<Seq<char>>::empty() + resolve_instructions(rv, instsv, f, 0)
                =~= resolve_instructions(rv, instsv, f, 0));
        }
        while k < m
            invariant
                k <= m,
                m == instsv.len(),
                rv == self@,
                idx < self.entries@.len(),
                instsv == rv.entries[idx as int].instructions,
                1 <= fuel,
                f == (fuel - 1) as nat,
                resolve_instructions(rv, instsv, f, 0) == out.deep_view()
                    + resolve_instructions(rv, instsv, f, k as int),
            decreases m - k,
        {
            let ghost depsv = instsv[k as int].deps;
            proof {
                assert(self.entries@[idx as int].deep_view() == rv.entries[idx as int]);
                assert(self.entries@[idx as int].instructions@[k as int].deep_view() == instsv[
                k as int]);
                assert(resolve_instructions(rv, instsv, f, k as int) == resolve_deps(
                    rv,
                    depsv,
                    f,
                    0,
                ) + seq![instsv[k as int].label] + resolve_instructions(rv, instsv, f, k + 1));
            }
            let dn = self.entries[idx].instructions[k].deps.len();
            let mut j: usize = 0;
            proof {
                let a = out.deep_view();
                assert(a + (resolve_deps(rv, depsv, f, 0) + seq![instsv[k as int].label]
                    + resolve_instructions(rv, instsv, f, k + 1)) =~= a + resolve_deps(
                    rv,
                    depsv,
                    f,
                    0,
                ) + seq![instsv[k as int].label] + resolve_instructions(rv, instsv, f, k + 1));
            }
            while j < dn
                invariant
                    j <= dn,
                    dn == depsv.len(),
                    rv == self@,
                    idx < self.entries@.len(),
                    instsv == rv.entries[idx as int].instructions,
                    k < instsv.len(),
                    depsv == instsv[k as int].deps,
                    1 <= fuel,
                    f == (fuel - 1) as nat,
                    resolve_instructions(rv, instsv, f, 0) == out.deep_view() + resolve_deps(
                        rv,
                        depsv,
                        f,
                        j as int,
                    ) + seq![instsv[k as int].label] + resolve_instructions(rv, instsv, f, k + 1),
                decreases dn - j,
            {
                proof {
                    assert(self.entries@[idx as int].deep_view() == rv.entries[idx as int]);
                    assert(self.entries@[idx as int].instructions@[k as int].deep_view() == instsv[
                    k as int]);
                    assert(self.entries@[idx as int].instructions@[k as int].deps@[j as int]@
                        == depsv[j as int]);
                }
                let dep = self.entries[idx].instructions[k].deps[j].clone();
                let sub = self.resolve_rec(dep.as_str(), fuel - 1);
                let ghost first = match resolve_label(rv, depsv[j as int], f) {
                    Some(s) => s,
                    None => Seq::<Seq<char>>::empty(),
                };
                proof {
                    assert(resolve_deps(rv, depsv, f, j as int) == first + resolve_deps(
                        rv,
                        depsv,
                        f,
                        j + 1,
                    ));
                }
                let ghost out0 = out.deep_view();
                match sub {
                    Some(mut labels) => {
                        let ghost lv = labels.deep_view();
                        proof {
                            assert(lv == first);
                        }
                        out.append(&mut labels);
                        proof {
                            assert(out.deep_view() =~= out0 + first);
                        }
                    },
                    None => {
                        proof {
                            assert(first =~= Seq::<Seq<char>>::empty());
                            assert(out.deep_view() =~= out0 + first);
                        }
                    },
                }
                proof {
                    let b = resolve_deps(rv, depsv, f, j + 1);
                    let c = seq![instsv[k as int].label];
                    let d = resolve_instructions(rv, instsv, f, k + 1);
                    assert(out0 + (first + b) + c + d =~= (out0 + first) + b + c + d);
                }
                j = j + 1;
            }
            proof {
                assert(resolve_deps(rv, depsv, f, dn as int) =~= Seq::<Seq<char>>::empty());
                assert(out.deep_view() + Seq::<Seq<char>>::empty() =~= out.deep_view());
            }
            let ghost out0 = out.deep_view();
            out.push(self.entries[idx].instructions[k].label.clone());
            proof {
                assert(self.entries@[idx as int].deep_view() == rv.entries[idx as int]);
                assert(self.entries@[idx as int].instructions@[k as int].deep_view() == instsv[
                k as int]);
                assert(out.deep_view() =~= out0.push(instsv[k as int].label));
                assert(out0 + seq![instsv[k as int].label] + resolve_instructions(
                    rv,
                    instsv,
                    f,
                    k + 1,
                ) =~= out.deep_view() + resolve_instructions(rv, instsv, f, k + 1));
            }
            k = k + 1;
        }
        proof {
            assert(resolve_instructions(rv, instsv, f, m as int) =~= Seq::<Seq<char>>::empty());
            assert(out.deep_view() + Seq::<Seq<char>>::empty() =~= out.deep_view());
        }
        Some(out)
    }

    /// Depth-first pre-order dependency expansion: for each instruction
    /// under `instruction_label`, every dependency's own expansion comes
    /// first, in declaration order, and the label itself comes last.
    /// Returns `None` exactly when the label is unknown; an unknown
    /// dependency met during expansion contributes nothing.  The expansion
    /// depth is bounded by the number of declared labels, which every
    /// acyclic recipe resolves within; a cyclic recipe has its expansion
    /// cut off at that depth instead of recursing forever.
    pub fn resolve_dependencies(&self, instruction_label: &str) -> (r: Option<Vec<String>>)
        ensures
            match resolve_all(self@, instruction_label@) {
                None => r is None,
                Some(s) => r matches Some(v) && v.deep_view() == s,
            },
            r is Some <==> self@.declared(instruction_label@),
    {
        proof {
            lemma_decl_index_of(self@.entries, instruction_label@);
        }
        self.resolve_rec(instruction_label, self.entries.len())
    }
}


/// How often `x` occurs in `s`.
pub open spec fn count_of(s: Seq<Seq<char>>, x: Seq<char>) -> nat
    decreases s.len(),
{
    if s.len() == 0 {
        0
    } else {
        (if s[0] == x {
            1nat
        } else {
            0nat
        }) + count_of(s.skip(1), x)
    }
}

/// Occurrences in a concatenation add up.
pub proof fn lemma_count_of_concat(a: Seq<Seq<char>>, b: Seq<Seq<char>>, x: Seq<char>)
    ensures
        count_of(a + b, x) == count_of(a, x) + count_of(b, x),
    decreases a.len(),
{
    if a.len() == 0 {
        assert(a + b =~= b);
    } else {
        assert((a + b).skip(1) =~= a.skip(1) + b);
        assert((a + b)[0] == a[0]);
        lemma_count_of_concat(a.skip(1), b, x);
    }
}

/// `x` occurs in `s` exactly when its count is positive.
pub proof fn lemma_count_of_contains(s: Seq<Seq<char>>, x: Seq<char>)
    ensures
        count_of(s, x) > 0 <==> s.contains(x),
    decreases s.len(),
{
    if s.len() == 0 {
    } else {
        lemma_count_of_contains(s.skip(1), x);
        if s[0] == x {
            assert(s.contains(x));
        } else {
            assert(s.contains(x) <==> s.skip(1).contains(x)) by {
                if s.contains(x) {
                    let i = choose|i: int| 0 <= i < s.len() && s[i] == x;
                    assert(s.skip(1)[i - 1] == x);
                }
                if s.skip(1).contains(x) {
                    let i = choose|i: int| 0 <= i < s.skip(1).len() && s.skip(1)[i] == x;
                    assert(s[i + 1] == x);
                }
            }
        }
    }
}

/// A concatenation holds `x` exactly when one of its parts does.
pub proof fn lemma_contains_concat(a: Seq<Seq<char>>, b: Seq<Seq<char>>, x: Seq<char>)
    ensures
        (a + b).contains(x) <==> a.contains(x) || b.contains(x),
{
    if a.contains(x) {
        let i = choose|i: int| 0 <= i < a.len() && a[i] == x;
        assert((a + b)[i] == x);
    }
    if b.contains(x) {
        let i = choose|i: int| 0 <= i < b.len() && b[i] == x;
        assert((a + b)[a.len() + i] == x);
    }
    if (a + b).contains(x) {
        let i = choose|i: int| 0 <= i < (a + b).len() && (a + b)[i] == x;
        if i < a.len() {
            assert(a[i] == x);
        } else {
            assert(b[i - a.len()] == x);
        }
    }
}

/// Whether every label declares exactly one instruction.
pub open spec fn single_decl(r: RecipeView) -> bool {
    forall|i: int| 0 <= i < r.entries.len() ==> (#[trigger] r.entries[i]).instructions.len() == 1
}

/// Whether `rank` witnesses that the dependency graph of `r` is acyclic:
/// every declared dependency of a label ranks strictly below the label.
/// Exactly the acyclic graphs admit such a witness (rank a label by the
/// longest dependency chain under it).
pub open spec fn rank_ok(r: RecipeView, rank: Map<Seq<char>, nat>) -> bool {
    forall|i: int, k: int, j: int|
        #![trigger r.entries[i].instructions[k].deps[j]]
        0 <= i < r.entries.len() && 0 <= k < r.entries[i].instructions.len() && 0 <= j
            < r.entries[i].instructions[k].deps.len() && r.declared(
            r.entries[i].instructions[k].deps[j],
        ) ==> rank[r.entries[i].instructions[k].deps[j]] < rank[r.entries[i].label]
}

/// The expansion of a declared label under an acyclicity witness: it
/// succeeds, ends in the label, holds the label exactly once, holds only
/// declared labels ranking at or below it, and holds every declared
/// dependency of the label.
pub proof fn lemma_resolve_label_acyclic(
    r: RecipeView,
    label: Seq<char>,
    rank: Map<Seq<char>, nat>,
    fuel: nat,
)
    requires
        r.wf(),
        single_decl(r),
        rank_ok(r, rank),
        r.declared(label),
        rank[label] < fuel,
    ensures
        resolve_label(r, label, fuel) matches Some(out) && {
            &&& out.len() >= 1
            &&& out.last() == label
            &&& count_of(out, label) == 1
            &&& forall|x: Seq<char>|
                #[trigger] out.contains(x) ==> r.declared(x) && rank[x] <= rank[label]
            &&& forall|d: Seq<char>|
                #[trigger] r.lookup(label)[0].deps.contains(d) && r.declared(d)
                    ==> out.take(out.len() - 1).contains(d)
        },
    decreases fuel, 0int, 0int,
{
    lemma_decl_index_of(r.entries, label);
    let idx = decl_index_of(r.entries, label);
    let insts = r.entries[idx].instructions;
    assert(insts.len() == 1);
    assert(insts[0].label == r.entries[idx].label);
    assert(r.entries[idx].label == label);
    let f = (fuel - 1) as nat;
    let deps = insts[0].deps;
    assert(forall|m: int|
        0 <= m < deps.len() && r.declared(#[trigger] deps[m]) ==> rank[deps[m]] < rank[label])
        by {
        assert(forall|m: int|
            0 <= m < deps.len() ==> r.entries[idx].instructions[0].deps[m] == #[trigger] deps[m]);
    }
    lemma_resolve_deps_acyclic(r, deps, rank, rank[label], f, 0);
    let dep_out = resolve_deps(r, deps, f, 0);
    assert(resolve_instructions(r, insts, f, 1) =~= Seq::<Seq<char>>::empty());
    let out = resolve_instructions(r, insts, f, 0);
    assert(out == dep_out + seq![label] + resolve_instructions(r, insts, f, 1));
    assert(out =~= dep_out + seq![label]);
    assert(resolve_label(r, label, fuel) == Some(out));
    assert(out.last() == label);
    assert(count_of(out, label) == 1) by {
        lemma_count_of_concat(dep_out, seq![label], label);
        assert(count_of(dep_out, label) == 0) by {
            lemma_count_of_contains(dep_out, label);
            if dep_out.contains(label) {
                assert(rank[label] < rank[label]);
            }
        }
        assert(count_of(seq![label], label) == 1) by {
            let s1 = seq![label];
            assert(s1[0] == label);
            assert(s1.skip(1) =~= Seq::<Seq<char>>::empty());
            assert(count_of(Seq::<Seq<char>>::empty(), label) == 0);
            assert(count_of(s1, label) == 1 + count_of(s1.skip(1), label));
        }
    }
    assert forall|x: Seq<char>| #[trigger] out.contains(x) implies r.declared(x) && rank[x]
        <= rank[label] by {
        lemma_contains_concat(dep_out, seq![label], x);
        if dep_out.contains(x) {
            assert(r.declared(x) && rank[x] < rank[label]);
        } else {
            assert(seq![label].contains(x));
            assert(x == label);
        }
    }
    assert(forall|d: Seq<char>|
        #[trigger] r.lookup(label)[0].deps.contains(d) && r.declared(d) ==> out.take(
            out.len() - 1,
        ).contains(d)) by {
        assert(out.take(out.len() - 1) =~= dep_out);
    }
}

/// The concatenated expansions of `deps[j..]` under an acyclicity witness:
/// only declared labels ranking strictly below `bound` occur, and every
/// declared label among `deps[j..]` occurs.
pub proof fn lemma_resolve_deps_acyclic(
    r: RecipeView,
    deps: Seq<Seq<char>>,
    rank: Map<Seq<char>, nat>,
    bound: nat,
    fuel: nat,
    j: int,
)
    requires
        r.wf(),
        single_decl(r),
        rank_ok(r, rank),
        forall|m: int|
            j <= m < deps.len() && r.declared(#[trigger] deps[m]) ==> rank[deps[m]] < bound,
        bound <= fuel,
        0 <= j <= deps.len(),
    ensures
        ({
            let out = resolve_deps(r, deps, fuel, j);
            &&& forall|x: Seq<char>|
                #[trigger] out.contains(x) ==> r.declared(x) && rank[x] < bound
            &&& forall|m: int|
                j <= m < deps.len() && r.declared(#[trigger] deps[m]) ==> out.contains(deps[m])
        }),
    decreases fuel, 1int, deps.len() - j,
{
    if j >= deps.len() {
    } else {
        let first = match resolve_label(r, deps[j], fuel) {
            Some(s) => s,
            None => Seq::<Seq<char>>::empty(),
        };
        let rest = resolve_deps(r, deps, fuel, j + 1);
        let out = resolve_deps(r, deps, fuel, j);
        assert(out == first + rest);
        lemma_resolve_deps_acyclic(r, deps, rank, bound, fuel, j + 1);
        if r.declared(deps[j]) {
            assert(rank[deps[j]] < bound);
            lemma_resolve_label_acyclic(r, deps[j], rank, fuel);
            assert(first.contains(deps[j])) by {
                assert(first[first.len() - 1] == deps[j]);
            }
        } else {
            assert(resolve_label(r, deps[j], fuel) is None) by {
                lemma_decl_index_of(r.entries, deps[j]);
            }
            assert(first =~= Seq::<Seq<char>>::empty());
        }
        assert forall|x: Seq<char>| #[trigger] out.contains(x) implies r.declared(x) && rank[x]
            < bound by {
            lemma_contains_concat(first, rest, x);
            if first.contains(x) {
                if r.declared(deps[j]) {
                    assert(r.declared(x) && rank[x] <= rank[deps[j]]);
                }
            }
        }
        assert forall|m: int|
            j <= m < deps.len() && r.declared(#[trigger] deps[m]) implies out.contains(deps[m]) by {
            lemma_contains_concat(first, rest, deps[m]);
            if m == j {
                assert(first.contains(deps[j]));
            } else {
                assert(rest.contains(deps[m]));
            }
        }
    }
}

/// Law: in a recipe whose dependency graph is acyclic (witnessed by a
/// ranking) and whose labels each declare one instruction, resolving a
/// declared label places every declared dependency of that label strictly
/// before the label, and the label itself appears exactly once, as the
/// final element.
pub proof fn lemma_resolve_dependencies_acyclic(
    r: RecipeView,
    label: Seq<char>,
    rank: Map<Seq<char>, nat>,
)
    requires
        r.wf(),
        single_decl(r),
        rank_ok(r, rank),
        r.declared(label),
        forall|l: Seq<char>| #[trigger] r.declared(l) ==> rank[l] < r.entries.len(),
    ensures
        resolve_all(r, label) matches Some(out) && {
            &&& out.len() >= 1
            &&& out.last() == label
            &&& count_of(out, label) == 1
            &&& forall|d: Seq<char>|
                #[trigger] r.lookup(label)[0].deps.contains(d) && r.declared(d)
                    ==> out.take(out.len() - 1).contains(d)
        },
{
    lemma_resolve_label_acyclic(r, label, rank, r.entries.len() as nat);
}

} // verus!
