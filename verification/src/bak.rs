//! The orchestrator: a [`Baker`] holds one run's configuration and plans
//! which instructions the run executes, in order.  Executing the planned
//! steps — and stopping on the first failing one, see
//! [`crate::execute::steps_run`] — is the caller's part.

use vstd::prelude::*;

use crate::errors::Error;
use crate::ing::Instruction;
use crate::ing::InstructionView;
use crate::ing::Recipe;
use crate::ing::RecipeView;
use crate::text::clone_strings;

verus! {

/// The run configuration an invocation supplies: the recipe source path,
/// an optional working directory, the safe-output toggle, and the labels
/// to run, in order.
#[derive(Debug)]
pub struct Cli {
    pub bakefile: String,
    pub cwd: Option<String>,
    pub safe: bool,
    pub instructions: Vec<String>,
}

/// The instructions that one requested label contributes to a run: the
/// label's own list when it is declared, and the main instruction alone
/// otherwise.
pub open spec fn requested_instructions_view(r: RecipeView, label: Seq<char>) -> Seq<
    InstructionView,
> {
    if r.declared(label) {
        r.lookup(label)
    } else {
        seq![r.main_inst()]
    }
}

/// The instructions that the requested labels `req[i..]` contribute, in
/// request order.
pub open spec fn plan_labels_view(r: RecipeView, req: Seq<Seq<char>>, i: int) -> Seq<
    InstructionView,
>
    decreases req.len() - i,
{
    if i < 0 || i >= req.len() {
        Seq::empty()
    } else {
        requested_instructions_view(r, req[i]) + plan_labels_view(r, req, i + 1)
    }
}

/// The ordered instruction plan of a run: the main instruction alone when
/// no label is requested, and each requested label's instructions in
/// request order otherwise.  `None` when the recipe declares nothing, so
/// no plan exists.
pub open spec fn perform_view(req: Seq<Seq<char>>, r: RecipeView) -> Option<Seq<InstructionView>> {
    if r.entries.len() == 0 {
        None
    } else if req.len() == 0 {
        Some(seq![r.main_inst()])
    } else {
        Some(plan_labels_view(r, req, 0))
    }
}

/// One run's configuration: an optional working-directory override, the
/// safe-output toggle, and the ordered list of requested target labels.
#[derive(Debug)]
pub struct Baker {
    cwd: Option<String>,
    safe: bool,
    instructions: Vec<String>,
}

impl Baker {
    /// The working-directory override, if one was given.
    pub closed spec fn cwd_spec(&self) -> Option<Seq<char>> {
        self.cwd.deep_view()
    }

    /// Whether output is sanitized before printing.
    pub closed spec fn safe_spec(&self) -> bool {
        self.safe
    }

    /// The requested target labels, in request order.
    pub closed spec fn requested(&self) -> Seq<Seq<char>> {
        self.instructions.deep_view()
    }

    /// A run configuration with the given working directory, safe-output
    /// toggle and requested labels.
    pub fn new(cwd: Option<String>, safe: bool, instructions: Vec<String>) -> (b: Baker)
        ensures
            b.cwd_spec() == cwd.deep_view(),
            b.safe_spec() == safe,
            b.requested() == instructions.deep_view(),
    {
        Baker { cwd, safe, instructions }
    }

    /// The working-directory override, if one was given.
    pub fn working_directory(&self) -> (r: Option<String>)
        ensures
            r.deep_view() == self.cwd_spec(),
    {
        match &self.cwd {
            Some(c) => Some(c.clone()),
            None => None,
        }
    }

    /// Whether output is sanitized before printing.
    pub fn safe_output(&self) -> (r: bool)
        ensures
            r == self.safe_spec(),
    {
        self.safe
    }

    /// A copy of the requested target labels, in request order.
    pub fn requested_labels(&self) -> (r: Vec<String>)
        ensures
            r.deep_view() == self.requested(),
    {
        clone_strings(&self.instructions)
    }

    /// Plans the run over `recipe`: the instructions to execute, in order
    /// — the main instruction alone when no label was requested, and each
    /// requested label's instructions (an unknown label falling back to
    /// the main instruction) otherwise.  [`Error::UnstructedRecipe`] when
    /// the recipe declares nothing.
    pub fn perform(&self, recipe: &Recipe) -> (r: Result<Vec<Instruction>, Error>)
        requires
            recipe@.wf(),
        ensures
            match perform_view(self.requested(), recipe@) {
                None => r == Err::<Vec<Instruction>, Error>(Error::UnstructedRecipe),
                Some(p) => r matches Ok(v) && v.deep_view() == p,
            },
    {
        let ghost rv = recipe@;
        let ghost req = self.requested();
        match recipe.main_instruction() {
            Err(e) => Err(e),
            Ok(main) => {
                if self.instructions.len() == 0 {
                    let mut plan: Vec<Instruction> = Vec::new();
                    plan.push(main);
                    proof {
                        assert(plan.deep_view() =~= seq![rv.main_inst()]);
                    }
                    Ok(plan)
                } else {
                    let mut plan: Vec<Instruction> = Vec::new();
                    let n = self.instructions.len();
                    let mut i: usize = 0;
                    proof {
                        assert(plan.deep_view() =~= Seq::<InstructionView>::empty());
                        assert(Seq::<InstructionView>::empty() + plan_labels_view(rv, req, 0)
                            =~= plan_labels_view(rv, req, 0));
                    }
                    while i < n
                        invariant
                            i <= n,
                            n == self.instructions@.len(),
                            req == self.requested(),
                            rv == recipe@,
                            rv.wf(),
                            rv.entries.len() > 0,
                            plan_labels_view(rv, req, 0) == plan.deep_view() + plan_labels_view(
                                rv,
                                req,
                                i as int,
                            ),
                        decreases n - i,
                    {
                        let ghost plan0 = plan.deep_view();
                        proof {
                            assert(self.instructions@[i as int]@ == req[i as int]);
                            assert(plan_labels_view(rv, req, i as int)
                                == requested_instructions_view(rv, req[i as int])
                                + plan_labels_view(rv, req, i + 1));
                        }
                        let mut insts = recipe.get_instructions(self.instructions[i].as_str());
                        let ghost iv = insts.deep_view();
                        proof {
                            assert(iv == requested_instructions_view(rv, req[i as int]));
                        }
                        plan.append(&mut insts);
                        proof {
                            assert(plan.deep_view() =~= plan0 + iv);
                            assert(plan0 + (iv + plan_labels_view(rv, req, i + 1)) =~= (plan0 + iv)
                                + plan_labels_view(rv, req, i + 1));
                        }
                        i = i + 1;
                    }
                    proof {
                        assert(plan_labels_view(rv, req, n as int) =~= Seq::<
                            InstructionView,
                        >::empty());
                        assert(plan.deep_view() + Seq::<InstructionView>::empty()
                            =~= plan.deep_view());
                    }
                    Ok(plan)
                }
            },
        }
    }
}

} // verus!
