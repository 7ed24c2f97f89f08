//! The recipe-text parser: a character-at-a-time state machine over the
//! Unicode character stream.
//!
//! The canonical grammar: a document is a sequence of blank lines, comments
//! and target blocks.  A target block starts at indentation 0 with a label,
//! a colon and an optional space-separated dependency list on the same
//! line, followed by step lines each indented by exactly four spaces.  A
//! comment-marker character (see [`comment_marker`]) outside an active step
//! suppresses the rest of its line; inside an active step it is literal
//! text.  Tab and carriage-return characters are ignored wherever they
//! appear.  Any other indentation width, a colon in a dependency list, or a
//! plain character at a bad indentation is a fatal [`ParseError`] carrying
//! the position.

use vstd::prelude::*;

use crate::errors::Error;
use crate::errors::ParseError;
use crate::errors::ParseErrorView;
use crate::ing::blank_recipe_view;
use crate::ing::decl_index_of;
use crate::ing::lemma_decl_index_of;
use crate::ing::lemma_decl_index_of_first;
use crate::ing::EntryView;
use crate::ing::add_instruction_view;
use crate::ing::fold_instructions;
use crate::ing::Instruction;
use crate::ing::InstructionView;
use crate::ing::Recipe;
use crate::ing::RecipeView;
use crate::text::trim_spaces;
use crate::text::trim_trailing_spaces;

verus! {

/// The reserved comment-marker characters: the number sign, the section
/// sign, the pilcrow, the currency sign, the degree sign, the dagger and
/// the double dagger.
pub open spec fn comment_marker(c: char) -> bool {
    c == '#' || c == '\u{00A7}' || c == '\u{00B6}' || c == '\u{00A4}' || c == '\u{00B0}' || c
        == '\u{2020}' || c == '\u{2021}'
}

/// Whether `c` opens a comment when it appears outside an active step.
pub fn comment_start(c: char) -> (r: bool)
    ensures
        r == comment_marker(c),
{
    match c {
        '#' | '\u{00A7}' | '\u{00B6}' | '\u{00A4}' | '\u{00B0}' | '\u{2020}' | '\u{2021}' => true,
        _ => false,
    }
}

/// Whether `c` ends a line.
pub fn new_line(c: char) -> (r: bool)
    ensures
        r == (c == '\n'),
{
    c == '\n'
}

/// The parser's state between two characters: the finished instructions,
/// the open target block, the text buffers still being read, the mode
/// flags, and the position of the next character.
pub ghost struct ParseState {
    /// Instructions of the target blocks already closed, in discovery
    /// order.
    pub done: Seq<InstructionView>,
    /// The instruction of the open target block.
    pub cur: InstructionView,
    /// Whether any target block was opened yet; before the first one,
    /// `cur` is a placeholder that is never emitted.
    pub have_block: bool,
    /// Label text read at indentation 0, before its colon.
    pub pending_label: Seq<char>,
    /// The dependency token being read.
    pub pending_dep: Seq<char>,
    /// The step text being read.
    pub pending_step: Seq<char>,
    /// Dependency-list mode: from the colon that ends a label to the next
    /// line end.
    pub in_dep: bool,
    /// Step mode: from the first step character to the next line end.
    pub in_step: bool,
    /// Comment mode: from a marker to the next line end.
    pub in_comment: bool,
    /// Leading spaces counted on this line so far.
    pub indent: int,
    /// 1-based line of the next character.
    pub line: int,
    /// 1-based column of the next character within its line.
    pub column: int,
    /// 0-based position of the next character in the whole input.
    pub offset: int,
}

/// The state before the first character.
pub open spec fn init_state() -> ParseState {
    ParseState {
        done: Seq::empty(),
        cur: InstructionView { label: Seq::empty(), actions: Seq::empty(), deps: Seq::empty() },
        have_block: false,
        pending_label: Seq::empty(),
        pending_dep: Seq::empty(),
        pending_step: Seq::empty(),
        in_dep: false,
        in_step: false,
        in_comment: false,
        indent: 0,
        line: 1,
        column: 1,
        offset: 0,
    }
}

/// Moves a pending dependency token or step text into the current
/// instruction, as a line end does: a non-empty dependency token becomes
/// one dependency, a non-empty step buffer becomes one action with its
/// trailing spaces trimmed.
pub open spec fn flush_line(st: ParseState) -> ParseState {
    if st.in_dep && st.pending_dep.len() > 0 {
        ParseState {
            cur: InstructionView { deps: st.cur.deps.push(st.pending_dep), ..st.cur },
            pending_dep: Seq::empty(),
            ..st
        }
    } else if st.in_step && st.pending_step.len() > 0 {
        ParseState {
            cur: InstructionView {
                actions: st.cur.actions.push(trim_spaces(st.pending_step)),
                ..st.cur
            },
            pending_step: Seq::empty(),
            ..st
        }
    } else {
        st
    }
}

/// The parse failure at the next character's position.
pub open spec fn error_at(st: ParseState, c: char) -> ParseErrorView {
    ParseErrorView { line: st.line, column: st.column, offset: st.offset, character: c }
}

/// One character's transition of the parser.
pub open spec fn parse_step(st: ParseState, c: char) -> Result<ParseState, ParseErrorView> {
    if c == '\n' {
        let f = flush_line(st);
        Ok(
            ParseState {
                pending_dep: Seq::empty(),
                pending_step: Seq::empty(),
                in_dep: false,
                in_step: false,
                in_comment: false,
                indent: 0,
                line: st.line + 1,
                column: 1,
                offset: st.offset + 1,
                ..f
            },
        )
    } else if st.in_comment {
        Ok(ParseState { column: st.column + 1, offset: st.offset + 1, ..st })
    } else if comment_marker(c) && !st.in_step {
        Ok(ParseState { in_comment: true, column: st.column + 1, offset: st.offset + 1, ..st })
    } else if c == '\t' || c == '\r' {
        Ok(ParseState { column: st.column + 1, offset: st.offset + 1, ..st })
    } else if c == ':' {
        if st.in_step {
            Ok(
                ParseState {
                    pending_step: st.pending_step.push(c),
                    column: st.column + 1,
                    offset: st.offset + 1,
                    ..st
                },
            )
        } else if st.in_dep {
            Err(error_at(st, c))
        } else if st.indent == 0 {
            Ok(
                ParseState {
                    done: if st.have_block {
                        st.done.push(st.cur)
                    } else {
                        st.done
                    },
                    cur: InstructionView {
                        label: st.pending_label,
                        actions: Seq::empty(),
                        deps: Seq::empty(),
                    },
                    have_block: true,
                    pending_label: Seq::empty(),
                    in_dep: true,
                    column: st.column + 1,
                    offset: st.offset + 1,
                    ..st
                },
            )
        } else if st.indent == 4 {
            Ok(
                ParseState {
                    in_step: true,
                    pending_step: st.pending_step.push(c),
                    column: st.column + 1,
                    offset: st.offset + 1,
                    ..st
                },
            )
        } else {
            Err(error_at(st, c))
        }
    } else if c == ' ' {
        if st.in_dep {
            if st.pending_dep.len() > 0 {
                Ok(
                    ParseState {
                        cur: InstructionView { deps: st.cur.deps.push(st.pending_dep), ..st.cur },
                        pending_dep: Seq::empty(),
                        column: st.column + 1,
                        offset: st.offset + 1,
                        ..st
                    },
                )
            } else {
                Ok(ParseState { column: st.column + 1, offset: st.offset + 1, ..st })
            }
        } else if st.in_step {
            Ok(
                ParseState {
                    pending_step: st.pending_step.push(c),
                    column: st.column + 1,
                    offset: st.offset + 1,
                    ..st
                },
            )
        } else {
            Ok(
                ParseState {
                    indent: st.indent + 1,
                    column: st.column + 1,
                    offset: st.offset + 1,
                    ..st
                },
            )
        }
    } else {
        if st.in_dep {
            Ok(
                ParseState {
                    pending_dep: st.pending_dep.push(c),
                    column: st.column + 1,
                    offset: st.offset + 1,
                    ..st
                },
            )
        } else if st.in_step {
            Ok(
                ParseState {
                    pending_step: st.pending_step.push(c),
                    column: st.column + 1,
                    offset: st.offset + 1,
                    ..st
                },
            )
        } else if st.indent == 0 {
            Ok(
                ParseState {
                    pending_label: st.pending_label.push(c),
                    column: st.column + 1,
                    offset: st.offset + 1,
                    ..st
                },
            )
        } else if st.indent == 4 {
            Ok(
                ParseState {
                    in_step: true,
                    pending_step: st.pending_step.push(c),
                    column: st.column + 1,
                    offset: st.offset + 1,
                    ..st
                },
            )
        } else {
            Err(error_at(st, c))
        }
    }
}

/// The parser run over a whole character sequence, character by character.
pub open spec fn parse_run(st: ParseState, s: Seq<char>) -> Result<ParseState, ParseErrorView>
    decreases s.len(),
{
    if s.len() == 0 {
        Ok(st)
    } else {
        match parse_step(st, s[0]) {
            Ok(st2) => parse_run(st2, s.skip(1)),
            Err(e) => Err(e),
        }
    }
}

/// The end of input flushes pending buffers like a line end, then closes
/// the open target block, if one is.
pub open spec fn parse_finish(st: ParseState) -> Seq<InstructionView> {
    let f = flush_line(st);
    if f.have_block {
        f.done.push(f.cur)
    } else {
        f.done
    }
}

/// What parsing a whole document yields: the recipe built from one
/// registered instruction per discovered target block, in discovery order,
/// or the position of the first offending character.
pub open spec fn parse_text(s: Seq<char>) -> Result<RecipeView, ParseErrorView> {
    match parse_run(init_state(), s) {
        Ok(st) => Ok(fold_instructions(blank_recipe_view(), parse_finish(st))),
        Err(e) => Err(e),
    }
}

/// Running over one more character steps the machine once more at the end.
pub proof fn lemma_parse_run_snoc(st: ParseState, s: Seq<char>, c: char)
    ensures
        parse_run(st, s.push(c)) == (match parse_run(st, s) {
            Ok(st2) => parse_step(st2, c),
            Err(e) => Err(e),
        }),
    decreases s.len(),
{
    let p = s.push(c);
    if s.len() == 0 {
        assert(p[0] == c);
        assert(p.skip(1) =~= Seq::<char>::empty());
        match parse_step(st, c) {
            Ok(st2) => {
                assert(parse_run(st2, p.skip(1)) == Ok::<ParseState, ParseErrorView>(st2));
            },
            Err(_) => {},
        }
    } else {
        assert(p[0] == s[0]);
        assert(p.skip(1) =~= s.skip(1).push(c));
        match parse_step(st, s[0]) {
            Ok(st2) => {
                lemma_parse_run_snoc(st2, s.skip(1), c);
            },
            Err(_) => {},
        }
    }
}

/// Running over a concatenation runs over each part in turn.
pub proof fn lemma_parse_run_concat(st: ParseState, a: Seq<char>, b: Seq<char>)
    ensures
        parse_run(st, a + b) == (match parse_run(st, a) {
            Ok(st2) => parse_run(st2, b),
            Err(e) => Err(e),
        }),
    decreases a.len(),
{
    if a.len() == 0 {
        assert(a + b =~= b);
    } else {
        assert((a + b)[0] == a[0]);
        assert((a + b).skip(1) =~= a.skip(1) + b);
        match parse_step(st, a[0]) {
            Ok(st2) => {
                lemma_parse_run_concat(st2, a.skip(1), b);
            },
            Err(_) => {},
        }
    }
}

/// Parses recipe text into a [`Recipe`]: exactly [`parse_text`] over the
/// input's characters.
pub fn parse_recipe(data: &str) -> (r: Result<Recipe, Error>)
    requires
        data@.len() < usize::MAX,
    ensures
        match parse_text(data@) {
            Ok(rv) => r matches Ok(rec) && rec@ == rv && rec@.wf(),
            Err(e) => r matches Err(Error::RecipeParsingError(pe)) && pe@ == e,
        },
{
    let n = data.unicode_len();
    let mut done: Vec<Instruction> = Vec::new();
    let mut cur = Instruction::new("");
    let mut have_block = false;
    let mut target_name = String::new();
    let mut current_dependency = String::new();
    let mut shell_command = String::new();
    let mut in_dep = false;
    let mut in_step = false;
    let mut in_comment = false;
    let mut indent: usize = 0;
    let mut line: usize = 1;
    let mut column: usize = 1;
    let mut i: usize = 0;
    proof {
        reveal_strlit("");
        assert(""@ =~= Seq::<char>::empty());
        assert(data@.take(0) =~= Seq::<char>::empty());
        assert(done.deep_view() =~= Seq::<InstructionView>::empty());
    }
    while i < n
        invariant
            i <= n,
            n == data@.len(),
            n < usize::MAX,
            1 <= line <= i + 1,
            1 <= column <= i + 1,
            indent <= i,
            parse_run(init_state(), data@.take(i as int)) == Ok::<ParseState, ParseErrorView>(
                ParseState {
                    done: done.deep_view(),
                    cur: cur@,
                    have_block: have_block,
                    pending_label: target_name@,
                    pending_dep: current_dependency@,
                    pending_step: shell_command@,
                    in_dep: in_dep,
                    in_step: in_step,
                    in_comment: in_comment,
                    indent: indent as int,
                    line: line as int,
                    column: column as int,
                    offset: i as int,
                },
            ),
        decreases n - i,
    {
        let ghost st = ParseState {
            done: done.deep_view(),
            cur: cur@,
            have_block: have_block,
            pending_label: target_name@,
            pending_dep: current_dependency@,
            pending_step: shell_command@,
            in_dep: in_dep,
            in_step: in_step,
            in_comment: in_comment,
            indent: indent as int,
            line: line as int,
            column: column as int,
            offset: i as int,
        };
        let c = data.get_char(i);
        proof {
            assert(data@.take(i + 1) =~= data@.take(i as int).push(data@[i as int]));
            lemma_parse_run_snoc(init_state(), data@.take(i as int), data@[i as int]);
        }
        if new_line(c) {
            if in_dep && !current_dependency.as_str().is_empty() {
                cur.add_dependency(current_dependency.as_str());
            } else if in_step && !shell_command.as_str().is_empty() {
                let trimmed = trim_trailing_spaces(shell_command.as_str());
                cur.add_action(trimmed.as_str());
            }
            current_dependency = String::new();
            shell_command = String::new();
            line = line + 1;
            column = 1;
            indent = 0;
            in_comment = false;
            in_step = false;
            in_dep = false;
            proof {
                assert(parse_step(st, c) matches Ok(st2) && st2 == (ParseState {
                    done: done.deep_view(),
                    cur: cur@,
                    have_block: have_block,
                    pending_label: target_name@,
                    pending_dep: current_dependency@,
                    pending_step: shell_command@,
                    in_dep: in_dep,
                    in_step: in_step,
                    in_comment: in_comment,
                    indent: indent as int,
                    line: line as int,
                    column: column as int,
                    offset: i + 1,
                }));
            }
        } else if in_comment {
            column = column + 1;
        } else if comment_start(c) && !in_step {
            in_comment = true;
            column = column + 1;
        } else if c == '\t' || c == '\r' {
            column = column + 1;
        } else if c == ':' {
            if in_step {
                shell_command.push(c);
                column = column + 1;
            } else if in_dep {
                proof {
                    assert(data@ =~= data@.take(i as int) + data@.skip(i as int));
                    lemma_parse_run_concat(
                        init_state(),
                        data@.take(i as int),
                        data@.skip(i as int),
                    );
                    assert(data@.skip(i as int)[0] == data@[i as int]);
                    assert(parse_step(st, c) == Err::<ParseState, ParseErrorView>(error_at(st, c)));
                }
                return Err(
                    Error::RecipeParsingError(
                        ParseError { line, column, offset: i, character: c },
                    ),
                );
            } else if indent == 0 {
                let next = Instruction::new(target_name.as_str());
                if have_block {
                    done.push(cur);
                    proof {
                        assert(done.deep_view() =~= st.done.push(st.cur));
                    }
                }
                cur = next;
                have_block = true;
                target_name = String::new();
                in_dep = true;
                column = column + 1;
            } else if indent == 4 {
                in_step = true;
                shell_command.push(c);
                column = column + 1;
            } else {
                proof {
                    assert(data@ =~= data@.take(i as int) + data@.skip(i as int));
                    lemma_parse_run_concat(
                        init_state(),
                        data@.take(i as int),
                        data@.skip(i as int),
                    );
                    assert(data@.skip(i as int)[0] == data@[i as int]);
                    assert(parse_step(st, c) == Err::<ParseState, ParseErrorView>(error_at(st, c)));
                }
                return Err(
                    Error::RecipeParsingError(
                        ParseError { line, column, offset: i, character: c },
                    ),
                );
            }
        } else if c == ' ' {
            if in_dep {
                if !current_dependency.as_str().is_empty() {
                    cur.add_dependency(current_dependency.as_str());
                    current_dependency = String::new();
                }
                column = column + 1;
            } else if in_step {
                shell_command.push(c);
                column = column + 1;
            } else {
                indent = indent + 1;
                column = column + 1;
            }
        } else {
            if in_dep {
                current_dependency.push(c);
                column = column + 1;
            } else if in_step {
                shell_command.push(c);
                column = column + 1;
            } else if indent == 0 {
                target_name.push(c);
                column = column + 1;
            } else if indent == 4 {
                in_step = true;
                shell_command.push(c);
                column = column + 1;
            } else {
                proof {
                    assert(data@ =~= data@.take(i as int) + data@.skip(i as int));
                    lemma_parse_run_concat(
                        init_state(),
                        data@.take(i as int),
                        data@.skip(i as int),
                    );
                    assert(data@.skip(i as int)[0] == data@[i as int]);
                    assert(parse_step(st, c) == Err::<ParseState, ParseErrorView>(error_at(st, c)));
                }
                return Err(
                    Error::RecipeParsingError(
                        ParseError { line, column, offset: i, character: c },
                    ),
                );
            }
        }
        proof {
            assert(parse_step(st, data@[i as int]) == Ok::<ParseState, ParseErrorView>(
                ParseState {
                    done: done.deep_view(),
                    cur: cur@,
                    have_block: have_block,
                    pending_label: target_name@,
                    pending_dep: current_dependency@,
                    pending_step: shell_command@,
                    in_dep: in_dep,
                    in_step: in_step,
                    in_comment: in_comment,
                    indent: indent as int,
                    line: line as int,
                    column: column as int,
                    offset: i + 1,
                },
            ));
        }
        i = i + 1;
    }
    proof {
        assert(data@.take(n as int) =~= data@);
    }
    let ghost stf = ParseState {
        done: done.deep_view(),
        cur: cur@,
        have_block: have_block,
        pending_label: target_name@,
        pending_dep: current_dependency@,
        pending_step: shell_command@,
        in_dep: in_dep,
        in_step: in_step,
        in_comment: in_comment,
        indent: indent as int,
        line: line as int,
        column: column as int,
        offset: n as int,
    };
    if in_dep && !current_dependency.as_str().is_empty() {
        cur.add_dependency(current_dependency.as_str());
    } else if in_step && !shell_command.as_str().is_empty() {
        let trimmed = trim_trailing_spaces(shell_command.as_str());
        cur.add_action(trimmed.as_str());
    }
    proof {
        assert(cur@ == flush_line(stf).cur);
        assert(done.deep_view() == flush_line(stf).done);
    }
    if have_block {
        done.push(cur);
        proof {
            assert(done.deep_view() =~= flush_line(stf).done.push(flush_line(stf).cur));
        }
    }
    proof {
        assert(done.deep_view() == parse_finish(stf));
    }
    let recipe = Recipe::with_instructions(done);
    Ok(recipe)
}


/// Law: a comment marker inside an already-started step body is literal
/// text, not a comment start — the step buffer grows by exactly that
/// character and no comment begins.
pub proof fn lemma_marker_in_step_is_literal(st: ParseState, c: char)
    requires
        st.in_step,
        !st.in_dep,
        !st.in_comment,
        comment_marker(c),
    ensures
        parse_step(st, c) == Ok::<ParseState, ParseErrorView>(
            ParseState {
                pending_step: st.pending_step.push(c),
                column: st.column + 1,
                offset: st.offset + 1,
                ..st
            },
        ),
{
}

/// Law (first half): a comment marker anywhere outside an active step —
/// at indentation 0 as in a dependency list — opens a comment and changes
/// nothing else.
pub proof fn lemma_marker_starts_comment(st: ParseState, c: char)
    requires
        !st.in_step,
        !st.in_comment,
        comment_marker(c),
    ensures
        parse_step(st, c) == Ok::<ParseState, ParseErrorView>(
            ParseState { in_comment: true, column: st.column + 1, offset: st.offset + 1, ..st },
        ),
{
}

/// Law (second half): while a comment is open, the rest of its line is
/// discarded — any newline-free text moves the position and nothing else.
pub proof fn lemma_comment_discards_line(st: ParseState, t: Seq<char>)
    requires
        st.in_comment,
        forall|j: int| 0 <= j < t.len() ==> t[j] != '\n',
    ensures
        parse_run(st, t) == Ok::<ParseState, ParseErrorView>(
            ParseState { column: st.column + t.len(), offset: st.offset + t.len(), ..st },
        ),
    decreases t.len(),
{
    if t.len() == 0 {
        assert(ParseState { column: st.column + 0, offset: st.offset + 0, ..st } == st);
    } else {
        assert(t[0] != '\n');
        let st2 = ParseState { column: st.column + 1, offset: st.offset + 1, ..st };
        assert(parse_step(st, t[0]) == Ok::<ParseState, ParseErrorView>(st2));
        assert(forall|j: int| 0 <= j < t.skip(1).len() ==> t.skip(1)[j] != '\n');
        lemma_comment_discards_line(st2, t.skip(1));
    }
}

/// The canonical text of a dependency list: one space before each label.
pub open spec fn render_deps(deps: Seq<Seq<char>>) -> Seq<char>
    decreases deps.len(),
{
    if deps.len() == 0 {
        Seq::empty()
    } else {
        seq![' '] + deps[0] + render_deps(deps.skip(1))
    }
}

/// The canonical step indentation: four spaces.
pub open spec fn indent4() -> Seq<char> {
    seq![' ', ' ', ' ', ' ']
}

/// The canonical text of a step list: each step on its own line, indented
/// by four spaces.
pub open spec fn render_actions(actions: Seq<Seq<char>>) -> Seq<char>
    decreases actions.len(),
{
    if actions.len() == 0 {
        Seq::empty()
    } else {
        indent4() + actions[0] + seq!['\n'] + render_actions(actions.skip(1))
    }
}

/// The canonical text of one target block: the label, a colon, the
/// dependency list, a newline, and the step lines.
pub open spec fn render_instruction(i: InstructionView) -> Seq<char> {
    i.label + seq![':'] + render_deps(i.deps) + seq!['\n'] + render_actions(i.actions)
}

/// The canonical text of a list of target blocks.
pub open spec fn render_instructions(insts: Seq<InstructionView>) -> Seq<char>
    decreases insts.len(),
{
    if insts.len() == 0 {
        Seq::empty()
    } else {
        render_instruction(insts[0]) + render_instructions(insts.skip(1))
    }
}

/// Every instruction of every entry, flattened in declaration order.
pub open spec fn flat_instructions(entries: Seq<crate::ing::EntryView>) -> Seq<InstructionView>
    decreases entries.len(),
{
    if entries.len() == 0 {
        Seq::empty()
    } else {
        entries[0].instructions + flat_instructions(entries.skip(1))
    }
}

/// The canonical re-serialization of a recipe: its instructions' target
/// blocks in declaration order.
pub open spec fn render_view(r: RecipeView) -> Seq<char> {
    render_instructions(flat_instructions(r.entries))
}

/// Rendering distributes over concatenation of instruction lists.
pub proof fn lemma_render_instructions_concat(a: Seq<InstructionView>, b: Seq<InstructionView>)
    ensures
        render_instructions(a + b) == render_instructions(a) + render_instructions(b),
    decreases a.len(),
{
    if a.len() == 0 {
        assert(a + b =~= b);
        assert(render_instructions(a) =~= Seq::<char>::empty());
        assert(Seq::<char>::empty() + render_instructions(b) =~= render_instructions(b));
    } else {
        assert((a + b)[0] == a[0]);
        assert((a + b).skip(1) =~= a.skip(1) + b);
        lemma_render_instructions_concat(a.skip(1), b);
        assert(render_instruction(a[0]) + (render_instructions(a.skip(1)) + render_instructions(b))
            =~= (render_instruction(a[0]) + render_instructions(a.skip(1)))
            + render_instructions(b));
    }
}

/// One more dependency extends the rendered list at its end.
pub proof fn lemma_render_deps_push(deps: Seq<Seq<char>>, d: Seq<char>)
    ensures
        render_deps(deps.push(d)) == render_deps(deps) + seq![' '] + d,
    decreases deps.len(),
{
    let p = deps.push(d);
    if deps.len() == 0 {
        assert(p[0] == d);
        assert(p.skip(1) =~= Seq::<Seq<char>>::empty());
        assert(render_deps(p) == seq![' '] + d + render_deps(p.skip(1)));
        assert(seq![' '] + d + Seq::<char>::empty() =~= Seq::<char>::empty() + seq![' '] + d);
    } else {
        assert(p[0] == deps[0]);
        assert(p.skip(1) =~= deps.skip(1).push(d));
        lemma_render_deps_push(deps.skip(1), d);
        assert(seq![' '] + deps[0] + (render_deps(deps.skip(1)) + seq![' '] + d) =~= (seq![' ']
            + deps[0] + render_deps(deps.skip(1))) + seq![' '] + d);
    }
}

/// One more step extends the rendered step lines at their end.
pub proof fn lemma_render_actions_push(actions: Seq<Seq<char>>, a: Seq<char>)
    ensures
        render_actions(actions.push(a)) == render_actions(actions) + indent4() + a + seq!['\n'],
    decreases actions.len(),
{
    let p = actions.push(a);
    if actions.len() == 0 {
        assert(p[0] == a);
        assert(p.skip(1) =~= Seq::<Seq<char>>::empty());
        assert(render_actions(p) == indent4() + a + seq!['\n'] + render_actions(p.skip(1)));
        assert(indent4() + a + seq!['\n'] + Seq::<char>::empty() =~= Seq::<char>::empty()
            + indent4() + a + seq!['\n']);
    } else {
        assert(p[0] == actions[0]);
        assert(p.skip(1) =~= actions.skip(1).push(a));
        lemma_render_actions_push(actions.skip(1), a);
        assert(indent4() + actions[0] + seq!['\n'] + (render_actions(actions.skip(1)) + indent4()
            + a + seq!['\n']) =~= (indent4() + actions[0] + seq!['\n'] + render_actions(
            actions.skip(1),
        )) + indent4() + a + seq!['\n']);
    }
}

/// One more instruction extends the rendered blocks at their end.
pub proof fn lemma_render_instructions_push(insts: Seq<InstructionView>, i: InstructionView)
    ensures
        render_instructions(insts.push(i)) == render_instructions(insts) + render_instruction(i),
{
    assert(insts.push(i) =~= insts + seq![i]);
    lemma_render_instructions_concat(insts, seq![i]);
    assert(seq![i].skip(1) =~= Seq::<InstructionView>::empty());
    assert(seq![i][0] == i);
    assert(render_instructions(Seq::<InstructionView>::empty()) == Seq::<char>::empty());
    assert(render_instructions(seq![i]) == render_instruction(i) + Seq::<char>::empty());
    assert(render_instruction(i) + Seq::<char>::empty() =~= render_instruction(i));
}

/// One more entry extends the flattened instruction list at its end.
pub proof fn lemma_flat_instructions_push(entries: Seq<crate::ing::EntryView>, e: crate::ing::EntryView)
    ensures
        flat_instructions(entries.push(e)) == flat_instructions(entries) + e.instructions,
    decreases entries.len(),
{
    let p = entries.push(e);
    if entries.len() == 0 {
        assert(p[0] == e);
        assert(p.skip(1) =~= Seq::<crate::ing::EntryView>::empty());
        assert(flat_instructions(Seq::<crate::ing::EntryView>::empty()) == Seq::<
            InstructionView,
        >::empty());
        assert(flat_instructions(p) == e.instructions + Seq::<InstructionView>::empty());
        assert(e.instructions + Seq::<InstructionView>::empty() =~= Seq::<
            InstructionView,
        >::empty() + e.instructions);
        assert(flat_instructions(entries) =~= Seq::<InstructionView>::empty());
    } else {
        assert(p[0] == entries[0]);
        assert(p.skip(1) =~= entries.skip(1).push(e));
        lemma_flat_instructions_push(entries.skip(1), e);
        assert(entries[0].instructions + (flat_instructions(entries.skip(1)) + e.instructions)
            =~= (entries[0].instructions + flat_instructions(entries.skip(1))) + e.instructions);
    }
}

/// Writes a recipe back out in the canonical grammar: every target block in
/// declaration order, dependencies on the label line, each step indented by
/// four spaces.
pub fn render_recipe(recipe: &Recipe) -> (r: String)
    ensures
        r@ == render_view(recipe@),
{
    let ghost ev = recipe@.entries;
    let entries = recipe.instructions();
    let mut out = String::new();
    let ne = entries.len();
    let mut i: usize = 0;
    proof {
        assert(flat_instructions(ev.take(0)) =~= Seq::<InstructionView>::empty());
        assert(out@ =~= render_instructions(flat_instructions(ev.take(0))));
    }
    while i < ne
        invariant
            i <= ne,
            ne == entries@.len(),
            entries.deep_view() == ev,
            ev == recipe@.entries,
            out@ == render_instructions(flat_instructions(ev.take(i as int))),
        decreases ne - i,
    {
        let insts = &entries[i].instructions;
        let ghost iv = ev[i as int].instructions;
        proof {
            assert(entries@[i as int].deep_view() == ev[i as int]);
            assert(insts.deep_view() == iv);
        }
        let ni = insts.len();
        let mut k: usize = 0;
        proof {
            assert(render_instructions(iv.take(0)) =~= Seq::<char>::empty());
            assert(out@ + Seq::<char>::empty() =~= out@);
        }
        let ghost out_entry = out@;
        while k < ni
            invariant
                k <= ni,
                ni == insts@.len(),
                insts.deep_view() == iv,
                out@ == out_entry + render_instructions(iv.take(k as int)),
            decreases ni - k,
        {
            let inst = &insts[k];
            proof {
                assert(insts@[k as int].deep_view() == iv[k as int]);
            }
            let ghost out_inst = out@;
            let name = inst.name();
            out.append(name.as_str());
            out.push(':');
            let deps = inst.dependencies();
            let nd = deps.len();
            let mut j: usize = 0;
            proof {
                assert(render_deps(iv[k as int].deps.take(0)) =~= Seq::<char>::empty());
                assert(out@ + Seq::<char>::empty() =~= out@);
                assert(out@ =~= out_inst + iv[k as int].label + seq![':']);
            }
            while j < nd
                invariant
                    j <= nd,
                    nd == deps@.len(),
                    deps.deep_view() == iv[k as int].deps,
                    k < iv.len(),
                    out@ == out_inst + iv[k as int].label + seq![':'] + render_deps(
                        iv[k as int].deps.take(j as int),
                    ),
                decreases nd - j,
            {
                out.push(' ');
                out.append(deps[j].as_str());
                proof {
                    let dv = iv[k as int].deps;
                    assert(deps@[j as int]@ == dv[j as int]);
                    assert(dv.take(j + 1) =~= dv.take(j as int).push(dv[j as int]));
                    lemma_render_deps_push(dv.take(j as int), dv[j as int]);
                }
                j = j + 1;
            }
            out.push('\n');
            proof {
                let dv = iv[k as int].deps;
                assert(dv.take(nd as int) =~= dv);
            }
            let actions = inst.steps();
            let na = actions.len();
            let mut a: usize = 0;
            let ghost out_steps = out@;
            proof {
                assert(render_actions(iv[k as int].actions.take(0)) =~= Seq::<char>::empty());
                assert(out@ + Seq::<char>::empty() =~= out@);
            }
            while a < na
                invariant
                    a <= na,
                    na == actions@.len(),
                    actions.deep_view() == iv[k as int].actions,
                    k < iv.len(),
                    out@ == out_steps + render_actions(iv[k as int].actions.take(a as int)),
                decreases na - a,
            {
                out.append("    ");
                out.append(actions[a].as_str());
                out.push('\n');
                proof {
                    reveal_strlit("    ");
                    assert("    "@ =~= indent4());
                    let av = iv[k as int].actions;
                    assert(actions@[a as int]@ == av[a as int]);
                    assert(av.take(a + 1) =~= av.take(a as int).push(av[a as int]));
                    lemma_render_actions_push(av.take(a as int), av[a as int]);
                }
                a = a + 1;
            }
            proof {
                let av = iv[k as int].actions;
                assert(av.take(na as int) =~= av);
                assert(out@ =~= out_inst + render_instruction(iv[k as int]));
                assert(iv.take(k + 1) =~= iv.take(k as int).push(iv[k as int]));
                lemma_render_instructions_push(iv.take(k as int), iv[k as int]);
                assert(out@ =~= out_entry + render_instructions(iv.take(k + 1)));
            }
            k = k + 1;
        }
        proof {
            assert(iv.take(ni as int) =~= iv);
            assert(ev.take(i + 1) =~= ev.take(i as int).push(ev[i as int]));
            lemma_flat_instructions_push(ev.take(i as int), ev[i as int]);
            lemma_render_instructions_concat(flat_instructions(ev.take(i as int)), iv);
        }
        i = i + 1;
    }
    proof {
        assert(ev.take(ne as int) =~= ev);
    }
    out
}


/// A character that may stand in a label or dependency token: anything but
/// line ends, tabs, carriage returns, colons, spaces and comment markers.
pub open spec fn plain_label_char(c: char) -> bool {
    !comment_marker(c) && c != '\n' && c != '\r' && c != '\t' && c != ':' && c != ' '
}

/// A non-empty token of plain label characters.
pub open spec fn token_ok(t: Seq<char>) -> bool {
    t.len() > 0 && forall|j: int| 0 <= j < t.len() ==> plain_label_char(#[trigger] t[j])
}

/// A step that the canonical grammar can carry: non-empty, free of line
/// ends, tabs and carriage returns, not opening with a comment marker or a
/// space, and not ending in a space.
pub open spec fn action_ok(a: Seq<char>) -> bool {
    &&& a.len() > 0
    &&& forall|j: int|
        0 <= j < a.len() ==> (#[trigger] a[j]) != '\n' && a[j] != '\r' && a[j] != '\t'
    &&& !comment_marker(a[0])
    &&& a[0] != ' '
    &&& a[a.len() - 1] != ' '
}

/// An instruction the canonical grammar can carry.
pub open spec fn instruction_ok(i: InstructionView) -> bool {
    &&& token_ok(i.label)
    &&& forall|j: int| 0 <= j < i.deps.len() ==> token_ok(#[trigger] i.deps[j])
    &&& forall|j: int| 0 <= j < i.actions.len() ==> action_ok(#[trigger] i.actions[j])
}

/// A recipe the canonical grammar can carry: well-formed, built from the
/// grammar subset alone (no source path, no ingredients), every
/// instruction renderable.
pub open spec fn renderable(r: RecipeView) -> bool {
    &&& r.wf()
    &&& r.path is None
    &&& r.ings.len() == 0
    &&& forall|i: int, k: int|
        #![trigger r.entries[i].instructions[k]]
        0 <= i < r.entries.len() && 0 <= k < r.entries[i].instructions.len() ==> instruction_ok(
            r.entries[i].instructions[k],
        )
}

/// The parser stands at the start of a line, with nothing buffered.
pub open spec fn at_line_start(st: ParseState) -> bool {
    &&& !st.in_dep
    &&& !st.in_step
    &&& !st.in_comment
    &&& st.indent == 0
    &&& st.pending_label.len() == 0
    &&& st.pending_dep.len() == 0
    &&& st.pending_step.len() == 0
}

/// Label characters at indentation 0 accumulate into the pending label.
proof fn lemma_run_label_chars(st: ParseState, t: Seq<char>)
    requires
        !st.in_dep,
        !st.in_step,
        !st.in_comment,
        st.indent == 0,
        forall|j: int| 0 <= j < t.len() ==> plain_label_char(#[trigger] t[j]),
    ensures
        parse_run(st, t) == Ok::<ParseState, ParseErrorView>(
            ParseState {
                pending_label: st.pending_label + t,
                column: st.column + t.len(),
                offset: st.offset + t.len(),
                ..st
            },
        ),
    decreases t.len(),
{
    if t.len() == 0 {
        assert(st.pending_label + t =~= st.pending_label);
        assert(ParseState {
            pending_label: st.pending_label + t,
            column: st.column + t.len(),
            offset: st.offset + t.len(),
            ..st
        } == st);
    } else {
        let c = t[0];
        assert(plain_label_char(c));
        let st1 = ParseState {
            pending_label: st.pending_label.push(c),
            column: st.column + 1,
            offset: st.offset + 1,
            ..st
        };
        assert(parse_step(st, c) == Ok::<ParseState, ParseErrorView>(st1));
        assert(forall|j: int|
            0 <= j < t.skip(1).len() ==> plain_label_char(#[trigger] t.skip(1)[j]));
        lemma_run_label_chars(st1, t.skip(1));
        assert(st.pending_label.push(c) + t.skip(1) =~= st.pending_label + t);
    }
}

/// Token characters in dependency-list mode accumulate into the pending
/// dependency.
proof fn lemma_run_dep_chars(st: ParseState, t: Seq<char>)
    requires
        st.in_dep,
        !st.in_step,
        !st.in_comment,
        forall|j: int| 0 <= j < t.len() ==> plain_label_char(#[trigger] t[j]),
    ensures
        parse_run(st, t) == Ok::<ParseState, ParseErrorView>(
            ParseState {
                pending_dep: st.pending_dep + t,
                column: st.column + t.len(),
                offset: st.offset + t.len(),
                ..st
            },
        ),
    decreases t.len(),
{
    if t.len() == 0 {
        assert(st.pending_dep + t =~= st.pending_dep);
        assert(ParseState {
            pending_dep: st.pending_dep + t,
            column: st.column + t.len(),
            offset: st.offset + t.len(),
            ..st
        } == st);
    } else {
        let c = t[0];
        let st1 = ParseState {
            pending_dep: st.pending_dep.push(c),
            column: st.column + 1,
            offset: st.offset + 1,
            ..st
        };
        assert(parse_step(st, c) == Ok::<ParseState, ParseErrorView>(st1));
        assert(forall|j: int|
            0 <= j < t.skip(1).len() ==> plain_label_char(#[trigger] t.skip(1)[j]));
        lemma_run_dep_chars(st1, t.skip(1));
        assert(st.pending_dep.push(c) + t.skip(1) =~= st.pending_dep + t);
    }
}

/// Step characters in step mode accumulate into the pending step.
proof fn lemma_run_step_chars(st: ParseState, t: Seq<char>)
    requires
        st.in_step,
        !st.in_dep,
        !st.in_comment,
        forall|j: int|
            0 <= j < t.len() ==> (#[trigger] t[j]) != '\n' && t[j] != '\r' && t[j] != '\t',
    ensures
        parse_run(st, t) == Ok::<ParseState, ParseErrorView>(
            ParseState {
                pending_step: st.pending_step + t,
                column: st.column + t.len(),
                offset: st.offset + t.len(),
                ..st
            },
        ),
    decreases t.len(),
{
    if t.len() == 0 {
        assert(st.pending_step + t =~= st.pending_step);
        assert(ParseState {
            pending_step: st.pending_step + t,
            column: st.column + t.len(),
            offset: st.offset + t.len(),
            ..st
        } == st);
    } else {
        let c = t[0];
        let st1 = ParseState {
            pending_step: st.pending_step.push(c),
            column: st.column + 1,
            offset: st.offset + 1,
            ..st
        };
        assert(parse_step(st, c) == Ok::<ParseState, ParseErrorView>(st1));
        assert(forall|j: int|
            0 <= j < t.skip(1).len() ==> (#[trigger] t.skip(1)[j]) != '\n' && t.skip(1)[j] != '\r'
                && t.skip(1)[j] != '\t');
        lemma_run_step_chars(st1, t.skip(1));
        assert(st.pending_step.push(c) + t.skip(1) =~= st.pending_step + t);
    }
}

/// A pending dependency token, or nothing when the buffer is empty.
pub open spec fn maybe_token(p: Seq<char>) -> Seq<Seq<char>> {
    if p.len() > 0 {
        seq![p]
    } else {
        Seq::empty()
    }
}

/// A rendered dependency list, read in dependency-list mode: each token
/// before the last is flushed by the space that follows it; the last stays
/// pending for the line end.
proof fn lemma_run_deps(st: ParseState, deps: Seq<Seq<char>>)
    requires
        st.in_dep,
        !st.in_step,
        !st.in_comment,
        forall|m: int| 0 <= m < deps.len() ==> token_ok(#[trigger] deps[m]),
    ensures
        parse_run(st, render_deps(deps)) matches Ok(st2) && {
            &&& st2.done == st.done
            &&& st2.have_block == st.have_block
            &&& st2.pending_label == st.pending_label
            &&& st2.pending_step == st.pending_step
            &&& st2.in_dep
            &&& !st2.in_step
            &&& !st2.in_comment
            &&& st2.indent == st.indent
            &&& st2.cur == if deps.len() == 0 {
                st.cur
            } else {
                InstructionView {
                    deps: st.cur.deps + maybe_token(st.pending_dep) + deps.drop_last(),
                    ..st.cur
                }
            }
            &&& st2.pending_dep == if deps.len() == 0 {
                st.pending_dep
            } else {
                deps.last()
            }
        },
    decreases deps.len(),
{
    if deps.len() == 0 {
        assert(render_deps(deps) =~= Seq::<char>::empty());
    } else {
        let a = seq![' '];
        let b = deps[0];
        let c = render_deps(deps.skip(1));
        assert(render_deps(deps) == a + b + c);
        // the flushing space
        let st1 = if st.pending_dep.len() > 0 {
            ParseState {
                cur: InstructionView { deps: st.cur.deps.push(st.pending_dep), ..st.cur },
                pending_dep: Seq::empty(),
                column: st.column + 1,
                offset: st.offset + 1,
                ..st
            }
        } else {
            ParseState { column: st.column + 1, offset: st.offset + 1, ..st }
        };
        assert(a[0] == ' ');
        assert(parse_step(st, ' ') == Ok::<ParseState, ParseErrorView>(st1));
        assert(a.skip(1) =~= Seq::<char>::empty());
        assert(parse_run(st1, Seq::<char>::empty()) == Ok::<ParseState, ParseErrorView>(st1));
        assert(parse_run(st, a) == Ok::<ParseState, ParseErrorView>(st1));
        // the token's characters
        assert(token_ok(b));
        lemma_run_dep_chars(st1, b);
        let st2 = ParseState {
            pending_dep: st1.pending_dep + b,
            column: st1.column + b.len(),
            offset: st1.offset + b.len(),
            ..st1
        };
        assert(st2.pending_dep =~= b);
        // the rest of the list
        assert(forall|m: int| 0 <= m < deps.skip(1).len() ==> token_ok(#[trigger] deps.skip(1)[m]));
        lemma_run_deps(st2, deps.skip(1));
        lemma_parse_run_concat(st, a, b);
        lemma_parse_run_concat(st, a + b, c);
        assert((a + b) + c =~= render_deps(deps));
        let st3 = (match parse_run(st2, c) {
            Ok(x) => x,
            Err(_) => st2,
        });
        assert(parse_run(st, render_deps(deps)) == Ok::<ParseState, ParseErrorView>(st3));
        if deps.skip(1).len() == 0 {
            assert(st3 == st2);
            assert(deps.drop_last() =~= Seq::<Seq<char>>::empty());
            assert(st.cur.deps + maybe_token(st.pending_dep) + deps.drop_last() =~= st.cur.deps
                + maybe_token(st.pending_dep));
            if st.pending_dep.len() > 0 {
                assert(st.cur.deps + maybe_token(st.pending_dep) =~= st.cur.deps.push(
                    st.pending_dep,
                ));
                assert(st2.cur == InstructionView {
                    deps: st.cur.deps + maybe_token(st.pending_dep) + deps.drop_last(),
                    ..st.cur
                });
            } else {
                assert(st.cur.deps + maybe_token(st.pending_dep) =~= st.cur.deps);
                assert(st2.cur == st.cur);
                assert(st2.cur == InstructionView {
                    deps: st.cur.deps + maybe_token(st.pending_dep) + deps.drop_last(),
                    ..st.cur
                }) by {
                    assert(st.cur == InstructionView { deps: st.cur.deps, ..st.cur });
                }
            }
            assert(st3.pending_dep == deps.last());
        } else {
            assert(st3.cur == InstructionView {
                deps: st2.cur.deps + maybe_token(st2.pending_dep) + deps.skip(1).drop_last(),
                ..st2.cur
            });
            assert(maybe_token(st2.pending_dep) =~= seq![deps[0]]);
            if st.pending_dep.len() > 0 {
                assert(st2.cur.deps =~= st.cur.deps.push(st.pending_dep));
            } else {
                assert(st2.cur.deps =~= st.cur.deps);
            }
            assert(st2.cur.deps + maybe_token(st2.pending_dep) + deps.skip(1).drop_last()
                =~= st.cur.deps + maybe_token(st.pending_dep) + deps.drop_last()) by {
                assert(deps.drop_last() =~= seq![deps[0]] + deps.skip(1).drop_last());
            }
            assert(st3.pending_dep == deps.skip(1).last());
            assert(deps.skip(1).last() == deps.last());
        }
    }
}


/// Spaces outside any mode only deepen the indentation.
proof fn lemma_run_spaces(st: ParseState, t: Seq<char>)
    requires
        !st.in_dep,
        !st.in_step,
        !st.in_comment,
        forall|j: int| 0 <= j < t.len() ==> (#[trigger] t[j]) == ' ',
    ensures
        parse_run(st, t) == Ok::<ParseState, ParseErrorView>(
            ParseState {
                indent: st.indent + t.len(),
                column: st.column + t.len(),
                offset: st.offset + t.len(),
                ..st
            },
        ),
    decreases t.len(),
{
    if t.len() == 0 {
        assert(ParseState {
            indent: st.indent + t.len(),
            column: st.column + t.len(),
            offset: st.offset + t.len(),
            ..st
        } == st);
    } else {
        assert(t[0] == ' ');
        let st1 = ParseState {
            indent: st.indent + 1,
            column: st.column + 1,
            offset: st.offset + 1,
            ..st
        };
        assert(parse_step(st, ' ') == Ok::<ParseState, ParseErrorView>(st1));
        assert(forall|j: int| 0 <= j < t.skip(1).len() ==> (#[trigger] t.skip(1)[j]) == ' ');
        lemma_run_spaces(st1, t.skip(1));
    }
}

/// One rendered step line, read from a line start: the step becomes one
/// action of the current instruction, and the parser stands at a line
/// start again.
proof fn lemma_run_action_line(st: ParseState, a: Seq<char>)
    requires
        at_line_start(st),
        action_ok(a),
    ensures
        parse_run(st, indent4() + a + seq!['\n']) matches Ok(st2) && {
            &&& st2.done == st.done
            &&& st2.cur == (InstructionView { actions: st.cur.actions.push(a), ..st.cur })
            &&& st2.have_block == st.have_block
            &&& st2.pending_label == st.pending_label
            &&& at_line_start(st2)
        },
{
    let sp = indent4();
    let nl = seq!['\n'];
    assert(forall|j: int| 0 <= j < sp.len() ==> (#[trigger] sp[j]) == ' ');
    lemma_run_spaces(st, sp);
    let st1 = ParseState {
        indent: st.indent + 4,
        column: st.column + 4,
        offset: st.offset + 4,
        ..st
    };
    assert(parse_run(st, sp) == Ok::<ParseState, ParseErrorView>(st1));
    // the first step character enters step mode
    let c0 = a[0];
    let st2 = ParseState {
        in_step: true,
        pending_step: st1.pending_step.push(c0),
        column: st1.column + 1,
        offset: st1.offset + 1,
        ..st1
    };
    assert(parse_step(st1, c0) == Ok::<ParseState, ParseErrorView>(st2));
    // the remaining step characters accumulate
    let rest = a.skip(1);
    assert(forall|j: int|
        0 <= j < rest.len() ==> (#[trigger] rest[j]) != '\n' && rest[j] != '\r' && rest[j]
            != '\t');
    lemma_run_step_chars(st2, rest);
    let st3 = ParseState {
        pending_step: st2.pending_step + rest,
        column: st2.column + rest.len(),
        offset: st2.offset + rest.len(),
        ..st2
    };
    assert(st3.pending_step =~= a);
    assert(parse_run(st2, rest) == Ok::<ParseState, ParseErrorView>(st3));
    // compose the space run, the first character and the rest
    lemma_parse_run_concat(st, sp, seq![c0]);
    assert(seq![c0].skip(1) =~= Seq::<char>::empty());
    assert(parse_run(st2, Seq::<char>::empty()) == Ok::<ParseState, ParseErrorView>(st2));
    assert(parse_run(st1, seq![c0]) == Ok::<ParseState, ParseErrorView>(st2));
    assert(parse_run(st, sp + seq![c0]) == Ok::<ParseState, ParseErrorView>(st2));
    lemma_parse_run_concat(st, sp + seq![c0], rest);
    assert(sp + seq![c0] + rest =~= sp + a);
    assert(parse_run(st, sp + a) == Ok::<ParseState, ParseErrorView>(st3));
    // the newline flushes the trimmed step
    assert(st3.in_step && st3.pending_step.len() > 0);
    assert(!st3.in_dep);
    crate::text::lemma_trim_spaces_noop(a);
    assert(trim_spaces(st3.pending_step) == a);
    let f = flush_line(st3);
    assert(f.cur == (InstructionView { actions: st.cur.actions.push(a), ..st.cur }));
    let st4 = ParseState {
        pending_dep: Seq::empty(),
        pending_step: Seq::empty(),
        in_dep: false,
        in_step: false,
        in_comment: false,
        indent: 0,
        line: st3.line + 1,
        column: 1,
        offset: st3.offset + 1,
        ..f
    };
    assert(parse_step(st3, '\n') == Ok::<ParseState, ParseErrorView>(st4));
    lemma_parse_run_concat(st, sp + a, nl);
    assert(nl[0] == '\n');
    assert(nl.skip(1) =~= Seq::<char>::empty());
    assert(parse_run(st4, Seq::<char>::empty()) == Ok::<ParseState, ParseErrorView>(st4));
    assert(parse_run(st3, nl) == Ok::<ParseState, ParseErrorView>(st4));
    assert(sp + a + nl =~= (sp + a) + nl);
    assert(parse_run(st, sp + a + nl) == Ok::<ParseState, ParseErrorView>(st4));
}

/// A rendered step list, read from a line start: every step becomes one
/// action, in order.
proof fn lemma_run_actions(st: ParseState, actions: Seq<Seq<char>>)
    requires
        at_line_start(st),
        forall|m: int| 0 <= m < actions.len() ==> action_ok(#[trigger] actions[m]),
    ensures
        parse_run(st, render_actions(actions)) matches Ok(st2) && {
            &&& st2.done == st.done
            &&& st2.cur == (InstructionView { actions: st.cur.actions + actions, ..st.cur })
            &&& st2.have_block == st.have_block
            &&& st2.pending_label == st.pending_label
            &&& at_line_start(st2)
        },
    decreases actions.len(),
{
    if actions.len() == 0 {
        assert(render_actions(actions) =~= Seq::<char>::empty());
        assert(st.cur.actions + actions =~= st.cur.actions);
        assert(st.cur == (InstructionView { actions: st.cur.actions + actions, ..st.cur }));
    } else {
        let line0 = indent4() + actions[0] + seq!['\n'];
        let rest = render_actions(actions.skip(1));
        assert(render_actions(actions) == line0 + rest) by {
            assert(render_actions(actions) == indent4() + actions[0] + seq!['\n']
                + render_actions(actions.skip(1)));
            assert(indent4() + actions[0] + seq!['\n'] + render_actions(actions.skip(1)) =~= (
            indent4() + actions[0] + seq!['\n']) + render_actions(actions.skip(1)));
        }
        lemma_run_action_line(st, actions[0]);
        let st1 = (match parse_run(st, line0) {
            Ok(x) => x,
            Err(_) => st,
        });
        assert(forall|m: int|
            0 <= m < actions.skip(1).len() ==> action_ok(#[trigger] actions.skip(1)[m]));
        lemma_run_actions(st1, actions.skip(1));
        lemma_parse_run_concat(st, line0, rest);
        let st2 = (match parse_run(st1, rest) {
            Ok(x) => x,
            Err(_) => st1,
        });
        assert(st2.cur == (InstructionView { actions: st1.cur.actions + actions.skip(1), ..st1.cur }));
        assert(st1.cur.actions + actions.skip(1) =~= st.cur.actions + actions) by {
            assert(st1.cur.actions == st.cur.actions.push(actions[0]));
        }
    }
}

/// One rendered target block, read from a line start: the previous open
/// block (if any) is finished, and the block's instruction becomes the
/// open one.
proof fn lemma_run_block(st: ParseState, i: InstructionView)
    requires
        at_line_start(st),
        instruction_ok(i),
    ensures
        parse_run(st, render_instruction(i)) matches Ok(st2) && {
            &&& st2.done == if st.have_block {
                st.done.push(st.cur)
            } else {
                st.done
            }
            &&& st2.cur == i
            &&& st2.have_block
            &&& st2.pending_label == st.pending_label
            &&& at_line_start(st2)
        },
{
    let lab = i.label;
    let col = seq![':'];
    let dps = render_deps(i.deps);
    let nl = seq!['\n'];
    let acts = render_actions(i.actions);
    // the label characters
    lemma_run_label_chars(st, lab);
    let st1 = ParseState {
        pending_label: st.pending_label + lab,
        column: st.column + lab.len(),
        offset: st.offset + lab.len(),
        ..st
    };
    assert(st1.pending_label =~= lab);
    // the colon opens the block
    let st2 = ParseState {
        done: if st1.have_block {
            st1.done.push(st1.cur)
        } else {
            st1.done
        },
        cur: InstructionView { label: st1.pending_label, actions: Seq::empty(), deps: Seq::empty() },
        have_block: true,
        pending_label: Seq::empty(),
        in_dep: true,
        column: st1.column + 1,
        offset: st1.offset + 1,
        ..st1
    };
    assert(parse_step(st1, ':') == Ok::<ParseState, ParseErrorView>(st2));
    lemma_parse_run_concat(st, lab, col);
    assert(col[0] == ':');
    assert(col.skip(1) =~= Seq::<char>::empty());
    assert(parse_run(st2, Seq::<char>::empty()) == Ok::<ParseState, ParseErrorView>(st2));
    assert(parse_run(st1, col) == Ok::<ParseState, ParseErrorView>(st2));
    assert(parse_run(st, lab + col) == Ok::<ParseState, ParseErrorView>(st2));
    // the dependency list
    lemma_run_deps(st2, i.deps);
    let st3 = (match parse_run(st2, dps) {
        Ok(x) => x,
        Err(_) => st2,
    });
    lemma_parse_run_concat(st, lab + col, dps);
    assert(lab + col + dps =~= (lab + col) + dps);
    assert(parse_run(st, lab + col + dps) == Ok::<ParseState, ParseErrorView>(st3));
    // the newline flushes the last dependency token
    let f = flush_line(st3);
    assert(f.cur.deps =~= i.deps) by {
        if i.deps.len() == 0 {
            assert(st3.cur == st2.cur);
            assert(st3.pending_dep == st2.pending_dep);
            assert(st2.pending_dep.len() == 0);
        } else {
            assert(st3.pending_dep == i.deps.last());
            assert(token_ok(i.deps.last()));
            assert(st3.pending_dep.len() > 0);
            assert(st3.cur.deps =~= i.deps.drop_last()) by {
                assert(st3.cur == (InstructionView {
                    deps: st2.cur.deps + maybe_token(st2.pending_dep) + i.deps.drop_last(),
                    ..st2.cur
                }));
                assert(st2.cur.deps + maybe_token(st2.pending_dep) + i.deps.drop_last()
                    =~= i.deps.drop_last());
            }
            assert(f.cur.deps == st3.cur.deps.push(st3.pending_dep));
            assert(i.deps.drop_last().push(i.deps.last()) =~= i.deps);
        }
    }
    assert(f.cur.label == i.label);
    assert(f.cur.actions =~= Seq::<Seq<char>>::empty());
    assert(f.done == st2.done && f.have_block && f.pending_label =~= Seq::<char>::empty());
    let st4 = ParseState {
        pending_dep: Seq::empty(),
        pending_step: Seq::empty(),
        in_dep: false,
        in_step: false,
        in_comment: false,
        indent: 0,
        line: st3.line + 1,
        column: 1,
        offset: st3.offset + 1,
        ..f
    };
    assert(parse_step(st3, '\n') == Ok::<ParseState, ParseErrorView>(st4));
    lemma_parse_run_concat(st, lab + col + dps, nl);
    assert(nl[0] == '\n');
    assert(nl.skip(1) =~= Seq::<char>::empty());
    assert(parse_run(st4, Seq::<char>::empty()) == Ok::<ParseState, ParseErrorView>(st4));
    assert(parse_run(st3, nl) == Ok::<ParseState, ParseErrorView>(st4));
    assert(lab + col + dps + nl =~= (lab + col + dps) + nl);
    assert(parse_run(st, lab + col + dps + nl) == Ok::<ParseState, ParseErrorView>(st4));
    // the step lines
    assert(at_line_start(st4));
    lemma_run_actions(st4, i.actions);
    let st5 = (match parse_run(st4, acts) {
        Ok(x) => x,
        Err(_) => st4,
    });
    lemma_parse_run_concat(st, lab + col + dps + nl, acts);
    assert(render_instruction(i) =~= (lab + col + dps + nl) + acts);
    assert(parse_run(st, render_instruction(i)) == Ok::<ParseState, ParseErrorView>(st5));
    assert(st5.cur == i) by {
        assert(st5.cur == (InstructionView { actions: st4.cur.actions + i.actions, ..st4.cur }));
        assert(st4.cur.actions + i.actions =~= i.actions);
        assert(st4.cur.label == i.label);
        assert(st4.cur.deps == i.deps);
        assert(i == (InstructionView { label: i.label, actions: i.actions, deps: i.deps }));
    }
    assert(st5.done == st2.done);
}

/// A rendered list of target blocks, read from a line start: all but the
/// last join the finished instructions, and the last stays open.
proof fn lemma_run_blocks(st: ParseState, insts: Seq<InstructionView>)
    requires
        at_line_start(st),
        forall|m: int| 0 <= m < insts.len() ==> instruction_ok(#[trigger] insts[m]),
    ensures
        parse_run(st, render_instructions(insts)) matches Ok(st2) && {
            &&& st2.done == if insts.len() == 0 {
                st.done
            } else if st.have_block {
                st.done.push(st.cur) + insts.drop_last()
            } else {
                st.done + insts.drop_last()
            }
            &&& st2.cur == if insts.len() == 0 {
                st.cur
            } else {
                insts.last()
            }
            &&& st2.have_block == (st.have_block || insts.len() > 0)
            &&& st2.pending_label == st.pending_label
            &&& at_line_start(st2)
        },
    decreases insts.len(),
{
    if insts.len() == 0 {
        assert(render_instructions(insts) =~= Seq::<char>::empty());
    } else {
        let block0 = render_instruction(insts[0]);
        let rest = render_instructions(insts.skip(1));
        assert(render_instructions(insts) == block0 + rest);
        lemma_run_block(st, insts[0]);
        let st1 = (match parse_run(st, block0) {
            Ok(x) => x,
            Err(_) => st,
        });
        assert(forall|m: int|
            0 <= m < insts.skip(1).len() ==> instruction_ok(#[trigger] insts.skip(1)[m]));
        lemma_run_blocks(st1, insts.skip(1));
        lemma_parse_run_concat(st, block0, rest);
        let st2 = (match parse_run(st1, rest) {
            Ok(x) => x,
            Err(_) => st1,
        });
        if insts.skip(1).len() == 0 {
            assert(st2.done == st1.done);
            assert(insts.drop_last() =~= Seq::<InstructionView>::empty());
            if st.have_block {
                assert(st.done.push(st.cur) + insts.drop_last() =~= st.done.push(st.cur));
            } else {
                assert(st.done + insts.drop_last() =~= st.done);
            }
            assert(st2.cur == insts.last());
        } else {
            assert(st2.done == st1.done.push(st1.cur) + insts.skip(1).drop_last());
            assert(st1.cur == insts[0]);
            if st.have_block {
                assert(st1.done == st.done.push(st.cur));
                assert(st.done.push(st.cur).push(insts[0]) + insts.skip(1).drop_last()
                    =~= st.done.push(st.cur) + insts.drop_last()) by {
                    assert(insts.drop_last() =~= seq![insts[0]] + insts.skip(1).drop_last());
                    assert(st.done.push(st.cur).push(insts[0]) =~= st.done.push(st.cur) + seq![
                        insts[0],
                    ]);
                    assert((st.done.push(st.cur) + seq![insts[0]]) + insts.skip(1).drop_last()
                        =~= st.done.push(st.cur) + (seq![insts[0]] + insts.skip(1).drop_last()));
                }
            } else {
                assert(st1.done == st.done);
                assert(st.done.push(insts[0]) + insts.skip(1).drop_last() =~= st.done
                    + insts.drop_last()) by {
                    assert(insts.drop_last() =~= seq![insts[0]] + insts.skip(1).drop_last());
                    assert(st.done.push(insts[0]) =~= st.done + seq![insts[0]]);
                    assert((st.done + seq![insts[0]]) + insts.skip(1).drop_last() =~= st.done + (
                    seq![insts[0]] + insts.skip(1).drop_last()));
                }
            }
            assert(st2.cur == insts.skip(1).last());
            assert(insts.skip(1).last() == insts.last());
        }
    }
}


/// Folding instructions into a recipe goes part by part.
proof fn lemma_fold_concat(rv: RecipeView, a: Seq<InstructionView>, b: Seq<InstructionView>)
    ensures
        fold_instructions(rv, a + b) == fold_instructions(fold_instructions(rv, a), b),
    decreases a.len(),
{
    if a.len() == 0 {
        assert(a + b =~= b);
    } else {
        assert((a + b)[0] == a[0]);
        assert((a + b).skip(1) =~= a.skip(1) + b);
        lemma_fold_concat(add_instruction_view(rv, a[0]), a.skip(1), b);
    }
}

/// Folding instructions that all bear the last entry's label appends them
/// to that entry.
proof fn lemma_fold_append_last(rv: RecipeView, insts: Seq<InstructionView>, lab: Seq<char>)
    requires
        rv.entries.len() > 0,
        rv.entries.last().label == lab,
        forall|j: int| 0 <= j < rv.entries.len() - 1 ==> (#[trigger] rv.entries[j]).label != lab,
        forall|m: int| 0 <= m < insts.len() ==> (#[trigger] insts[m]).label == lab,
    ensures
        fold_instructions(rv, insts) == (RecipeView {
            entries: rv.entries.update(
                rv.entries.len() - 1,
                EntryView {
                    label: lab,
                    instructions: rv.entries.last().instructions + insts,
                },
            ),
            ..rv
        }),
    decreases insts.len(),
{
    let last = rv.entries.len() - 1;
    if insts.len() == 0 {
        assert(rv.entries.last().instructions + insts =~= rv.entries.last().instructions);
        assert(EntryView {
            label: lab,
            instructions: rv.entries.last().instructions + insts,
        } == rv.entries[last]);
        assert(rv.entries.update(last, rv.entries[last]) =~= rv.entries);
        assert((RecipeView { entries: rv.entries, ..rv }) == rv);
    } else {
        let i0 = insts[0];
        assert(i0.label == lab);
        lemma_decl_index_of_first(rv.entries, lab, last);
        let rv1 = add_instruction_view(rv, i0);
        assert(rv1.entries == rv.entries.update(
            last,
            EntryView {
                label: lab,
                instructions: rv.entries.last().instructions.push(i0),
            },
        )) by {
            assert(rv.entries[last].label == lab);
            assert(EntryView {
                label: rv.entries[last].label,
                instructions: rv.entries[last].instructions.push(i0),
            } == EntryView {
                label: lab,
                instructions: rv.entries.last().instructions.push(i0),
            });
        }
        assert(rv1.entries.len() == rv.entries.len());
        assert(rv1.entries.last().label == lab);
        assert(forall|j: int|
            0 <= j < rv1.entries.len() - 1 ==> (#[trigger] rv1.entries[j]).label != lab) by {
            assert(forall|j: int|
                0 <= j < rv.entries.len() - 1 ==> rv1.entries[j] == #[trigger] rv.entries[j]);
        }
        assert(forall|m: int|
            0 <= m < insts.skip(1).len() ==> (#[trigger] insts.skip(1)[m]).label == lab);
        lemma_fold_append_last(rv1, insts.skip(1), lab);
        assert(fold_instructions(rv, insts) == fold_instructions(rv1, insts.skip(1)));
        assert(rv1.entries.update(
            last,
            EntryView {
                label: lab,
                instructions: rv1.entries.last().instructions + insts.skip(1),
            },
        ) =~= rv.entries.update(
            last,
            EntryView { label: lab, instructions: rv.entries.last().instructions + insts },
        )) by {
            assert(rv1.entries.last().instructions =~= rv.entries.last().instructions.push(i0));
            assert(rv.entries.last().instructions.push(i0) + insts.skip(1)
                =~= rv.entries.last().instructions + insts);
        }
        assert(rv1.path == rv.path && rv1.ings == rv.ings);
    }
}

/// Folding the flattened instructions of fresh, distinct entries appends
/// exactly those entries.
proof fn lemma_fold_flat(rv: RecipeView, rest: Seq<EntryView>)
    requires
        forall|m: int| 0 <= m < rest.len() ==> (#[trigger] rest[m]).instructions.len() > 0,
        forall|m: int, k: int|
            #![trigger rest[m].instructions[k]]
            0 <= m < rest.len() && 0 <= k < rest[m].instructions.len() ==> rest[
            m].instructions[k].label == rest[m].label,
        forall|j: int, m: int|
            #![trigger rv.entries[j], rest[m]]
            0 <= j < rv.entries.len() && 0 <= m < rest.len() ==> rv.entries[j].label != rest[
            m].label,
        forall|m: int, mm: int|
            #![trigger rest[m], rest[mm]]
            0 <= m < mm < rest.len() ==> rest[m].label != rest[mm].label,
    ensures
        fold_instructions(rv, flat_instructions(rest)) == (RecipeView {
            entries: rv.entries + rest,
            ..rv
        }),
    decreases rest.len(),
{
    if rest.len() == 0 {
        assert(flat_instructions(rest) =~= Seq::<InstructionView>::empty());
        assert(rv.entries + rest =~= rv.entries);
        assert((RecipeView { entries: rv.entries + rest, ..rv }) == rv);
    } else {
        let e = rest[0];
        let insts = e.instructions;
        let i0 = insts[0];
        assert(i0.label == e.label);
        assert(flat_instructions(rest) == insts + flat_instructions(rest.skip(1)));
        lemma_fold_concat(rv, insts, flat_instructions(rest.skip(1)));
        // the first instruction opens a fresh entry
        lemma_decl_index_of(rv.entries, i0.label);
        assert(decl_index_of(rv.entries, i0.label) < 0) by {
            if decl_index_of(rv.entries, i0.label) >= 0 {
                assert(rv.entries[decl_index_of(rv.entries, i0.label)].label == e.label);
            }
        }
        let rv1 = add_instruction_view(rv, i0);
        assert(rv1.entries == rv.entries.push(
            EntryView { label: e.label, instructions: seq![i0] },
        ));
        // folding splits into the first instruction and the rest
        assert(insts =~= seq![i0] + insts.skip(1));
        lemma_fold_concat(rv, seq![i0], insts.skip(1));
        assert(fold_instructions(rv, seq![i0]) == rv1) by {
            assert(seq![i0][0] == i0);
            assert(seq![i0].skip(1) =~= Seq::<InstructionView>::empty());
            assert(fold_instructions(rv1, Seq::<InstructionView>::empty()) == rv1);
        }
        // the remaining instructions of this entry append to it
        assert(rv1.entries.len() == rv.entries.len() + 1);
        assert(rv1.entries.last().label == e.label);
        assert(forall|j: int|
            0 <= j < rv1.entries.len() - 1 ==> (#[trigger] rv1.entries[j]).label != e.label) by {
            assert(forall|j: int|
                0 <= j < rv.entries.len() ==> rv1.entries[j] == #[trigger] rv.entries[j]);
        }
        assert(forall|m: int|
            0 <= m < insts.skip(1).len() ==> (#[trigger] insts.skip(1)[m]).label == e.label) by {
            assert(forall|m: int|
                0 <= m < insts.skip(1).len() ==> #[trigger] insts.skip(1)[m] == insts[m + 1]);
        }
        lemma_fold_append_last(rv1, insts.skip(1), e.label);
        let rv2 = fold_instructions(rv1, insts.skip(1));
        assert(rv2.entries =~= rv.entries.push(e)) by {
            assert(rv1.entries.last().instructions =~= seq![i0]);
            assert(seq![i0] + insts.skip(1) =~= insts);
            assert(EntryView { label: e.label, instructions: insts } == e);
            assert(rv1.entries.update(rv1.entries.len() - 1, e) =~= rv.entries.push(e));
        }
        assert(fold_instructions(rv, insts) == rv2);
        // the remaining entries are still fresh and distinct
        assert(forall|j: int, m: int|
            #![trigger rv2.entries[j], rest.skip(1)[m]]
            0 <= j < rv2.entries.len() && 0 <= m < rest.skip(1).len() ==> rv2.entries[j].label
                != rest.skip(1)[m].label) by {
            assert(forall|m: int|
                0 <= m < rest.skip(1).len() ==> #[trigger] rest.skip(1)[m] == rest[m + 1]);
            assert(forall|j: int|
                0 <= j < rv.entries.len() ==> #[trigger] rv2.entries[j] == rv.entries[j]);
            assert(rv2.entries[rv2.entries.len() - 1] == e);
        }
        assert(forall|m: int, mm: int|
            #![trigger rest.skip(1)[m], rest.skip(1)[mm]]
            0 <= m < mm < rest.skip(1).len() ==> rest.skip(1)[m].label != rest.skip(1)[mm].label)
            by {
            assert(forall|m: int|
                0 <= m < rest.skip(1).len() ==> #[trigger] rest.skip(1)[m] == rest[m + 1]);
        }
        assert(forall|m: int|
            0 <= m < rest.skip(1).len() ==> (#[trigger] rest.skip(1)[m]).instructions.len() > 0)
            by {
            assert(forall|m: int|
                0 <= m < rest.skip(1).len() ==> #[trigger] rest.skip(1)[m] == rest[m + 1]);
        }
        assert(forall|m: int, k: int|
            #![trigger rest.skip(1)[m].instructions[k]]
            0 <= m < rest.skip(1).len() && 0 <= k < rest.skip(1)[m].instructions.len()
                ==> rest.skip(1)[m].instructions[k].label == rest.skip(1)[m].label) by {
            assert(forall|m: int|
                0 <= m < rest.skip(1).len() ==> #[trigger] rest.skip(1)[m] == rest[m + 1]);
        }
        lemma_fold_flat(rv2, rest.skip(1));
        assert(rv2.entries + rest.skip(1) =~= rv.entries + rest) by {
            assert(rv2.entries =~= rv.entries.push(e));
        }
        assert(rv2.path == rv.path && rv2.ings == rv.ings);
    }
}

/// Every flattened instruction of renderable entries is renderable, and
/// non-empty entries flatten to a non-empty list.
proof fn lemma_flat_instructions_ok(entries: Seq<EntryView>)
    requires
        forall|i: int, k: int|
            #![trigger entries[i].instructions[k]]
            0 <= i < entries.len() && 0 <= k < entries[i].instructions.len() ==> instruction_ok(
                entries[i].instructions[k],
            ),
        forall|i: int| 0 <= i < entries.len() ==> (#[trigger] entries[i]).instructions.len() > 0,
    ensures
        forall|m: int|
            0 <= m < flat_instructions(entries).len() ==> instruction_ok(
                #[trigger] flat_instructions(entries)[m],
            ),
        entries.len() > 0 ==> flat_instructions(entries).len() > 0,
    decreases entries.len(),
{
    if entries.len() == 0 {
    } else {
        let head = entries[0].instructions;
        let tail = flat_instructions(entries.skip(1));
        assert(flat_instructions(entries) == head + tail);
        assert(forall|i: int, k: int|
            #![trigger entries.skip(1)[i].instructions[k]]
            0 <= i < entries.skip(1).len() && 0 <= k < entries.skip(1)[i].instructions.len()
                ==> instruction_ok(entries.skip(1)[i].instructions[k])) by {
            assert(forall|i: int|
                0 <= i < entries.skip(1).len() ==> #[trigger] entries.skip(1)[i] == entries[i + 1]);
        }
        assert(forall|i: int|
            0 <= i < entries.skip(1).len() ==> (#[trigger] entries.skip(1)[i]).instructions.len()
                > 0) by {
            assert(forall|i: int|
                0 <= i < entries.skip(1).len() ==> #[trigger] entries.skip(1)[i] == entries[i + 1]);
        }
        lemma_flat_instructions_ok(entries.skip(1));
        assert(forall|m: int|
            0 <= m < flat_instructions(entries).len() ==> instruction_ok(
                #[trigger] flat_instructions(entries)[m],
            )) by {
            assert(forall|m: int|
                0 <= m < head.len() ==> #[trigger] flat_instructions(entries)[m] == entries[
                0].instructions[m]);
            assert(forall|m: int|
                head.len() <= m < flat_instructions(entries).len()
                    ==> #[trigger] flat_instructions(entries)[m] == tail[m - head.len()]);
        }
    }
}

/// Law: parsing the canonical re-serialization of a recipe built only from
/// the documented grammar subset yields that recipe back.
pub proof fn lemma_parse_render_roundtrip(r: RecipeView)
    requires
        renderable(r),
    ensures
        parse_text(render_view(r)) == Ok::<RecipeView, ParseErrorView>(r),
{
    let flat = flat_instructions(r.entries);
    lemma_flat_instructions_ok(r.entries);
    let init = init_state();
    assert(at_line_start(init));
    lemma_run_blocks(init, flat);
    if r.entries.len() == 0 {
        assert(flat =~= Seq::<InstructionView>::empty());
        assert(render_view(r) =~= Seq::<char>::empty());
        assert(parse_run(init, render_view(r)) == Ok::<ParseState, ParseErrorView>(init));
        assert(flush_line(init) == init);
        assert(parse_finish(init) =~= Seq::<InstructionView>::empty());
        assert(fold_instructions(blank_recipe_view(), parse_finish(init)) == blank_recipe_view());
        assert(r == blank_recipe_view()) by {
            assert(r.entries =~= Seq::<EntryView>::empty());
            assert(r.ings =~= Seq::<crate::ing::IngredientView>::empty());
        }
    } else {
        assert(flat.len() > 0);
        let st2 = (match parse_run(init, render_instructions(flat)) {
            Ok(x) => x,
            Err(_) => init,
        });
        assert(parse_run(init, render_view(r)) == Ok::<ParseState, ParseErrorView>(st2));
        assert(st2.done =~= flat.drop_last()) by {
            assert(st2.done == init.done + flat.drop_last());
            assert(init.done + flat.drop_last() =~= flat.drop_last());
        }
        assert(st2.cur == flat.last());
        assert(st2.have_block);
        assert(flush_line(st2) == st2);
        assert(parse_finish(st2) == st2.done.push(st2.cur));
        assert(parse_finish(st2) =~= flat);
        lemma_fold_flat(blank_recipe_view(), r.entries);
        assert(fold_instructions(blank_recipe_view(), flat) == (RecipeView {
            entries: blank_recipe_view().entries + r.entries,
            ..blank_recipe_view()
        }));
        assert(blank_recipe_view().entries + r.entries =~= r.entries);
        assert(fold_instructions(blank_recipe_view(), parse_finish(st2)) == r) by {
            assert(r.ings =~= Seq::<crate::ing::IngredientView>::empty());
            assert(r == (RecipeView { path: None, entries: r.entries, ings: r.ings }));
        }
    }
}

} // verus!
