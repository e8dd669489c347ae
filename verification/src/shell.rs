//! The line-editing state machine of the interactive loop, and the
//! operations it triggers: tokenizing the buffer, resolving and dispatching
//! a typed path, and suggesting the next path segments.
use vstd::prelude::*;
use vstd::string::*;
use crate::command::Action;
use crate::tree::{path_names, CommandNode, NodeView, Outcome};

verus! {

/// The whitespace that separates path segments.
pub open spec fn is_space(c: char) -> bool {
    c == ' ' || c == '\t' || c == '\n' || c == '\r'
}

/// The length of the leading run of non-space characters.
pub open spec fn word_end(s: Seq<char>) -> int
    decreases s.len(),
{
    if s.len() == 0 || is_space(s[0]) {
        0
    } else {
        1 + word_end(s.drop_first())
    }
}

/// [`word_end`] stays within the sequence.
pub proof fn lemma_word_end_le(s: Seq<char>)
    ensures
        0 <= word_end(s) <= s.len(),
    decreases s.len(),
{
    if !(s.len() == 0 || is_space(s[0])) {
        lemma_word_end_le(s.drop_first());
    }
}

/// [`word_end`] is the position of the first space, or the length when
/// there is none.
pub proof fn lemma_word_end_at(s: Seq<char>, i: int)
    requires
        0 <= i <= s.len(),
        forall|j: int| 0 <= j < i ==> !is_space(s[j]),
        i == s.len() || is_space(s[i]),
    ensures
        word_end(s) == i,
    decreases i,
{
    if i == 0 {
    } else {
        assert(!is_space(s[0]));
        assert forall|j: int| 0 <= j < i - 1 implies !is_space(s.drop_first()[j]) by {
            assert(s.drop_first()[j] == s[j + 1]);
        }
        if i < s.len() {
            assert(s.drop_first()[i - 1] == s[i]);
        }
        lemma_word_end_at(s.drop_first(), i - 1);
    }
}

/// The buffer split on whitespace: the sequence of its maximal runs of
/// non-space characters, in order.
pub open spec fn tokens_of(s: Seq<char>) -> Seq<Seq<char>>
    decreases s.len(),
    via tokens_of_decreases
{
    if s.len() == 0 {
        Seq::empty()
    } else if is_space(s[0]) {
        tokens_of(s.drop_first())
    } else {
        seq![s.take(word_end(s))] + tokens_of(s.skip(word_end(s)))
    }
}

#[via_fn]
proof fn tokens_of_decreases(s: Seq<char>) {
    if s.len() > 0 && !is_space(s[0]) {
        lemma_word_end_le(s.drop_first());
        assert(word_end(s) >= 1);
        lemma_word_end_le(s);
    }
}

fn is_space_char(c: char) -> (b: bool)
    ensures
        b == is_space(c),
{
    c == ' ' || c == '\t' || c == '\n' || c == '\r'
}

/// Split `s` on whitespace into its tokens, in order.
pub fn tokenize(s: &str) -> (r: Vec<String>)
    ensures
        path_names(r@) == tokens_of(s@),
    decreases s@.len(),
{
    let n = s.unicode_len();
    if n == 0 {
        let r: Vec<String> = Vec::new();
        proof {
            assert(path_names(r@) =~= tokens_of(s@));
        }
        return r;
    }
    let c0 = s.get_char(0);
    if is_space_char(c0) {
        let rest = s.substring_char(1, n);
        proof {
            assert(rest@ =~= s@.drop_first());
        }
        let r = tokenize(rest);
        proof {
            assert(path_names(r@) == tokens_of(s@.drop_first()));
        }
        return r;
    }
    let mut i: usize = 1;
    let mut end: usize = n;
    while i < n
        invariant
            1 <= i <= n,
            n == s@.len(),
            !is_space(s@[0]),
            end == n || (end < i && is_space(s@[end as int])),
            forall|j: int| 0 <= j < (if end < n { end as int } else { i as int }) ==> !is_space(
                s@[j],
            ),
        decreases n - i,
    {
        if end == n {
            let c = s.get_char(i);
            if is_space_char(c) {
                end = i;
            }
        }
        i += 1;
    }
    proof {
        lemma_word_end_at(s@, end as int);
    }
    let word = s.substring_char(0, end).to_owned();
    let rest = s.substring_char(end, n);
    let rtoks = tokenize(rest);
    let mut toks = rtoks;
    toks.insert(0, word);
    proof {
        let we = word_end(s@);
        assert(rest@ =~= s@.skip(we));
        assert(word@ == s@.take(we));
        assert(tokens_of(s@) == seq![s@.take(we)] + tokens_of(s@.skip(we)));
        assert forall|j: int| 0 <= j < toks@.len() implies path_names(toks@)[j] == tokens_of(
            s@,
        )[j] by {
            if j > 0 {
                assert(path_names(toks@)[j] == toks@[j]@);
                assert(toks@[j] == rtoks@[j - 1]);
                assert(path_names(rtoks@)[j - 1] == rtoks@[j - 1]@);
            }
        }
        assert(path_names(toks@) =~= tokens_of(s@));
    }
    toks
}

/// What resolving and dispatching an input line comes to: the outcome of
/// the dispatcher on the node the tokens designate, or `NotFound`.
pub open spec fn outcome_of<A>(t: NodeView<A>, input: Seq<char>) -> Outcome {
    match t.resolve(tokens_of(input)) {
        Some(n) => if n.action is Some {
            Outcome::Executed
        } else {
            Outcome::NoActionBound
        },
        None => Outcome::NotFound,
    }
}

/// The suggestions for an input line: the names of the direct children of
/// the node its tokens designate, or nothing when no node matches.
pub open spec fn suggestions_of<A>(t: NodeView<A>, input: Seq<char>) -> Option<Seq<Seq<char>>> {
    match t.resolve(tokens_of(input)) {
        Some(n) => Some(n.child_names()),
        None => None,
    }
}

/// Split the input, resolve it against the tree, and dispatch on the node
/// it designates; the whole original input line is the action's argument.
pub fn execute_command<A: Action>(root: &CommandNode<A>, input: &String) -> (r: Outcome)
    requires
        root@.wf(),
    ensures
        r == outcome_of(root@, input@),
{
    let parts = tokenize(input.as_str());
    match crate::tree::find_in_depth(root, &parts) {
        Some(found) => crate::tree::dispatch(found, input),
        None => Outcome::NotFound,
    }
}

/// Split the input, resolve it against the tree, and list the names of the
/// next path segments; `None` when no node matches the input.
pub fn suggest_next_commands<A>(tree: &CommandNode<A>, input: &str) -> (r: Option<Vec<String>>)
    requires
        tree@.wf(),
    ensures
        match r {
            Some(v) => suggestions_of(tree@, input@) == Some(path_names(v@)),
            None => suggestions_of(tree@, input@) is None,
        },
{
    let parts = tokenize(input);
    match crate::tree::find_in_depth(tree, &parts) {
        Some(found) => Some(found.subcommand_names()),
        None => None,
    }
}

/// One logical editing event, as the raw key decoder hands it over.
#[derive(Debug, Clone, Copy, PartialEq, Eq, Structural)]
pub enum InputEvent {
    /// A printable character was typed.
    Char(char),
    Backspace,
    Enter,
    Tab,
    /// An interrupt (for instance Ctrl-C) was received.
    Interrupt,
}

/// What one step of the interactive loop asks the surrounding program to
/// do, beyond the buffer edit already applied.
#[derive(Debug, PartialEq, Eq)]
pub enum StepOutcome {
    /// The buffer changed; echo it.
    Edited,
    /// The names that can extend the current path.
    Suggestions(Vec<String>),
    /// No node matches the current path.
    NoSuggestions,
    /// Print the prompt again.
    Prompt,
    /// The line was resolved and dispatched, with this outcome.
    Dispatched(Outcome),
    /// The loop is over.
    Terminate,
}

/// Relies on String::push: appends one character at the end.
#[verifier::external_body]
fn push_char(s: &mut String, c: char)
    ensures
        final(s)@ == old(s)@.push(c),
{
    s.push(c);
}

/// Relies on String::pop: removes the last character, if any.
#[verifier::external_body]
fn pop_char(s: &mut String)
    ensures
        old(s)@.len() == 0 ==> final(s)@ == old(s)@,
        old(s)@.len() > 0 ==> final(s)@ == old(s)@.drop_last(),
{
    s.pop();
}

/// One step of the interactive loop: apply one editing event to the
/// buffer, performing whatever tree operation the event asks for.
///
/// A typed character is appended and a backspace removes the last
/// character, if any. Tab leaves the buffer alone and suggests the next
/// segments. Enter on a blank buffer only reprints the prompt; on exactly
/// `exit` or `quit` it ends the loop; otherwise the line is resolved and
/// dispatched, with the whole line as the action's argument, and the
/// buffer is cleared. An interrupt clears the buffer.
pub fn loop_step<A: Action>(tree: &CommandNode<A>, buffer: &mut String, event: InputEvent) -> (r:
    StepOutcome)
    requires
        tree@.wf(),
    ensures
        match event {
            InputEvent::Char(c) => final(buffer)@ == old(buffer)@.push(c) && r
                == StepOutcome::Edited,
            InputEvent::Backspace => r == StepOutcome::Edited && final(buffer)@ == (if old(
                buffer,
            )@.len() == 0 {
                old(buffer)@
            } else {
                old(buffer)@.drop_last()
            }),
            InputEvent::Tab => final(buffer)@ == old(buffer)@ && (match suggestions_of(
                tree@,
                old(buffer)@,
            ) {
                Some(names) => r matches StepOutcome::Suggestions(v) && path_names(v@) == names,
                None => r == StepOutcome::NoSuggestions,
            }),
            InputEvent::Enter => (if tokens_of(old(buffer)@).len() == 0 {
                final(buffer)@ == old(buffer)@ && r == StepOutcome::Prompt
            } else if old(buffer)@ == "exit"@ || old(buffer)@ == "quit"@ {
                final(buffer)@ == old(buffer)@ && r == StepOutcome::Terminate
            } else {
                final(buffer)@ == Seq::<char>::empty() && r == StepOutcome::Dispatched(
                    outcome_of(tree@, old(buffer)@),
                )
            }),
            InputEvent::Interrupt => final(buffer)@ == Seq::<char>::empty() && r
                == StepOutcome::Prompt,
        },
{
    match event {
        InputEvent::Char(c) => {
            push_char(buffer, c);
            StepOutcome::Edited
        },
        InputEvent::Backspace => {
            pop_char(buffer);
            StepOutcome::Edited
        },
        InputEvent::Tab => {
            match suggest_next_commands(tree, buffer.as_str()) {
                Some(names) => StepOutcome::Suggestions(names),
                None => StepOutcome::NoSuggestions,
            }
        },
        InputEvent::Enter => {
            let toks = tokenize(buffer.as_str());
            if toks.len() == 0 {
                proof {
                    assert(path_names(toks@).len() == 0);
                }
                return StepOutcome::Prompt;
            }
            proof {
                assert(path_names(toks@).len() == toks@.len());
            }
            let exit_word = "exit".to_owned();
            let quit_word = "quit".to_owned();
            if *buffer == exit_word || *buffer == quit_word {
                return StepOutcome::Terminate;
            }
            let out = execute_command(tree, buffer);
            *buffer = String::new();
            StepOutcome::Dispatched(out)
        },
        InputEvent::Interrupt => {
            *buffer = String::new();
            StepOutcome::Prompt
        },
    }
}

} // verus!
