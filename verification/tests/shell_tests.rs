use std::cell::RefCell;
use std::rc::Rc;

use command_tree::command::{make_commands, Action, Command};
use command_tree::shell::{
    execute_command, loop_step, suggest_next_commands, tokenize, InputEvent, StepOutcome,
};
use command_tree::tree::{build_command_tree, dispatch, find_in_depth, CommandNode, Outcome};

/// A test double for an action: records every invocation.
#[derive(Clone)]
struct Recorder {
    log: Rc<RefCell<Vec<String>>>,
    id: &'static str,
}

impl Recorder {
    fn new(log: &Rc<RefCell<Vec<String>>>, id: &'static str) -> Recorder {
        Recorder { log: Rc::clone(log), id }
    }
}

impl Action for Recorder {
    fn invoke(&self, argument: &String) {
        self.log.borrow_mut().push(format!("{}:{}", self.id, argument));
    }
}

fn standard_tree(log: &Rc<RefCell<Vec<String>>>) -> (CommandNode<Recorder>, Vec<Command<Recorder>>) {
    let specs = make_commands(
        Recorder::new(log, "update"),
        Recorder::new(log, "ack"),
        Recorder::new(log, "table"),
        Recorder::new(log, "command"),
    );
    build_command_tree(specs)
}

fn path(tokens: &[&str]) -> Vec<String> {
    tokens.iter().map(|t| t.to_string()).collect()
}

fn sorted(mut v: Vec<String>) -> Vec<String> {
    v.sort();
    v
}

#[test]
fn build_standard_table_no_orphans() {
    let log = Rc::new(RefCell::new(Vec::new()));
    let (root, orphans) = standard_tree(&log);
    assert_eq!(orphans.len(), 0);
    assert_eq!(root.command, "root");
    assert_eq!(root.subcommands.len(), 2);
}

#[test]
fn resolve_full_path_finds_leaf() {
    let log = Rc::new(RefCell::new(Vec::new()));
    let (root, _) = standard_tree(&log);
    let found = find_in_depth(&root, &path(&["send", "mobile", "binding", "update"])).unwrap();
    assert_eq!(found.command, "update");
    assert_eq!(found.description, "Send binding update");
    assert!(found.action.is_some());
    let found = find_in_depth(&root, &path(&["show", "table"])).unwrap();
    assert_eq!(found.description, "Show the table");
}

#[test]
fn resolve_empty_path_is_root() {
    let log = Rc::new(RefCell::new(Vec::new()));
    let (root, _) = standard_tree(&log);
    let found = find_in_depth(&root, &path(&[])).unwrap();
    assert_eq!(found.command, "root");
}

#[test]
fn resolve_is_token_exact_not_substring() {
    let log = Rc::new(RefCell::new(Vec::new()));
    let (root, _) = standard_tree(&log);
    assert!(find_in_depth(&root, &path(&["sho"])).is_none());
    assert!(find_in_depth(&root, &path(&["send", "mobile", "bind"])).is_none());
    assert!(find_in_depth(&root, &path(&["mobile"])).is_none());
}

#[test]
fn round_trip_each_spec_description() {
    let log = Rc::new(RefCell::new(Vec::new()));
    let (root, _) = standard_tree(&log);
    let table: &[(&[&str], &str)] = &[
        (&["send"], "Send a command"),
        (&["send", "mobile"], "Mobile commands"),
        (&["send", "mobile", "binding"], "Binding commands"),
        (&["send", "mobile", "binding", "update"], "Send binding update"),
        (&["send", "mobile", "binding", "ack"], "Send binding ack"),
        (&["show"], "Show information"),
        (&["show", "table"], "Show the table"),
        (&["show", "command"], "Show commands"),
    ];
    for (p, description) in table {
        let found = find_in_depth(&root, &path(p)).unwrap();
        assert_eq!(&found.description, description);
    }
}

#[test]
fn prefix_of_resolvable_path_resolves_to_parent() {
    let log = Rc::new(RefCell::new(Vec::new()));
    let (root, _) = standard_tree(&log);
    let full = ["send", "mobile", "binding", "update"];
    for k in (1..=full.len()).rev() {
        let deeper = find_in_depth(&root, &path(&full[..k])).unwrap();
        let parent = find_in_depth(&root, &path(&full[..k - 1])).unwrap();
        assert!(parent
            .subcommands
            .iter()
            .any(|c| c.command == deeper.command));
    }
}

#[test]
fn suggest_empty_path_is_root_level_names() {
    let log = Rc::new(RefCell::new(Vec::new()));
    let (root, _) = standard_tree(&log);
    let names = suggest_next_commands(&root, "").unwrap();
    assert_eq!(sorted(names), path(&["send", "show"]));
    let names = suggest_next_commands(&root, "   ").unwrap();
    assert_eq!(sorted(names), path(&["send", "show"]));
}

#[test]
fn dispatch_without_action_invokes_nothing() {
    let log = Rc::new(RefCell::new(Vec::new()));
    let (root, _) = standard_tree(&log);
    let mobile = find_in_depth(&root, &path(&["send", "mobile"])).unwrap();
    let out = dispatch(mobile, &"send mobile".to_string());
    assert_eq!(out, Outcome::NoActionBound);
    assert!(log.borrow().is_empty());
}

#[test]
fn dispatch_with_action_invokes_it_once() {
    let log = Rc::new(RefCell::new(Vec::new()));
    let (root, _) = standard_tree(&log);
    let update = find_in_depth(&root, &path(&["send", "mobile", "binding", "update"])).unwrap();
    let out = dispatch(update, &"the argument".to_string());
    assert_eq!(out, Outcome::Executed);
    assert_eq!(*log.borrow(), vec!["update:the argument".to_string()]);
}

#[test]
fn scenario_four_spec_chain() {
    let log = Rc::new(RefCell::new(Vec::new()));
    let specs = vec![
        Command::new("send", "root", 0, "send things", None),
        Command::new("mobile", "send", 1, "mobile things", None),
        Command::new("binding", "mobile", 2, "binding things", None),
        Command::new(
            "update",
            "binding",
            3,
            "send a binding update",
            Some(Recorder::new(&log, "A")),
        ),
    ];
    let (root, orphans) = build_command_tree(specs);
    assert_eq!(orphans.len(), 0);

    let update = find_in_depth(&root, &path(&["send", "mobile", "binding", "update"])).unwrap();
    let action = update.action.as_ref().unwrap();
    assert_eq!(action.id, "A");
    action.invoke(&"go".to_string());
    assert_eq!(*log.borrow(), vec!["A:go".to_string()]);

    let mobile = find_in_depth(&root, &path(&["send", "mobile"])).unwrap();
    assert_eq!(sorted(mobile.subcommand_names()), path(&["binding"]));
    assert_eq!(
        sorted(suggest_next_commands(&root, "send mobile").unwrap()),
        path(&["binding"])
    );

    assert!(find_in_depth(&root, &path(&["send", "bogus"])).is_none());
    assert_eq!(
        execute_command(&root, &"send bogus".to_string()),
        Outcome::NotFound
    );
}

#[test]
fn orphan_spec_is_reported_not_fatal() {
    let log = Rc::new(RefCell::new(Vec::new()));
    let specs = vec![
        Command::new("send", "root", 0, "send things", None),
        Command::new("stray", "nowhere", 4, "unreachable", Some(Recorder::new(&log, "S"))),
        Command::new("show", "root", 0, "show things", None),
    ];
    let (root, orphans) = build_command_tree(specs);
    assert_eq!(orphans.len(), 1);
    assert_eq!(orphans[0].command, "stray");
    assert!(find_in_depth(&root, &path(&["stray"])).is_none());
    assert_eq!(sorted(suggest_next_commands(&root, "").unwrap()), path(&["send", "show"]));
}

#[test]
fn wrong_depth_makes_an_orphan() {
    let specs: Vec<Command<Recorder>> = vec![
        Command::new("send", "root", 0, "send things", None),
        Command::new("mobile", "send", 2, "wrong depth", None),
    ];
    let (root, orphans) = build_command_tree(specs);
    assert_eq!(orphans.len(), 1);
    assert_eq!(orphans[0].command, "mobile");
    assert!(find_in_depth(&root, &path(&["send", "mobile"])).is_none());
}

#[test]
fn tokenize_splits_on_whitespace() {
    assert_eq!(tokenize(""), path(&[]));
    assert_eq!(tokenize("   \t "), path(&[]));
    assert_eq!(tokenize("send"), path(&["send"]));
    assert_eq!(tokenize("  send   mobile \t binding  "), path(&["send", "mobile", "binding"]));
}

#[test]
fn execute_command_passes_whole_line_as_argument() {
    let log = Rc::new(RefCell::new(Vec::new()));
    let (root, _) = standard_tree(&log);
    let line = "send mobile binding update".to_string();
    assert_eq!(execute_command(&root, &line), Outcome::Executed);
    assert_eq!(*log.borrow(), vec!["update:send mobile binding update".to_string()]);
    assert_eq!(
        execute_command(&root, &"send mobile".to_string()),
        Outcome::NoActionBound
    );
    assert_eq!(*log.borrow(), vec!["update:send mobile binding update".to_string()]);
}

#[test]
fn loop_step_edits_the_buffer() {
    let log = Rc::new(RefCell::new(Vec::new()));
    let (root, _) = standard_tree(&log);
    let mut buffer = String::new();
    for c in ['s', 'h', 'o', 'w'] {
        assert_eq!(loop_step(&root, &mut buffer, InputEvent::Char(c)), StepOutcome::Edited);
    }
    assert_eq!(buffer, "show");
    assert_eq!(loop_step(&root, &mut buffer, InputEvent::Backspace), StepOutcome::Edited);
    assert_eq!(buffer, "sho");
    let mut empty = String::new();
    assert_eq!(loop_step(&root, &mut empty, InputEvent::Backspace), StepOutcome::Edited);
    assert_eq!(empty, "");
}

#[test]
fn tab_mid_word_finds_nothing_full_token_suggests() {
    let log = Rc::new(RefCell::new(Vec::new()));
    let (root, _) = standard_tree(&log);
    let mut buffer = String::new();
    for c in ['s', 'h', 'o'] {
        loop_step(&root, &mut buffer, InputEvent::Char(c));
    }
    assert_eq!(loop_step(&root, &mut buffer, InputEvent::Tab), StepOutcome::NoSuggestions);
    assert_eq!(buffer, "sho");
    loop_step(&root, &mut buffer, InputEvent::Char('w'));
    match loop_step(&root, &mut buffer, InputEvent::Tab) {
        StepOutcome::Suggestions(names) => {
            assert_eq!(sorted(names), path(&["command", "table"]))
        }
        other => panic!("expected suggestions, got {:?}", other),
    }
    assert_eq!(buffer, "show");
}

#[test]
fn enter_on_exit_or_quit_terminates() {
    let log = Rc::new(RefCell::new(Vec::new()));
    let (root, _) = standard_tree(&log);
    let mut buffer = "exit".to_string();
    assert_eq!(loop_step(&root, &mut buffer, InputEvent::Enter), StepOutcome::Terminate);
    let mut buffer = "quit".to_string();
    assert_eq!(loop_step(&root, &mut buffer, InputEvent::Enter), StepOutcome::Terminate);
    assert!(log.borrow().is_empty());
}

#[test]
fn enter_on_blank_line_only_reprints_prompt() {
    let log = Rc::new(RefCell::new(Vec::new()));
    let (root, _) = standard_tree(&log);
    let mut buffer = "   ".to_string();
    assert_eq!(loop_step(&root, &mut buffer, InputEvent::Enter), StepOutcome::Prompt);
    assert_eq!(buffer, "   ");
    assert!(log.borrow().is_empty());
}

#[test]
fn enter_on_a_command_dispatches_and_clears() {
    let log = Rc::new(RefCell::new(Vec::new()));
    let (root, _) = standard_tree(&log);
    let mut buffer = "show table".to_string();
    assert_eq!(
        loop_step(&root, &mut buffer, InputEvent::Enter),
        StepOutcome::Dispatched(Outcome::Executed)
    );
    assert_eq!(buffer, "");
    assert_eq!(*log.borrow(), vec!["table:show table".to_string()]);

    let mut buffer = "no such".to_string();
    assert_eq!(
        loop_step(&root, &mut buffer, InputEvent::Enter),
        StepOutcome::Dispatched(Outcome::NotFound)
    );
    assert_eq!(buffer, "");
}

#[test]
fn interrupt_clears_the_buffer() {
    let log = Rc::new(RefCell::new(Vec::new()));
    let (root, _) = standard_tree(&log);
    let mut buffer = "half typed".to_string();
    assert_eq!(loop_step(&root, &mut buffer, InputEvent::Interrupt), StepOutcome::Prompt);
    assert_eq!(buffer, "");
}

#[test]
fn duplicate_name_under_same_parent_replaces() {
    let specs: Vec<Command<Recorder>> = vec![
        Command::new("send", "root", 0, "first", None),
        Command::new("send", "root", 0, "second", None),
    ];
    let (root, orphans) = build_command_tree(specs);
    assert_eq!(orphans.len(), 0);
    assert_eq!(root.subcommands.len(), 1);
    let found = find_in_depth(&root, &path(&["send"])).unwrap();
    assert_eq!(found.description, "second");
}
