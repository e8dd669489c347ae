//! The flat command table: one `Command` record per command, naming the
//! parent it attaches under and the depth of that parent in the tree.
use vstd::prelude::*;

verus! {

/// A capability invoked when a fully resolved command carries an action.
/// The shell core never looks inside: implementations (printing, sending)
/// are supplied by the embedding program or by test doubles.
pub trait Action {
    /// Perform the action with the raw input line as its argument.
    fn invoke(&self, argument: &String);
}

/// One row of the declarative command table.
///
/// `parent` names the node this command attaches under, and `depth` is the
/// distance of that parent from the root (the root itself has distance 0,
/// so a top-level command has `parent == "root"` and `depth == 0`).
pub struct Command<A> {
    pub command: String,
    pub parent: String,
    pub depth: u32,
    pub description: String,
    pub action: Option<A>,
}

impl<A> Command<A> {
    pub fn new(command: &str, parent: &str, depth: u32, description: &str, action: Option<A>) -> (r: Self)
        ensures
            r.command@ == command@,
            r.parent@ == parent@,
            r.depth == depth,
            r.description@ == description@,
            r.action == action,
    {
        Self {
            command: command.to_owned(),
            parent: parent.to_owned(),
            depth,
            description: description.to_owned(),
            action,
        }
    }
}

/// The command table of this shell, one row per command.
///
/// The four leaf commands carry the four actions handed in; branch rows
/// carry none. Rows are ordered parents-before-children, so every row
/// finds its attachment point when the tree is built in order.
pub fn make_commands<A>(update: A, ack: A, table: A, show: A) -> (r: Vec<Command<A>>)
    ensures
        r@.len() == 8,
        r@[0].command@ == "send"@ && r@[0].parent@ == "root"@ && r@[0].depth == 0 && r@[0].description@
            == "Send a command"@ && r@[0].action is None,
        r@[1].command@ == "mobile"@ && r@[1].parent@ == "send"@ && r@[1].depth == 1 && r@[1].description@
            == "Mobile commands"@ && r@[1].action is None,
        r@[2].command@ == "binding"@ && r@[2].parent@ == "mobile"@ && r@[2].depth == 2
            && r@[2].description@ == "Binding commands"@ && r@[2].action is None,
        r@[3].command@ == "update"@ && r@[3].parent@ == "binding"@ && r@[3].depth == 3
            && r@[3].description@ == "Send binding update"@ && r@[3].action == Some(update),
        r@[4].command@ == "ack"@ && r@[4].parent@ == "binding"@ && r@[4].depth == 3
            && r@[4].description@ == "Send binding ack"@ && r@[4].action == Some(ack),
        r@[5].command@ == "show"@ && r@[5].parent@ == "root"@ && r@[5].depth == 0 && r@[5].description@
            == "Show information"@ && r@[5].action is None,
        r@[6].command@ == "table"@ && r@[6].parent@ == "show"@ && r@[6].depth == 1 && r@[6].description@
            == "Show the table"@ && r@[6].action == Some(table),
        r@[7].command@ == "command"@ && r@[7].parent@ == "show"@ && r@[7].depth == 1
            && r@[7].description@ == "Show commands"@ && r@[7].action == Some(show),
{
    let mut commands: Vec<Command<A>> = Vec::new();
    commands.push(Command::new("send", "root", 0, "Send a command", None));
    commands.push(Command::new("mobile", "send", 1, "Mobile commands", None));
    commands.push(Command::new("binding", "mobile", 2, "Binding commands", None));
    commands.push(Command::new("update", "binding", 3, "Send binding update", Some(update)));
    commands.push(Command::new("ack", "binding", 3, "Send binding ack", Some(ack)));
    commands.push(Command::new("show", "root", 0, "Show information", None));
    commands.push(Command::new("table", "show", 1, "Show the table", Some(table)));
    commands.push(Command::new("command", "show", 1, "Show commands", Some(show)));
    commands
}

} // verus!
