//! The command tree: nodes keyed by name, each holding a description, its
//! children and an optional action. The tree is built once from the flat
//! command table and only read afterwards.
use vstd::prelude::*;
use crate::command::{Action, Command};

verus! {

/// The mathematical shape of a tree node: its fields with strings as
/// character sequences and children as a sequence of shapes.
pub struct NodeView<A> {
    pub name: Seq<char>,
    pub description: Seq<char>,
    pub children: Seq<NodeView<A>>,
    pub action: Option<A>,
}

/// A node of the command tree. Children are kept in a vector; their names
/// are unique (see [`NodeView::wf`]), so the vector realizes the mapping
/// name -> node of the design.
pub struct CommandNode<A> {
    pub command: String,
    pub description: String,
    pub subcommands: Vec<CommandNode<A>>,
    pub action: Option<A>,
}

/// The shapes of a sequence of nodes, element by element.
pub open spec fn views_of<A>(s: Seq<CommandNode<A>>) -> Seq<NodeView<A>>
    decreases s,
{
    if s.len() == 0 {
        Seq::empty()
    } else {
        views_of(s.drop_last()).push(s.last()@)
    }
}

impl<A> View for CommandNode<A> {
    type V = NodeView<A>;

    open spec fn view(&self) -> NodeView<A>
        decreases self,
    {
        NodeView {
            name: self.command@,
            description: self.description@,
            children: views_of(self.subcommands@),
            action: self.action,
        }
    }
}

/// Element-wise reading of [`views_of`].
pub proof fn lemma_views_of<A>(s: Seq<CommandNode<A>>)
    ensures
        views_of(s).len() == s.len(),
        forall|i: int| 0 <= i < s.len() ==> views_of(s)[i] == s[i]@,
    decreases s,
{
    if s.len() > 0 {
        lemma_views_of(s.drop_last());
        assert(views_of(s) == views_of(s.drop_last()).push(s.last()@));
        assert forall|i: int| 0 <= i < s.len() implies views_of(s)[i] == s[i]@ by {
            if i < s.len() - 1 {
                assert(views_of(s)[i] == views_of(s.drop_last())[i]);
                assert(s.drop_last()[i] == s[i]);
            } else {
                assert(views_of(s)[i] == s.last()@);
            }
        }
    }
}

/// How a node's shape reads off its fields and children.
pub proof fn lemma_node_view<A>(n: CommandNode<A>)
    ensures
        n@.name == n.command@,
        n@.description == n.description@,
        n@.action == n.action,
        n@.children.len() == n.subcommands@.len(),
        forall|i: int| 0 <= i < n.subcommands@.len() ==> n@.children[i] == n.subcommands@[i]@,
{
    lemma_views_of(n.subcommands@);
}

impl<A> NodeView<A> {
    /// Does a direct child of this node carry the given name?
    pub open spec fn has_child(self, name: Seq<char>) -> bool {
        exists|i: int| 0 <= i < self.children.len() && self.children[i].name == name
    }

    /// The direct child carrying the given name. Meaningful under `wf`,
    /// which makes that child unique.
    pub open spec fn child(self, name: Seq<char>) -> NodeView<A> {
        self.children[self.child_index(name)]
    }

    /// Some index of a direct child carrying the given name.
    pub open spec fn child_index(self, name: Seq<char>) -> int {
        choose|i: int| 0 <= i < self.children.len() && self.children[i].name == name
    }

    /// The names of the direct children, in stored order.
    pub open spec fn child_names(self) -> Seq<Seq<char>> {
        Seq::new(self.children.len(), |i: int| self.children[i].name)
    }

    /// Names of direct children are pairwise distinct.
    pub open spec fn children_unique(self) -> bool {
        forall|i: int, j: int|
            0 <= i < j < self.children.len() ==> self.children[i].name != self.children[j].name
    }

    /// Well-formed: at every node the children's names are unique.
    pub open spec fn wf(self) -> bool
        decreases self,
    {
        self.children_unique() && forall|i: int|
            0 <= i < self.children.len() ==> (#[trigger] self.children[i]).wf()
    }

    /// Path descent: the empty path designates this node; a non-empty path
    /// descends into the child named by its first token.
    pub open spec fn resolve(self, path: Seq<Seq<char>>) -> Option<NodeView<A>>
        decreases path.len(),
    {
        if path.len() == 0 {
            Some(self)
        } else if self.has_child(path[0]) {
            self.child(path[0]).resolve(path.drop_first())
        } else {
            None
        }
    }

    /// Depth-first search for the attachment point: the first node, in
    /// child order, whose name is `parent` and whose distance from the root
    /// is `depth`; `level` is this node's own distance from the root.
    /// Returns the tree with `child` attached there, or `None` when no
    /// attachment point exists in this subtree.
    pub open spec fn insert(
        self,
        parent: Seq<char>,
        depth: nat,
        level: nat,
        child: NodeView<A>,
    ) -> Option<NodeView<A>>
        decreases self,
    {
        if self.name == parent && level == depth {
            Some(self.with_child(child))
        } else if level < depth {
            match insert_into(self.children, parent, depth, (level + 1) as nat, child) {
                Some(cs) => Some(NodeView { children: cs, ..self }),
                None => None,
            }
        } else {
            None
        }
    }

    /// This node's children map, updated with `child`: an existing child of
    /// the same name is replaced, otherwise `child` is appended.
    pub open spec fn with_child(self, child: NodeView<A>) -> NodeView<A> {
        if self.has_child(child.name) {
            NodeView { children: self.children.update(self.child_index(child.name), child), ..self }
        } else {
            NodeView { children: self.children.push(child), ..self }
        }
    }
}

impl<A> CommandNode<A> {
    pub fn new(command: &str, description: &str, action: Option<A>) -> (r: Self)
        ensures
            r@ == (NodeView::<A> {
                name: command@,
                description: description@,
                children: Seq::empty(),
                action,
            }),
    {
        let r = Self {
            command: command.to_owned(),
            description: description.to_owned(),
            subcommands: Vec::new(),
            action,
        };
        proof {
            assert(r@.children =~= Seq::<NodeView<A>>::empty());
        }
        r
    }

    /// Insert `subcommand` into this node's children, replacing a child of
    /// the same name if one exists.
    pub fn add_subcommand(&mut self, subcommand: CommandNode<A>)
        requires
            old(self)@.children_unique(),
        ensures
            final(self)@ == old(self)@.with_child(subcommand@),
    {
        let n = self.subcommands.len();
        let mut i: usize = 0;
        let mut found: usize = n;
        while i < n
            invariant
                n == self.subcommands.len(),
                i <= n,
                *self == *old(self),
                found == n || (found < i && self@.children[found as int].name == subcommand@.name),
                found == n ==> forall|j: int|
                    0 <= j < i ==> self@.children[j].name != subcommand@.name,
            decreases n - i,
        {
            proof {
                lemma_node_view(*self);
                lemma_node_view(self.subcommands@[i as int]);
                lemma_node_view(subcommand);
            }
            if found == n && self.subcommands[i].command == subcommand.command {
                found = i;
            }
            i += 1;
        }
        proof {
            lemma_node_view(*self);
            lemma_node_view(subcommand);
        }
        if found < n {
            self.subcommands.set(found, subcommand);
            proof {
                lemma_node_view(*self);
                let v = old(self)@;
                assert(v.has_child(subcommand@.name));
                let k = v.child_index(subcommand@.name);
                assert(v.children[k].name == subcommand@.name);
                assert(k == found as int);
                assert(self@.children =~= v.children.update(found as int, subcommand@));
                assert(self@ == v.with_child(subcommand@));
            }
        } else {
            self.subcommands.push(subcommand);
            proof {
                lemma_node_view(*self);
                let v = old(self)@;
                assert(!v.has_child(subcommand@.name));
                assert forall|j: int| 0 <= j < self@.children.len() implies self@.children[j]
                    == v.children.push(subcommand@)[j] by {
                    lemma_node_view(*old(self));
                }
                assert(self@.children =~= v.children.push(subcommand@));
                assert(self@ == v.with_child(subcommand@));
            }
        }
    }
}

/// Depth-first search over a row of siblings, in order: the first subtree
/// that offers an attachment point receives `child`; the others are kept.
pub open spec fn insert_into<A>(
    cs: Seq<NodeView<A>>,
    parent: Seq<char>,
    depth: nat,
    level: nat,
    child: NodeView<A>,
) -> Option<Seq<NodeView<A>>>
    decreases cs,
{
    if cs.len() == 0 {
        None
    } else {
        match cs[0].insert(parent, depth, level, child) {
            Some(n0) => Some(seq![n0] + cs.drop_first()),
            None => match insert_into(cs.drop_first(), parent, depth, level, child) {
                Some(rest) => Some(seq![cs[0]] + rest),
                None => None,
            },
        }
    }
}

/// Attach `child` at the first node found depth-first whose name is
/// `parent` and whose distance from the root is `depth`; `level` is the
/// distance of `node` itself. Returns the updated node, or gives the child
/// back untouched when no attachment point exists.
pub fn insert_in_depth<A>(
    node: CommandNode<A>,
    parent: &String,
    depth: u32,
    level: u32,
    child: CommandNode<A>,
) -> (r: (CommandNode<A>, Option<CommandNode<A>>))
    requires
        node@.wf(),
    ensures
        match node@.insert(parent@, depth as nat, level as nat, child@) {
            Some(t) => r.1 is None && r.0@ == t,
            None => r.0@ == node@ && (r.1 matches Some(c) && c@ == child@),
        },
    decreases node,
{
    proof {
        lemma_node_view(node);
    }
    let ghost node0 = node@;
    if node.command == *parent && level == depth {
        let mut node = node;
        node.add_subcommand(child);
        return (node, None);
    }
    if level < depth {
        let CommandNode { command, description, subcommands, action } = node;
        let ghost node_v = (NodeView {
            name: command@,
            description: description@,
            children: views_of(subcommands@),
            action,
        });
        let ghost subs0 = subcommands@;
        proof {
            assert(node_v == node0);
        }
        proof {
            assert forall|i: int| 0 <= i < subcommands@.len() implies (
            #[trigger] subcommands@[i])@.wf() by {
                lemma_views_of(subs0);
                assert(node0.wf());
                assert(node0.children == views_of(subs0));
                assert(node0.children[i].wf());
                assert(node0.children[i] == subs0[i]@);
            }
        }
        let (subcommands, rest) = insert_children(subcommands, parent, depth, level + 1, child);
        let out = CommandNode { command, description, subcommands, action };
        proof {
            lemma_node_view(out);
            match insert_into(views_of(subs0), parent@, depth as nat, (level + 1) as nat,
                child@) {
                Some(vs) => {
                    assert(out@.children == vs);
                    assert(out@ == (NodeView { children: vs, ..node_v }));
                }
                None => {
                    assert(out@ == node_v);
                }
            }
        }
        return (out, rest);
    }
    (node, Some(child))
}

/// One row of siblings, tried left to right, as [`insert_into`] describes.
fn insert_children<A>(
    cs: Vec<CommandNode<A>>,
    parent: &String,
    depth: u32,
    level: u32,
    child: CommandNode<A>,
) -> (r: (Vec<CommandNode<A>>, Option<CommandNode<A>>))
    requires
        forall|i: int| 0 <= i < cs@.len() ==> (#[trigger] cs@[i])@.wf(),
    ensures
        match insert_into(views_of(cs@), parent@, depth as nat, level as nat, child@) {
            Some(vs) => r.1 is None && views_of(r.0@) == vs,
            None => views_of(r.0@) == views_of(cs@) && (r.1 matches Some(c) && c@ == child@),
        },
    decreases cs@,
{
    proof {
        lemma_views_of(cs@);
    }
    if cs.len() == 0 {
        proof {
            assert(views_of(cs@).len() == 0);
        }
        return (cs, Some(child));
    }
    let ghost cs0 = cs@;
    let mut rest_vec = cs;
    let first = rest_vec.remove(0);
    proof {
        assert(first == cs0[0]);
        assert(rest_vec@ =~= cs0.drop_first());
        lemma_views_of(rest_vec@);
        assert(views_of(cs0)[0] == first@);
        assert forall|j: int| 0 <= j < views_of(cs0).drop_first().len() implies views_of(
            cs0,
        ).drop_first()[j] == views_of(rest_vec@)[j] by {
            assert(views_of(cs0)[j + 1] == cs0[j + 1]@);
        }
        assert(views_of(cs0).drop_first() =~= views_of(rest_vec@));
    }
    let (first, rest) = insert_in_depth(first, parent, depth, level, child);
    match rest {
        None => {
            let mut out = rest_vec;
            out.insert(0, first);
            proof {
                lemma_views_of(out@);
                let n0 = first@;
                let vs = seq![n0] + views_of(cs0).drop_first();
                assert forall|j: int| 0 <= j < out@.len() implies views_of(out@)[j] == vs[j] by {
                    if j == 0 {
                        assert(out@[0] == first);
                    } else {
                        assert(out@[j] == rest_vec@[j - 1]);
                        assert(views_of(rest_vec@)[j - 1] == rest_vec@[j - 1]@);
                    }
                }
                assert(views_of(out@) =~= vs);
            }
            (out, None)
        }
        Some(child) => {
            let ghost c1 = child@;
            proof {
                assert(first@ == cs0[0]@);
                assert(views_of(cs0)[0].insert(parent@, depth as nat, level as nat, c1)
                    is None);
            }
            let (tail_vec, rest2) = insert_children(rest_vec, parent, depth, level, child);
            let ghost tv = tail_vec@;
            let mut out = tail_vec;
            out.insert(0, first);
            proof {
                lemma_views_of(out@);
                lemma_views_of(tv);
                assert(out@.len() == tv.len() + 1);
                assert forall|j: int| 0 <= j < out@.len() implies views_of(out@)[j] == (seq![
                    cs0[0]@,
                ] + views_of(tv))[j] by {
                    if j == 0 {
                        assert(out@[0] == first);
                    } else {
                        assert(out@[j] == tv[j - 1]);
                    }
                }
                assert(views_of(out@) =~= seq![cs0[0]@] + views_of(tv));
                match insert_into(views_of(cs0).drop_first(), parent@, depth as nat,
                    level as nat, c1) {
                    Some(tail) => {
                        assert(views_of(out@) =~= seq![views_of(cs0)[0]] + tail);
                    }
                    None => {
                        assert forall|j: int| 0 <= j < views_of(out@).len() implies views_of(
                            out@,
                        )[j] == views_of(cs0)[j] by {
                            if j > 0 {
                                assert(views_of(cs0).drop_first()[j - 1] == views_of(cs0)[j]);
                            }
                        }
                        assert(views_of(out@) =~= views_of(cs0));
                    }
                }
            }
            (out, rest2)
        }
    }
}

/// The names of a sequence of path tokens.
pub open spec fn path_names(p: Seq<String>) -> Seq<Seq<char>> {
    Seq::new(p.len(), |i: int| p[i]@)
}

/// The view of one command-table row as a fresh leaf node.
pub open spec fn node_of<A>(c: Command<A>) -> NodeView<A> {
    NodeView {
        name: c.command@,
        description: c.description@,
        children: Seq::empty(),
        action: c.action,
    }
}

/// The synthesized root: fixed name, no action, no children.
pub open spec fn root_view<A>() -> NodeView<A> {
    NodeView {
        name: "root"@,
        description: "Root command node"@,
        children: Seq::empty(),
        action: None,
    }
}

/// One build step: a row either attaches to the tree or joins the orphans.
pub open spec fn build_step<A>(
    t: NodeView<A>,
    orphans: Seq<Command<A>>,
    c: Command<A>,
) -> (NodeView<A>, Seq<Command<A>>) {
    match t.insert(c.parent@, c.depth as nat, 0, node_of(c)) {
        Some(t2) => (t2, orphans),
        None => (t, orphans.push(c)),
    }
}

/// Folding the rows of the table into the tree, in order.
pub open spec fn build_from<A>(
    t: NodeView<A>,
    orphans: Seq<Command<A>>,
    specs: Seq<Command<A>>,
) -> (NodeView<A>, Seq<Command<A>>)
    decreases specs.len(),
{
    if specs.len() == 0 {
        (t, orphans)
    } else {
        let (t2, o2) = build_step(t, orphans, specs[0]);
        build_from(t2, o2, specs.drop_first())
    }
}

/// The whole build: an empty root, then every row in order.
pub open spec fn build_tree<A>(specs: Seq<Command<A>>) -> (NodeView<A>, Seq<Command<A>>) {
    build_from(root_view::<A>(), Seq::empty(), specs)
}

/// What [`NodeView::with_child`] does to names, lookups and
/// well-formedness.
pub proof fn lemma_with_child<A>(t: NodeView<A>, c: NodeView<A>)
    requires
        t.wf(),
        c.wf(),
    ensures
        ({
            let w = t.with_child(c);
            &&& w.name == t.name
            &&& w.description == t.description
            &&& w.action == t.action
            &&& w.wf()
            &&& w.has_child(c.name)
            &&& w.child(c.name) == c
            &&& forall|s: Seq<char>| #[trigger] w.has_child(s) <==> (t.has_child(s) || s == c.name)
            &&& forall|s: Seq<char>|
                s != c.name && t.has_child(s) ==> #[trigger] w.child(s) == t.child(s)
        }),
{
    let w = t.with_child(c);
    if t.has_child(c.name) {
        let k = t.child_index(c.name);
        assert(0 <= k < t.children.len() && t.children[k].name == c.name);
        assert(w.children =~= t.children.update(k, c));
        assert forall|i: int| 0 <= i < w.children.len() implies (#[trigger] w.children[i]).wf()
            && w.children[i].name == (if i == k {
            c.name
        } else {
            t.children[i].name
        }) by {
            assert(t.children[i].wf());
        }
        assert(w.children_unique());
        assert(w.has_child(c.name));
        assert forall|s: Seq<char>| #[trigger] w.has_child(s) implies (t.has_child(s) || s
            == c.name) by {
            let i = choose|i: int| 0 <= i < w.children.len() && w.children[i].name == s;
            if i != k {
                assert(t.children[i].name == s);
            }
        }
        assert forall|s: Seq<char>| t.has_child(s) || s == c.name implies #[trigger] w.has_child(
            s,
        ) by {
            if s == c.name {
                assert(w.children[k].name == s);
            } else {
                let i = choose|i: int| 0 <= i < t.children.len() && t.children[i].name == s;
                assert(i != k);
                assert(w.children[i].name == s);
            }
        }
        let kw = w.child_index(c.name);
        assert(w.children[kw].name == c.name);
        assert(kw == k);
        assert forall|s: Seq<char>| s != c.name && t.has_child(s) implies #[trigger] w.child(s)
            == t.child(s) by {
            let iw = w.child_index(s);
            let it = t.child_index(s);
            assert(0 <= it < t.children.len() && t.children[it].name == s);
            assert(w.children[it].name == s);
            assert(0 <= iw < w.children.len() && w.children[iw].name == s);
            assert(iw == it);
        }
    } else {
        let k = t.children.len() as int;
        assert(w.children =~= t.children.push(c));
        assert forall|i: int| 0 <= i < w.children.len() implies (#[trigger] w.children[i]).wf()
            && w.children[i].name == (if i == k {
            c.name
        } else {
            t.children[i].name
        }) by {
            if i < k {
                assert(t.children[i].wf());
            }
        }
        assert forall|i: int, j: int| 0 <= i < j < w.children.len() implies w.children[i].name
            != w.children[j].name by {
            if j == k {
                assert(w.children[i].name == t.children[i].name);
                if w.children[i].name == c.name {
                    assert(t.has_child(c.name));
                }
            }
        }
        assert(w.children_unique());
        assert(w.children[k].name == c.name);
        assert(w.has_child(c.name));
        assert forall|s: Seq<char>| #[trigger] w.has_child(s) implies (t.has_child(s) || s
            == c.name) by {
            let i = choose|i: int| 0 <= i < w.children.len() && w.children[i].name == s;
            if i != k {
                assert(t.children[i].name == s);
            }
        }
        assert forall|s: Seq<char>| t.has_child(s) || s == c.name implies #[trigger] w.has_child(
            s,
        ) by {
            if s == c.name {
                assert(w.children[k].name == s);
            } else {
                let i = choose|i: int| 0 <= i < t.children.len() && t.children[i].name == s;
                assert(w.children[i].name == s);
            }
        }
        let kw = w.child_index(c.name);
        assert(w.children[kw].name == c.name);
        assert(kw == k);
        assert forall|s: Seq<char>| s != c.name && t.has_child(s) implies #[trigger] w.child(s)
            == t.child(s) by {
            let iw = w.child_index(s);
            let it = t.child_index(s);
            assert(0 <= it < t.children.len() && t.children[it].name == s);
            assert(w.children[it].name == s);
            assert(0 <= iw < w.children.len() && w.children[iw].name == s);
            assert(iw == it);
        }
    }
}

/// What a successful insertion preserves: the fields of every node above
/// the attachment point, every child name already present, and
/// well-formedness. A failed insertion means this subtree offered no
/// attachment point; in particular the root matched no attachment either.
pub proof fn lemma_insert_props<A>(
    t: NodeView<A>,
    parent: Seq<char>,
    depth: nat,
    level: nat,
    child: NodeView<A>,
)
    requires
        t.wf(),
        child.wf(),
    ensures
        match t.insert(parent, depth, level, child) {
            Some(t2) => {
                &&& t2.name == t.name
                &&& t2.description == t.description
                &&& t2.action == t.action
                &&& t2.wf()
                &&& (forall|s: Seq<char>| t.has_child(s) ==> #[trigger] t2.has_child(s))
                &&& (t.name == parent && level == depth ==> t2 == t.with_child(child))
            },
            None => !(t.name == parent && level == depth),
        },
    decreases t,
{
    if t.name == parent && level == depth {
        lemma_with_child(t, child);
    } else if level < depth {
        lemma_insert_into_props(t.children, parent, depth, (level + 1) as nat, child);
        match insert_into(t.children, parent, depth, (level + 1) as nat, child) {
            Some(cs) => {
                let t2 = NodeView { children: cs, ..t };
                assert forall|i: int, j: int| 0 <= i < j < t2.children.len() implies t2.children[i].name != t2.children[j].name by {
                    assert(cs[i].name == t.children[i].name);
                    assert(cs[j].name == t.children[j].name);
                }
                assert(t2.children_unique());
                assert forall|i: int| 0 <= i < t2.children.len() implies (#[trigger] t2.children[i]).wf() by {}
                assert(t2.wf());
                assert forall|s: Seq<char>| t.has_child(s) implies #[trigger] t2.has_child(
                    s,
                ) by {
                    let i = choose|i: int| 0 <= i < t.children.len() && t.children[i].name == s;
                    assert(t2.children[i].name == s);
                }
            },
            None => {},
        }
    }
}

/// The row-of-siblings counterpart of [`lemma_insert_props`]: length,
/// names and well-formedness of the row survive an insertion.
pub proof fn lemma_insert_into_props<A>(
    cs: Seq<NodeView<A>>,
    parent: Seq<char>,
    depth: nat,
    level: nat,
    child: NodeView<A>,
)
    requires
        forall|i: int| 0 <= i < cs.len() ==> (#[trigger] cs[i]).wf(),
        child.wf(),
    ensures
        match insert_into(cs, parent, depth, level, child) {
            Some(cs2) => {
                &&& cs2.len() == cs.len()
                &&& forall|i: int|
                    0 <= i < cs.len() ==> (#[trigger] cs2[i]).name == cs[i].name && cs2[i].wf()
            },
            None => true,
        },
    decreases cs,
{
    if cs.len() > 0 {
        lemma_insert_props(cs[0], parent, depth, level, child);
        match cs[0].insert(parent, depth, level, child) {
            Some(n0) => {
                let cs2 = seq![n0] + cs.drop_first();
                assert(cs2.len() == cs.len());
                assert forall|i: int| 0 <= i < cs.len() implies (#[trigger] cs2[i]).name == cs[i].name && cs2[i].wf() by {
                    if i > 0 {
                        assert(cs2[i] == cs[i]);
                    }
                }
            },
            None => {
                assert forall|i: int| 0 <= i < cs.drop_first().len() implies (
                #[trigger] cs.drop_first()[i]).wf() by {
                    assert(cs.drop_first()[i] == cs[i + 1]);
                }
                lemma_insert_into_props(cs.drop_first(), parent, depth, level, child);
                match insert_into(cs.drop_first(), parent, depth, level, child) {
                    Some(rest) => {
                        let cs2 = seq![cs[0]] + rest;
                        assert forall|i: int| 0 <= i < cs.len() implies (#[trigger] cs2[i]).name
                            == cs[i].name && cs2[i].wf() by {
                            if i > 0 {
                                assert(cs2[i] == rest[i - 1]);
                                assert(cs.drop_first()[i - 1] == cs[i]);
                            } else {
                                assert(cs2[0] == cs[0]);
                                assert(cs[0].wf());
                            }
                        }
                    },
                    None => {},
                }
            },
        }
    }
}

/// What dispatching on a resolved node came to.
#[derive(Debug, Clone, Copy, PartialEq, Eq, Structural)]
pub enum Outcome {
    /// The node carried an action and it was invoked.
    Executed,
    /// The node exists but no action is bound to it.
    NoActionBound,
    /// No node matched the path.
    NotFound,
}

impl<A> CommandNode<A> {
    /// The names of this node's direct children, in stored order.
    pub fn subcommand_names(&self) -> (r: Vec<String>)
        ensures
            path_names(r@) == self@.child_names(),
    {
        let mut r: Vec<String> = Vec::new();
        let n = self.subcommands.len();
        let mut i: usize = 0;
        while i < n
            invariant
                n == self.subcommands@.len(),
                i <= n,
                r@.len() == i,
                forall|j: int| 0 <= j < i ==> (#[trigger] r@[j])@ == self@.children[j].name,
            decreases n - i,
        {
            proof {
                lemma_node_view(*self);
                lemma_node_view(self.subcommands@[i as int]);
            }
            r.push(self.subcommands[i].command.clone());
            i += 1;
        }
        proof {
            lemma_node_view(*self);
            assert(path_names(r@) =~= self@.child_names());
        }
        r
    }
}

/// Walk `path` down from `node`, matching each token against the child
/// names at its level, exactly; the empty path designates `node` itself.
pub fn find_in_depth<'a, A>(node: &'a CommandNode<A>, path: &Vec<String>) -> (r: Option<
    &'a CommandNode<A>,
>)
    requires
        node@.wf(),
    ensures
        match r {
            Some(n) => node@.resolve(path_names(path@)) == Some(n@) && n@.wf(),
            None => node@.resolve(path_names(path@)) is None,
        },
{
    let ghost full = path_names(path@);
    proof {
        assert(full.skip(0) =~= full);
    }
    let mut cur: &CommandNode<A> = node;
    let mut i: usize = 0;
    while i < path.len()
        invariant
            i <= path@.len(),
            full == path_names(path@),
            cur@.wf(),
            node@.resolve(full) == cur@.resolve(full.skip(i as int)),
        decreases path@.len() - i,
    {
        let tok: &String = &path[i];
        proof {
            assert(full.skip(i as int)[0] == tok@);
        }
        let n = cur.subcommands.len();
        let mut j: usize = 0;
        let mut found: usize = n;
        while j < n
            invariant
                n == cur.subcommands@.len(),
                j <= n,
                cur@.wf(),
                found == n || (found < j && cur@.children[found as int].name == tok@),
                found == n ==> forall|k: int| 0 <= k < j ==> cur@.children[k].name != tok@,
            decreases n - j,
        {
            proof {
                lemma_node_view(*cur);
                lemma_node_view(cur.subcommands@[j as int]);
            }
            if found == n && cur.subcommands[j].command == *tok {
                found = j;
            }
            j += 1;
        }
        proof {
            lemma_node_view(*cur);
        }
        if found == n {
            proof {
                assert(!cur@.has_child(tok@));
                assert(cur@.resolve(full.skip(i as int)) is None);
            }
            return None;
        }
        proof {
            assert(cur@.children[found as int].name == tok@);
            assert(cur@.has_child(tok@));
            let k = cur@.child_index(tok@);
            assert(cur@.children[k].name == tok@);
            assert(k == found as int);
            assert(cur@.child(tok@) == cur@.children[found as int]);
            assert(full.skip(i as int).drop_first() =~= full.skip(i as int + 1));
            assert(cur@.children[found as int].wf());
            assert(cur@.children[found as int] == cur.subcommands@[found as int]@);
        }
        cur = &cur.subcommands[found];
        i += 1;
    }
    proof {
        assert(full.skip(i as int) =~= Seq::<Seq<char>>::empty());
        assert(cur@.resolve(full.skip(i as int)) == Some(cur@));
    }
    Some(cur)
}

/// Invoke the node's action with `argument`, if one is bound; say so
/// either way. The action's own behaviour is opaque to the core.
pub fn dispatch<A: Action>(node: &CommandNode<A>, argument: &String) -> (r: Outcome)
    ensures
        r == (if node@.action is Some {
            Outcome::Executed
        } else {
            Outcome::NoActionBound
        }),
{
    proof {
        lemma_node_view(*node);
    }
    match &node.action {
        Some(action) => {
            action.invoke(argument);
            Outcome::Executed
        },
        None => Outcome::NoActionBound,
    }
}

/// Build the command tree from the flat table: each row attaches under the
/// first node found depth-first whose name is the row's `parent` and whose
/// distance from the root is the row's `depth`. Rows with no attachment
/// point are handed back as orphans; building never aborts.
pub fn build_command_tree<A>(specs: Vec<Command<A>>) -> (r: (CommandNode<A>, Vec<Command<A>>))
    ensures
        r.0@ == build_tree(specs@).0,
        r.1@ == build_tree(specs@).1,
        r.0@.wf(),
{
    let ghost all = specs@;
    let mut root = CommandNode::new("root", "Root command node", None);
    let mut orphans: Vec<Command<A>> = Vec::new();
    proof {
        assert(root@ == root_view::<A>());
        assert(root@.wf());
        assert(orphans@ =~= Seq::<Command<A>>::empty());
    }
    let mut specs = specs;
    while specs.len() > 0
        invariant
            root@.wf(),
            build_from(root@, orphans@, specs@) == build_tree(all),
        decreases specs@.len(),
    {
        let ghost pre_root = root@;
        let ghost pre_orphans = orphans@;
        let ghost pre_specs = specs@;
        let c = specs.remove(0);
        let ghost c0 = c;
        let Command { command, parent, depth, description, action } = c;
        let child = CommandNode::new(command.as_str(), description.as_str(), action);
        proof {
            assert(child@ == node_of(c0));
            assert(child@.children.len() == 0);
            assert(child@.wf());
            lemma_insert_props(pre_root, parent@, depth as nat, 0, child@);
        }
        let (new_root, back) = insert_in_depth(root, &parent, depth, 0, child);
        root = new_root;
        match back {
            None => {
                proof {
                    assert(build_step(pre_root, pre_orphans, c0) == (root@, orphans@));
                }
            },
            Some(ch) => {
                let CommandNode { action: back_action, .. } = ch;
                proof {
                    assert(back_action == c0.action);
                }
                orphans.push(Command { command, parent, depth, description, action: back_action });
                proof {
                    assert(orphans@.last() == c0);
                    assert(orphans@ =~= pre_orphans.push(c0));
                    assert(build_step(pre_root, pre_orphans, c0) == (root@, orphans@));
                }
            },
        }
        proof {
            assert(specs@ =~= pre_specs.drop_first());
            assert(build_from(pre_root, pre_orphans, pre_specs) == build_from(
                root@,
                orphans@,
                specs@,
            ));
        }
    }
    proof {
        assert(specs@.len() == 0);
        assert(build_from(root@, orphans@, specs@) == (root@, orphans@));
    }
    (root, orphans)
}

} // verus!
