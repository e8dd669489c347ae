//! The guarantees the command tree gives as a whole: what building the
//! tree from the table leaves in it, and how path resolution behaves on
//! prefixes and on the empty path.
use vstd::prelude::*;
use crate::command::Command;
use crate::shell::{suggestions_of, tokens_of};
use crate::tree::{
    build_from, build_step, build_tree, insert_into, lemma_insert_props, lemma_with_child, node_of,
    root_view, NodeView,
};

verus! {

/// Is `n` a node of the tree rooted at `root` (the root itself included)?
pub open spec fn in_subtree<A>(root: NodeView<A>, n: NodeView<A>) -> bool
    decreases root,
{
    root == n || exists|i: int|
        0 <= i < root.children.len() && in_subtree(#[trigger] root.children[i], n)
}

/// A direct child lies in the subtree.
pub proof fn lemma_child_in_subtree<A>(m: NodeView<A>, name: Seq<char>)
    requires
        m.has_child(name),
    ensures
        in_subtree(m, m.child(name)),
{
    let k = m.child_index(name);
    assert(in_subtree(m.children[k], m.child(name)));
}

/// Prefix consistency of path resolution: when a path resolves, the path
/// without its last token resolves to the direct parent of the original
/// result, an ancestor of it.
pub proof fn lemma_resolve_prefix<A>(t: NodeView<A>, path: Seq<Seq<char>>)
    requires
        path.len() > 0,
        t.resolve(path) is Some,
    ensures
        t.resolve(path.drop_last()) matches Some(m) && (t.resolve(path) matches Some(n)
            && m.has_child(path.last()) && m.child(path.last()) == n && in_subtree(m, n)),
    decreases path.len(),
{
    if path.len() == 1 {
        assert(path.drop_last() =~= Seq::<Seq<char>>::empty());
        assert(path.drop_first() =~= Seq::<Seq<char>>::empty());
        assert(t.resolve(path.drop_last()) == Some(t));
        assert(path[0] == path.last());
        assert(t.has_child(path[0]));
        assert(t.resolve(path) == Some(t.child(path[0])));
        lemma_child_in_subtree(t, path.last());
    } else {
        assert(t.has_child(path[0]));
        let c = t.child(path[0]);
        lemma_resolve_prefix(c, path.drop_first());
        assert(path.drop_last()[0] == path[0]);
        assert(path.drop_last().drop_first() =~= path.drop_first().drop_last());
        assert(path.drop_first().last() == path.last());
        assert(t.resolve(path.drop_last()) == c.resolve(path.drop_first().drop_last()));
        assert(t.resolve(path) == c.resolve(path.drop_first()));
    }
}

/// Suggesting on a blank input line (no tokens at all) lists exactly the
/// names of the root-level commands.
pub proof fn lemma_suggest_empty_path<A>(t: NodeView<A>, input: Seq<char>)
    requires
        tokens_of(input).len() == 0,
    ensures
        suggestions_of(t, input) == Some(t.child_names()),
        forall|s: Seq<char>| #[trigger] t.child_names().contains(s) <==> t.has_child(s),
{
    assert(tokens_of(input) =~= Seq::<Seq<char>>::empty());
    assert(t.resolve(tokens_of(input)) == Some(t));
    assert forall|s: Seq<char>| #[trigger] t.child_names().contains(s) <==> t.has_child(s) by {
        if t.child_names().contains(s) {
            let i = choose|i: int| 0 <= i < t.child_names().len() && t.child_names()[i] == s;
            assert(t.children[i].name == s);
        }
        if t.has_child(s) {
            let i = choose|i: int| 0 <= i < t.children.len() && t.children[i].name == s;
            assert(t.child_names()[i] == s);
        }
    }
}

/// Building preserves a node's fields, its well-formedness and every child
/// the root already has, whatever rows are folded in.
pub proof fn lemma_build_from_preserves<A>(
    t: NodeView<A>,
    orphans: Seq<Command<A>>,
    specs: Seq<Command<A>>,
)
    requires
        t.wf(),
    ensures
        ({
            let (t2, o2) = build_from(t, orphans, specs);
            &&& t2.wf()
            &&& t2.name == t.name
            &&& t2.description == t.description
            &&& t2.action == t.action
            &&& forall|s: Seq<char>| t.has_child(s) ==> #[trigger] t2.has_child(s)
        }),
    decreases specs.len(),
{
    if specs.len() > 0 {
        let c = specs[0];
        assert(node_of(c).wf());
        lemma_insert_props(t, c.parent@, c.depth as nat, 0, node_of(c));
        match t.insert(c.parent@, c.depth as nat, 0, node_of(c)) {
            Some(t2) => {
                lemma_build_from_preserves(t2, orphans, specs.drop_first());
            },
            None => {
                lemma_build_from_preserves(t, orphans.push(c), specs.drop_first());
            },
        }
    }
}

/// Folding a concatenation of rows is folding the first part, then the
/// second on what came out.
pub proof fn lemma_build_from_split<A>(
    t: NodeView<A>,
    orphans: Seq<Command<A>>,
    s1: Seq<Command<A>>,
    s2: Seq<Command<A>>,
)
    ensures
        build_from(t, orphans, s1 + s2) == build_from(
            build_from(t, orphans, s1).0,
            build_from(t, orphans, s1).1,
            s2,
        ),
    decreases s1.len(),
{
    if s1.len() == 0 {
        assert(s1 + s2 =~= s2);
        assert(build_from(t, orphans, s1) == (t, orphans));
    } else {
        assert((s1 + s2)[0] == s1[0]);
        assert((s1 + s2).drop_first() =~= s1.drop_first() + s2);
        let (t2, o2) = build_step(t, orphans, s1[0]);
        lemma_build_from_split(t2, o2, s1.drop_first(), s2);
        assert(build_from(t, orphans, s1) == build_from(t2, o2, s1.drop_first()));
    }
}

/// Every table row whose parent is the root's own name, at depth zero,
/// ends up as a direct child of the built root, whatever else the table
/// holds.
pub proof fn lemma_root_child_present<A>(specs: Seq<Command<A>>, j: int)
    requires
        0 <= j < specs.len(),
        specs[j].parent@ == "root"@,
        specs[j].depth == 0,
    ensures
        build_tree(specs).0.has_child(specs[j].command@),
{
    let c = specs[j];
    let head = specs.take(j);
    let tail = seq![c] + specs.skip(j + 1);
    assert(specs =~= head + tail);
    lemma_build_from_split(root_view::<A>(), Seq::empty(), head, tail);
    let t1 = build_from(root_view::<A>(), Seq::empty(), head).0;
    let o1 = build_from(root_view::<A>(), Seq::empty(), head).1;
    assert(root_view::<A>().wf());
    lemma_build_from_preserves(root_view::<A>(), Seq::empty(), head);
    assert(t1.wf());
    assert(t1.name == "root"@);
    assert(tail[0] == c);
    assert(tail.drop_first() =~= specs.skip(j + 1));
    assert(node_of(c).wf());
    assert(t1.insert(c.parent@, c.depth as nat, 0, node_of(c)) == Some(
        t1.with_child(node_of(c)),
    ));
    lemma_with_child(t1, node_of(c));
    let t2 = t1.with_child(node_of(c));
    assert(t2.has_child(c.command@));
    assert(t2.wf());
    assert(build_step(t1, o1, c) == (t2, o1));
    assert(build_from(t1, o1, tail) == build_from(t2, o1, specs.skip(j + 1)));
    lemma_build_from_preserves(t2, o1, specs.skip(j + 1));
    assert(build_tree(specs).0 == build_from(t2, o1, specs.skip(j + 1)).0);
}

/// How many nodes of the tree carry the name.
pub open spec fn count_name<A>(t: NodeView<A>, s: Seq<char>) -> nat
    decreases t,
{
    (if t.name == s {
        1nat
    } else {
        0nat
    }) + count_in(t.children, s)
}

/// How many nodes across a row of subtrees carry the name.
pub open spec fn count_in<A>(cs: Seq<NodeView<A>>, s: Seq<char>) -> nat
    decreases cs,
{
    if cs.len() == 0 {
        0nat
    } else {
        count_name(cs[0], s) + count_in(cs.drop_first(), s)
    }
}

/// A row counts at least what any one of its subtrees counts.
pub proof fn lemma_count_in_ge<A>(cs: Seq<NodeView<A>>, s: Seq<char>, k: int)
    requires
        0 <= k < cs.len(),
    ensures
        count_in(cs, s) >= count_name(cs[k], s),
    decreases cs,
{
    if k > 0 {
        lemma_count_in_ge(cs.drop_first(), s, k - 1);
        assert(cs.drop_first()[k - 1] == cs[k]);
    }
}

/// A row counts at least what any two of its subtrees count together.
pub proof fn lemma_count_in_pair<A>(cs: Seq<NodeView<A>>, s: Seq<char>, i: int, j: int)
    requires
        0 <= i < j < cs.len(),
    ensures
        count_in(cs, s) >= count_name(cs[i], s) + count_name(cs[j], s),
    decreases cs,
{
    if i == 0 {
        lemma_count_in_ge(cs.drop_first(), s, j - 1);
        assert(cs.drop_first()[j - 1] == cs[j]);
    } else {
        lemma_count_in_pair(cs.drop_first(), s, i - 1, j - 1);
        assert(cs.drop_first()[i - 1] == cs[i]);
        assert(cs.drop_first()[j - 1] == cs[j]);
    }
}

/// Appending a subtree to a row adds its count.
pub proof fn lemma_count_push<A>(cs: Seq<NodeView<A>>, x: NodeView<A>, s: Seq<char>)
    ensures
        count_in(cs.push(x), s) == count_in(cs, s) + count_name(x, s),
    decreases cs,
{
    if cs.len() == 0 {
        assert(cs.push(x)[0] == x);
        assert(cs.push(x).drop_first() =~= Seq::<NodeView<A>>::empty());
        assert(count_in(Seq::<NodeView<A>>::empty(), s) == 0);
        assert(count_in(cs, s) == 0);
    } else {
        assert(cs.push(x)[0] == cs[0]);
        assert(cs.push(x).drop_first() =~= cs.drop_first().push(x));
        lemma_count_push(cs.drop_first(), x, s);
    }
}

/// Changing one subtree of a row changes the row's count by the same
/// amount.
pub proof fn lemma_count_update<A>(cs: Seq<NodeView<A>>, cs2: Seq<NodeView<A>>, k: int, s: Seq<char>)
    requires
        cs2.len() == cs.len(),
        0 <= k < cs.len(),
        forall|i: int| 0 <= i < cs.len() && i != k ==> cs2[i] == cs[i],
    ensures
        count_in(cs2, s) + count_name(cs[k], s) == count_in(cs, s) + count_name(cs2[k], s),
    decreases cs,
{
    if k == 0 {
        assert(cs2.drop_first() =~= cs.drop_first());
    } else {
        assert forall|i: int| 0 <= i < cs.drop_first().len() && i != k - 1 implies cs2.drop_first(
        )[i] == cs.drop_first()[i] by {
            assert(cs.drop_first()[i] == cs[i + 1]);
            assert(cs2.drop_first()[i] == cs2[i + 1]);
        }
        lemma_count_update(cs.drop_first(), cs2.drop_first(), k - 1, s);
        assert(cs.drop_first()[k - 1] == cs[k]);
        assert(cs2.drop_first()[k - 1] == cs2[k]);
        assert(cs2[0] == cs[0]);
    }
}

/// A node with a child of the given name counts that name at least once.
pub proof fn lemma_has_child_count<A>(t: NodeView<A>, s: Seq<char>)
    requires
        t.has_child(s),
    ensures
        count_name(t, s) >= 1,
{
    let k = t.child_index(s);
    lemma_count_in_ge(t.children, s, k);
}

/// A resolvable path ends at a node whose name the tree counts.
pub proof fn lemma_resolve_count<A>(t: NodeView<A>, q: Seq<Seq<char>>)
    requires
        t.resolve(q) is Some,
    ensures
        t.resolve(q) matches Some(n) && count_name(t, n.name) >= 1,
    decreases q.len(),
{
    if q.len() == 0 {
    } else {
        let k = t.child_index(q[0]);
        lemma_resolve_count(t.child(q[0]), q.drop_first());
        let n = t.resolve(q)->Some_0;
        lemma_count_in_ge(t.children, n.name, k);
    }
}

/// A successful row insertion changes exactly one subtree: the first one
/// that accepted the child. Returns its position.
proof fn lemma_insert_into_at<A>(
    cs: Seq<NodeView<A>>,
    parent: Seq<char>,
    depth: nat,
    level: nat,
    child: NodeView<A>,
) -> (k: int)
    requires
        insert_into(cs, parent, depth, level, child) is Some,
    ensures
        insert_into(cs, parent, depth, level, child) matches Some(cs2) && (0 <= k < cs.len()
            && cs2.len() == cs.len() && cs[k].insert(parent, depth, level, child) == Some(cs2[k])
            && forall|i: int| 0 <= i < cs.len() && i != k ==> cs2[i] == cs[i]),
    decreases cs,
{
    let cs2 = insert_into(cs, parent, depth, level, child)->Some_0;
    match cs[0].insert(parent, depth, level, child) {
        Some(n0) => {
            assert(cs2 == seq![n0] + cs.drop_first());
            assert(cs2[0] == n0);
            assert forall|i: int| 0 <= i < cs.len() && i != 0 implies cs2[i] == cs[i] by {
                assert(cs2[i] == cs.drop_first()[i - 1]);
            }
            0
        },
        None => {
            let k = lemma_insert_into_at(cs.drop_first(), parent, depth, level, child) + 1;
            let rest = insert_into(cs.drop_first(), parent, depth, level, child)->Some_0;
            assert(cs2 == seq![cs[0]] + rest);
            assert(cs2[k] == rest[k - 1]);
            assert(cs.drop_first()[k - 1] == cs[k]);
            assert forall|i: int| 0 <= i < cs.len() && i != k implies cs2[i] == cs[i] by {
                if i > 0 {
                    assert(cs2[i] == rest[i - 1]);
                    assert(rest[i - 1] == cs.drop_first()[i - 1]);
                }
            }
            k
        },
    }
}

/// An insertion only succeeds in a tree that has a node named `parent`.
proof fn lemma_insert_some_count<A>(
    t: NodeView<A>,
    parent: Seq<char>,
    depth: nat,
    level: nat,
    child: NodeView<A>,
)
    requires
        t.insert(parent, depth, level, child) is Some,
    ensures
        count_name(t, parent) >= 1,
    decreases t,
{
    if t.name == parent && level == depth {
    } else if level < depth {
        let k = lemma_insert_into_at(t.children, parent, depth, (level + 1) as nat, child);
        lemma_insert_some_count(t.children[k], parent, depth, (level + 1) as nat, child);
        lemma_count_in_ge(t.children, parent, k);
    }
}

/// Inserting a fresh name adds the child's counts to the tree's, name by
/// name.
proof fn lemma_count_insert<A>(
    t: NodeView<A>,
    parent: Seq<char>,
    depth: nat,
    level: nat,
    child: NodeView<A>,
    s: Seq<char>,
)
    requires
        count_name(t, child.name) == 0,
        t.insert(parent, depth, level, child) is Some,
    ensures
        t.insert(parent, depth, level, child) matches Some(t2) && count_name(t2, s) == count_name(
            t,
            s,
        ) + count_name(child, s),
    decreases t,
{
    let t2 = t.insert(parent, depth, level, child)->Some_0;
    if t.name == parent && level == depth {
        if t.has_child(child.name) {
            lemma_has_child_count(t, child.name);
            assert(false);
        }
        assert(t2.children == t.children.push(child));
        lemma_count_push(t.children, child, s);
    } else {
        let k = lemma_insert_into_at(t.children, parent, depth, (level + 1) as nat, child);
        let cs2 = insert_into(t.children, parent, depth, (level + 1) as nat, child)->Some_0;
        lemma_count_in_ge(t.children, child.name, k);
        lemma_count_insert(t.children[k], parent, depth, (level + 1) as nat, child, s);
        lemma_count_update(t.children, cs2, k, s);
        assert(t2.children == cs2);
    }
}

/// A successful insertion of a fresh name leaves every node a path already
/// reached: the path still resolves, to a node with the same name,
/// description and action.
pub proof fn lemma_insert_frame<A>(
    t: NodeView<A>,
    parent: Seq<char>,
    depth: nat,
    level: nat,
    child: NodeView<A>,
    p: Seq<Seq<char>>,
)
    requires
        t.wf(),
        child.wf(),
        count_name(t, child.name) == 0,
        t.insert(parent, depth, level, child) is Some,
        t.resolve(p) is Some,
    ensures
        t.insert(parent, depth, level, child) matches Some(t2) && (t2.resolve(p) matches Some(n2)
            && (t.resolve(p) matches Some(n) && n2.name == n.name && n2.description
            == n.description && n2.action == n.action)),
    decreases t,
{
    let t2 = t.insert(parent, depth, level, child)->Some_0;
    if t.name == parent && level == depth {
        lemma_with_child(t, child);
        if p.len() == 0 {
        } else {
            if p[0] == child.name {
                lemma_has_child_count(t, child.name);
                assert(false);
            }
            assert(t2.child(p[0]) == t.child(p[0]));
            assert(t2.resolve(p) == t.child(p[0]).resolve(p.drop_first()));
        }
    } else {
        let k = lemma_insert_into_at(t.children, parent, depth, (level + 1) as nat, child);
        let cs = t.children;
        let cs2 = insert_into(cs, parent, depth, (level + 1) as nat, child)->Some_0;
        assert(t2.children == cs2);
        lemma_insert_props(cs[k], parent, depth, (level + 1) as nat, child);
        assert forall|i: int| 0 <= i < cs.len() implies (#[trigger] cs2[i]).name == cs[i].name by {
            if i != k {
                assert(cs2[i] == cs[i]);
            }
        }
        assert(t2.name == t.name && t2.description == t.description && t2.action == t.action);
        if p.len() == 0 {
        } else {
            let kp = t.child_index(p[0]);
            assert(cs[kp].name == p[0]);
            assert(cs2[kp].name == p[0]);
            assert(t2.has_child(p[0]));
            let kp2 = t2.child_index(p[0]);
            assert(cs2[kp2].name == p[0]);
            assert(cs[kp2].name == p[0]);
            assert(kp2 == kp);
            assert(t2.child(p[0]) == cs2[kp]);
            assert(t.resolve(p) == cs[kp].resolve(p.drop_first()));
            assert(t2.resolve(p) == cs2[kp].resolve(p.drop_first()));
            if kp != k {
                assert(cs2[kp] == cs[kp]);
            } else {
                lemma_count_in_ge(cs, child.name, k);
                assert(count_name(cs[k], child.name) == 0);
                assert(cs[k].wf());
                lemma_insert_frame(
                    cs[k],
                    parent,
                    depth,
                    (level + 1) as nat,
                    child,
                    p.drop_first(),
                );
            }
        }
    }
}

/// When exactly one node of the tree is named `parent`, and it sits at the
/// end of path `q` at the demanded distance, inserting a fresh child
/// attaches it right there: the path extended by the child's name resolves
/// to the child itself.
pub proof fn lemma_insert_attach<A>(
    t: NodeView<A>,
    parent: Seq<char>,
    depth: nat,
    level: nat,
    child: NodeView<A>,
    q: Seq<Seq<char>>,
)
    requires
        t.wf(),
        child.wf(),
        count_name(t, child.name) == 0,
        count_name(t, parent) == 1,
        t.resolve(q) matches Some(m) && m.name == parent,
        level + q.len() == depth,
    ensures
        t.insert(parent, depth, level, child) matches Some(t2) && t2.resolve(
            q.push(child.name),
        ) == Some(child),
    decreases q.len(),
{
    if q.len() == 0 {
        assert(t.name == parent && level == depth);
        if t.has_child(child.name) {
            lemma_has_child_count(t, child.name);
            assert(false);
        }
        lemma_with_child(t, child);
        let t2 = t.with_child(child);
        assert(t.insert(parent, depth, level, child) == Some(t2));
        let p1 = q.push(child.name);
        assert(p1[0] == child.name);
        assert(p1.drop_first() =~= Seq::<Seq<char>>::empty());
        assert(t2.resolve(p1) == t2.child(child.name).resolve(p1.drop_first()));
        assert(t2.child(child.name) == child);
    } else {
        let cs = t.children;
        let k = t.child_index(q[0]);
        assert(cs[k] == t.child(q[0]));
        lemma_resolve_count(t.child(q[0]), q.drop_first());
        assert(count_name(cs[k], parent) >= 1);
        lemma_count_in_ge(cs, parent, k);
        if t.name == parent {
            assert(count_name(t, parent) >= 2);
            assert(false);
        }
        assert(count_in(cs, parent) == 1);
        assert(level < depth);
        assert forall|i: int| 0 <= i < cs.len() && i != k implies count_name(
            #[trigger] cs[i],
            parent,
        ) == 0 by {
            if count_name(cs[i], parent) >= 1 {
                if i < k {
                    lemma_count_in_pair(cs, parent, i, k);
                } else {
                    lemma_count_in_pair(cs, parent, k, i);
                }
            }
        }
        assert forall|i: int| 0 <= i < k implies cs[i].insert(
            parent,
            depth,
            (level + 1) as nat,
            child,
        ) is None by {
            if cs[i].insert(parent, depth, (level + 1) as nat, child) is Some {
                lemma_insert_some_count(cs[i], parent, depth, (level + 1) as nat, child);
            }
        }
        lemma_count_in_ge(cs, child.name, k);
        lemma_insert_attach(cs[k], parent, depth, (level + 1) as nat, child, q.drop_first());
        lemma_insert_into_from(cs, k, parent, depth, (level + 1) as nat, child);
        let cs2 = insert_into(cs, parent, depth, (level + 1) as nat, child)->Some_0;
        let t2 = NodeView { children: cs2, ..t };
        assert(t.insert(parent, depth, level, child) == Some(t2));
        let ck2 = cs[k].insert(parent, depth, (level + 1) as nat, child)->Some_0;
        assert(cs2[k] == ck2);
        lemma_insert_props(cs[k], parent, depth, (level + 1) as nat, child);
        let p1 = q.push(child.name);
        assert(p1[0] == q[0]);
        assert(p1.drop_first() =~= q.drop_first().push(child.name));
        assert(cs2[k].name == q[0]);
        assert(t2.has_child(q[0]));
        let kp2 = t2.child_index(q[0]);
        assert(cs2[kp2].name == q[0]);
        assert forall|i: int| 0 <= i < cs.len() implies (#[trigger] cs2[i]).name == cs[i].name by {
            if i != k {
                assert(cs2[i] == cs[i]);
            }
        }
        assert(cs[kp2].name == q[0]);
        assert(kp2 == k);
        assert(t2.child(q[0]) == ck2);
        assert(t2.resolve(p1) == ck2.resolve(p1.drop_first()));
    }
}

/// The row counterpart of [`lemma_insert_attach`]: when the subtrees left
/// of `k` refuse the child and subtree `k` accepts it, the row insertion
/// succeeds exactly there.
proof fn lemma_insert_into_from<A>(
    cs: Seq<NodeView<A>>,
    k: int,
    parent: Seq<char>,
    depth: nat,
    level: nat,
    child: NodeView<A>,
)
    requires
        0 <= k < cs.len(),
        forall|i: int| 0 <= i < k ==> (#[trigger] cs[i]).insert(parent, depth, level, child)
            is None,
        cs[k].insert(parent, depth, level, child) is Some,
    ensures
        insert_into(cs, parent, depth, level, child) matches Some(cs2) && (cs2.len() == cs.len()
            && cs2[k] == cs[k].insert(parent, depth, level, child)->Some_0 && forall|i: int|
            0 <= i < cs.len() && i != k ==> cs2[i] == cs[i]),
    decreases cs,
{
    if k == 0 {
        let n0 = cs[0].insert(parent, depth, level, child)->Some_0;
        let cs2 = seq![n0] + cs.drop_first();
        assert(insert_into(cs, parent, depth, level, child) == Some(cs2));
        assert(cs2[0] == n0);
        assert forall|i: int| 0 <= i < cs.len() && i != 0 implies cs2[i] == cs[i] by {
            assert(cs2[i] == cs.drop_first()[i - 1]);
        }
    } else {
        assert(cs[0].insert(parent, depth, level, child) is None);
        assert forall|i: int| 0 <= i < k - 1 implies (#[trigger] cs.drop_first()[i]).insert(
            parent,
            depth,
            level,
            child,
        ) is None by {
            assert(cs.drop_first()[i] == cs[i + 1]);
        }
        assert(cs.drop_first()[k - 1] == cs[k]);
        lemma_insert_into_from(cs.drop_first(), k - 1, parent, depth, level, child);
        let rest = insert_into(cs.drop_first(), parent, depth, level, child)->Some_0;
        let cs2 = seq![cs[0]] + rest;
        assert(insert_into(cs, parent, depth, level, child) == Some(cs2));
        assert(cs2[k] == rest[k - 1]);
        assert forall|i: int| 0 <= i < cs.len() && i != k implies cs2[i] == cs[i] by {
            if i > 0 {
                assert(cs2[i] == rest[i - 1]);
                assert(rest[i - 1] == cs.drop_first()[i - 1]);
            }
        }
    }
}

/// One legal link of a parent/depth chain: row `j2` names row `j`'s
/// parent and sits one level higher.
pub open spec fn chain_link<A>(specs: Seq<Command<A>>, j2: int, j: int) -> bool {
    0 <= j2 < j && specs[j2].command@ == specs[j].parent@ && specs[j2].depth + 1 == specs[j].depth
}

/// Row `j` is reachable by a valid parent/depth chain: rows of depths
/// 0, 1, 2, ..., each naming the previous one as its parent, lead from the
/// root to it, in table order.
pub open spec fn chain_ok<A>(specs: Seq<Command<A>>, j: int) -> bool
    decreases j,
{
    0 <= j < specs.len() && (if specs[j].depth == 0 {
        specs[j].parent@ == "root"@
    } else {
        exists|j2: int| 0 <= j2 < j && #[trigger] chain_link(specs, j2, j) && chain_ok(specs, j2)
    })
}

/// The chain's index for row `j`'s parent.
pub open spec fn chain_parent<A>(specs: Seq<Command<A>>, j: int) -> int {
    choose|j2: int| 0 <= j2 < j && #[trigger] chain_link(specs, j2, j) && chain_ok(specs, j2)
}

/// The full path of names the chain spells, root-level name first.
pub open spec fn chain_path<A>(specs: Seq<Command<A>>, j: int) -> Seq<Seq<char>>
    decreases j,
    via chain_path_decreases::<A>
{
    if chain_ok(specs, j) {
        if specs[j].depth == 0 {
            seq![specs[j].command@]
        } else {
            chain_path(specs, chain_parent(specs, j)).push(specs[j].command@)
        }
    } else {
        Seq::empty()
    }
}

#[via_fn]
proof fn chain_path_decreases<A>(specs: Seq<Command<A>>, j: int) {
    if chain_ok(specs, j) && specs[j].depth != 0 {
        assert(exists|j2: int|
            0 <= j2 < j && #[trigger] chain_link(specs, j2, j) && chain_ok(specs, j2));
        let j2 = chain_parent(specs, j);
        assert(0 <= j2 < j && chain_link(specs, j2, j) && chain_ok(specs, j2));
    }
}

/// A chain path has one name per level, ending in the row's own name.
pub proof fn lemma_chain_path_len<A>(specs: Seq<Command<A>>, j: int)
    requires
        chain_ok(specs, j),
    ensures
        chain_path(specs, j).len() == specs[j].depth + 1,
        chain_path(specs, j).last() == specs[j].command@,
    decreases j,
{
    if specs[j].depth != 0 {
        assert(exists|j2: int|
            0 <= j2 < j && #[trigger] chain_link(specs, j2, j) && chain_ok(specs, j2));
        let j2 = chain_parent(specs, j);
        assert(0 <= j2 < j && chain_link(specs, j2, j) && chain_ok(specs, j2));
        lemma_chain_path_len(specs, j2);
    }
}

/// No two rows share a name, and none takes the root's own name. A table
/// that breaks this can lose a row: a later row of the same name replaces
/// the node, so the round trip below asks for it.
pub open spec fn distinct_names<A>(specs: Seq<Command<A>>) -> bool {
    (forall|i: int, j: int| 0 <= i < j < specs.len() ==> specs[i].command@ != specs[j].command@)
        && forall|i: int| 0 <= i < specs.len() ==> (#[trigger] specs[i].command@) != "root"@
}

/// The tree after the first `m` rows of the table.
spec fn built_upto<A>(specs: Seq<Command<A>>, m: int) -> NodeView<A> {
    build_from(root_view::<A>(), Seq::empty(), specs.take(m)).0
}

/// What holds of the tree after the first `m` rows: it is well formed and
/// root-named; the root's name is unique and every name in it came from a
/// processed row, at most once; and every chain among the processed rows
/// resolves to its row's node.
spec fn build_inv<A>(specs: Seq<Command<A>>, m: int) -> bool {
    let t = built_upto(specs, m);
    &&& t.wf()
    &&& t.name == "root"@
    &&& count_name(t, "root"@) == 1
    &&& (forall|s: Seq<char>| #[trigger] count_name(t, s) >= 1 ==> s == "root"@ || exists|i: int|
        0 <= i < m && specs[i].command@ == s)
    &&& (forall|i: int| 0 <= i < specs.len() ==> count_name(t, #[trigger] specs[i].command@) <= 1)
    &&& (forall|i: int|
        0 <= i < m && chain_ok(specs, i) ==> ((#[trigger] t.resolve(chain_path(specs, i)))
            matches Some(n) && n.name == specs[i].command@ && n.description == specs[i].description@
            && n.action == specs[i].action))
}

proof fn lemma_build_inv<A>(specs: Seq<Command<A>>, m: int)
    requires
        distinct_names(specs),
        0 <= m <= specs.len(),
    ensures
        build_inv(specs, m),
    decreases m,
{
    if m == 0 {
        assert(specs.take(0) =~= Seq::<Command<A>>::empty());
        let t = built_upto(specs, 0);
        assert(t == root_view::<A>());
        assert(t.wf());
        assert(count_in(Seq::<NodeView<A>>::empty(), "root"@) == 0);
        assert(count_name(t, "root"@) == 1);
        assert forall|s: Seq<char>| #[trigger] count_name(t, s) >= 1 implies s == "root"@ by {
            assert(count_in(Seq::<NodeView<A>>::empty(), s) == 0);
        }
    } else {
        lemma_build_inv(specs, m - 1);
        let t = built_upto(specs, m - 1);
        let o = build_from(root_view::<A>(), Seq::empty(), specs.take(m - 1)).1;
        let c = specs[m - 1];
        let parent = c.parent@;
        let dep = c.depth as nat;
        let child = node_of(c);
        assert(specs.take(m) =~= specs.take(m - 1) + seq![c]);
        lemma_build_from_split(root_view::<A>(), Seq::empty(), specs.take(m - 1), seq![c]);
        assert(seq![c].drop_first() =~= Seq::<Command<A>>::empty());
        assert(seq![c][0] == c);
        let (t1s, o1s) = build_step(t, o, c);
        assert(build_from(t1s, o1s, Seq::<Command<A>>::empty()) == (t1s, o1s));
        assert(build_from(t, o, seq![c]) == build_from(t1s, o1s, seq![c].drop_first()));
        assert(build_from(t, o, seq![c]).0 == build_step(t, o, c).0);
        assert(child.wf());
        assert(child.name == c.command@);
        assert(count_in(Seq::<NodeView<A>>::empty(), c.command@) == 0);
        assert forall|s: Seq<char>| true implies count_name(child, s) == (if s == c.command@ {
            1nat
        } else {
            0nat
        }) by {
            assert(count_in(Seq::<NodeView<A>>::empty(), s) == 0);
        }
        // the row's name is fresh in the tree so far
        if count_name(t, c.command@) >= 1 {
            assert(c.command@ != "root"@);
            let i = choose|i: int| 0 <= i < m - 1 && specs[i].command@ == c.command@;
            assert(specs[i].command@ != specs[m - 1].command@);
            assert(false);
        }
        // a reachable row finds its attachment point
        if chain_ok(specs, m - 1) {
            if c.depth == 0 {
                assert(t.resolve(Seq::empty()) == Some(t));
                lemma_insert_attach(t, parent, dep, 0, child, Seq::<Seq<char>>::empty());
                assert(chain_path(specs, m - 1) =~= Seq::<Seq<char>>::empty().push(c.command@));
            } else {
                assert(exists|j2: int|
                    0 <= j2 < m - 1 && #[trigger] chain_link(specs, j2, m - 1) && chain_ok(
                        specs,
                        j2,
                    ));
                let j2 = chain_parent(specs, m - 1);
                assert(0 <= j2 < m - 1 && chain_link(specs, j2, m - 1) && chain_ok(specs, j2));
                let q = chain_path(specs, j2);
                assert(t.resolve(q) matches Some(n) && n.name == specs[j2].command@);
                lemma_chain_path_len(specs, j2);
                assert(0 + q.len() == dep);
                lemma_resolve_count(t, q);
                assert(count_name(t, parent) >= 1);
                assert(count_name(t, parent) <= 1);
                lemma_insert_attach(t, parent, dep, 0, child, q);
                assert(chain_path(specs, m - 1) == q.push(c.command@));
            }
            assert(t.insert(parent, dep, 0, child) is Some);
        }
        match t.insert(parent, dep, 0, child) {
            Some(t2) => {
                assert(built_upto(specs, m) == t2);
                lemma_insert_props(t, parent, dep, 0, child);
                assert(t2.wf() && t2.name == "root"@);
                lemma_count_insert(t, parent, dep, 0, child, "root"@);
                assert(count_name(t2, "root"@) == 1);
                assert forall|s: Seq<char>| #[trigger] count_name(t2, s) >= 1 implies s == "root"@
                    || exists|i: int| 0 <= i < m && specs[i].command@ == s by {
                    lemma_count_insert(t, parent, dep, 0, child, s);
                    if count_name(t, s) >= 1 {
                        assert(s == "root"@ || exists|i: int|
                            0 <= i < m - 1 && specs[i].command@ == s);
                    } else {
                        assert(s == c.command@);
                        assert(specs[m - 1].command@ == s);
                    }
                }
                assert forall|i: int| 0 <= i < specs.len() implies count_name(
                    t2,
                    #[trigger] specs[i].command@,
                ) <= 1 by {
                    lemma_count_insert(t, parent, dep, 0, child, specs[i].command@);
                    if i != m - 1 {
                        assert(specs[i].command@ != c.command@);
                    }
                }
                assert forall|i: int| 0 <= i < m && chain_ok(specs, i) implies ((
                #[trigger] t2.resolve(chain_path(specs, i))) matches Some(n) && n.name
                    == specs[i].command@ && n.description == specs[i].description@ && n.action
                    == specs[i].action) by {
                    if i < m - 1 {
                        lemma_insert_frame(t, parent, dep, 0, child, chain_path(specs, i));
                    } else {
                        assert(t2.resolve(chain_path(specs, m - 1)) == Some(child));
                    }
                }
            },
            None => {
                assert(built_upto(specs, m) == t);
                assert(!chain_ok(specs, m - 1));
                assert forall|i: int| 0 <= i < m && chain_ok(specs, i) implies i < m - 1 by {}
            },
        }
    }
}

/// The round trip from table to tree: a row reachable by a valid
/// parent/depth chain is found again by resolving the chain's names from
/// the built root, and the node found stores that row's description and
/// action. The rows must carry distinct names, none of them the root's
/// own: a duplicated name replaces a node in the children mapping, and the
/// earlier row's node is lost.
pub proof fn lemma_build_resolves_chain<A>(specs: Seq<Command<A>>, j: int)
    requires
        distinct_names(specs),
        chain_ok(specs, j),
    ensures
        build_tree(specs).0.resolve(chain_path(specs, j)) matches Some(n) && (n.name
            == specs[j].command@ && n.description == specs[j].description@ && n.action
            == specs[j].action),
{
    lemma_build_inv(specs, specs.len() as int);
    assert(specs.take(specs.len() as int) =~= specs);
    assert(built_upto(specs, specs.len() as int) == build_tree(specs).0);
}

} // verus!
