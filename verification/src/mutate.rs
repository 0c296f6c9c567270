use vstd::prelude::*;

use crate::errors::ContainerError;
use crate::tree::group_view;
use crate::tree::lemma_nodes_suffix_unfold;
use crate::tree::lemma_nodes_suffix_whole;
use crate::tree::lemma_nodes_view;
use crate::tree::node_view;
use crate::tree::nodes_suffix;
use crate::tree::nodes_view;
use crate::tree::Group;
use crate::tree::GroupV;
use crate::tree::Node;
use crate::tree::NodeV;
use crate::tree::Value;
use crate::tree::ValueV;
use crate::tree::EntryV;
use crate::tree::Entry;

verus! {

/// The identifier of a node, group or entry alike.
pub open spec fn spec_node_id(n: NodeV) -> u128 {
    match n {
        NodeV::Group(g) => g.uuid,
        NodeV::Entry(e) => e.uuid,
    }
}

/// Insert `nd` as the last child of the group with identifier `pid` inside
/// `g`; `None` when no group in the subtree carries that identifier.
pub open spec fn spec_insert_group(g: GroupV, pid: u128, nd: NodeV) -> Option<GroupV>
    decreases g, 1nat,
{
    if g.uuid == pid {
        Some(GroupV { uuid: g.uuid, name: g.name, children: g.children.push(nd) })
    } else {
        match spec_insert_in(g.children, pid, nd) {
            Some(ch) => Some(GroupV { uuid: g.uuid, name: g.name, children: ch }),
            None => None,
        }
    }
}

/// Insert `nd` under `pid` inside the first node of `s` whose subtree holds
/// that group, keeping all other nodes as they are.
pub open spec fn spec_insert_in(s: Seq<NodeV>, pid: u128, nd: NodeV) -> Option<Seq<NodeV>>
    decreases s, 0nat,
{
    if s.len() == 0 {
        None
    } else {
        match s[0] {
            NodeV::Group(cg) => match spec_insert_group(cg, pid, nd) {
                Some(cg2) => Some(seq![NodeV::Group(cg2)] + s.drop_first()),
                None => match spec_insert_in(s.drop_first(), pid, nd) {
                    Some(rest) => Some(seq![s[0]] + rest),
                    None => None,
                },
            },
            NodeV::Entry(_) => match spec_insert_in(s.drop_first(), pid, nd) {
                Some(rest) => Some(seq![s[0]] + rest),
                None => None,
            },
        }
    }
}

/// The number of nodes of a subtree, counting the node itself.
pub open spec fn size_node(n: Node) -> nat
    decreases n, 1nat,
{
    match n {
        Node::Group(g) => 1 + size_nodes(g.children@),
        Node::Entry(_) => 1,
    }
}

/// The number of nodes of a run of subtrees.
pub open spec fn size_nodes(s: Seq<Node>) -> nat
    decreases s, 0nat,
{
    if s.len() == 0 {
        0
    } else {
        size_node(s[0]) + size_nodes(s.drop_first())
    }
}

proof fn lemma_size_node_pos(n: Node)
    ensures
        size_node(n) >= 1,
{
    match n {
        Node::Group(_) => {
        },
        Node::Entry(_) => {
        },
    }
}

proof fn lemma_size_nodes_unfold(s: Seq<Node>, i: int)
    requires
        0 <= i < s.len(),
    ensures
        size_nodes(s.skip(i)) == size_node(s[i]) + size_nodes(s.skip(i + 1)),
{
    assert(s.skip(i).len() > 0);
    assert(s.skip(i)[0] == s[i]);
    assert(s.skip(i).drop_first() =~= s.skip(i + 1));
}

/// Removing an element and putting another at its place is a pointwise
/// update.
proof fn lemma_remove_insert_update<A>(s: Seq<A>, i: int, x: A)
    requires
        0 <= i < s.len(),
    ensures
        s.remove(i).insert(i, x) =~= s.update(i, x),
{
}

/// `nodes_view` of a pushed sequence appends the model of the new node.
pub proof fn lemma_nodes_view_push(s: Seq<Node>, x: Node)
    ensures
        nodes_view(s.push(x)) == nodes_view(s).push(node_view(x)),
{
    lemma_nodes_view(s.push(x));
    lemma_nodes_view(s);
    assert(nodes_view(s.push(x)) =~= nodes_view(s).push(node_view(x)));
}

/// Node runs equal in model from `i` on have equal suffix models.
proof fn lemma_nodes_suffix_eq(a: Seq<Node>, b: Seq<Node>, i: int)
    requires
        a.len() == b.len(),
        forall|j: int| i <= j < a.len() ==> node_view(#[trigger] a[j]) == node_view(b[j]),
    ensures
        nodes_suffix(a, i) == nodes_suffix(b, i),
{
    assert(nodes_suffix(a, i) =~= nodes_suffix(b, i));
}

fn insert_rec(g: Group, pid: u128, nd: Node) -> (r: (Group, Option<Node>))
    ensures
        match r.1 {
            None => spec_insert_group(group_view(g), pid, node_view(nd)) == Some(group_view(r.0)),
            Some(n2) => node_view(n2) == node_view(nd) && group_view(r.0) == group_view(g)
                && spec_insert_group(group_view(g), pid, node_view(nd)) is None,
        },
    decreases size_node(Node::Group(g)), 0nat,
{
    let Group { uuid, name, mut children } = g;
    if uuid == pid {
        proof {
            lemma_nodes_view_push(children@, nd);
        }
        children.push(nd);
        let out = Group { uuid, name, children };
        proof {
            assert(group_view(out) =~= GroupV {
                uuid: group_view(g).uuid,
                name: group_view(g).name,
                children: group_view(g).children.push(node_view(nd)),
            });
        }
        (out, None)
    } else {
        proof {
            assert(children@.skip(0) =~= children@);
            lemma_nodes_suffix_whole(children@);
        }
        let (children2, back) = insert_vec(children, 0, pid, nd);
        let out = Group { uuid, name, children: children2 };
        proof {
            lemma_nodes_suffix_whole(children2@);
            match back {
                None => {
                    assert(group_view(out) == GroupV {
                        uuid: group_view(g).uuid,
                        name: group_view(g).name,
                        children: nodes_view(children2@),
                    });
                },
                Some(_) => {
                    lemma_nodes_view(children@);
                    lemma_nodes_view(children2@);
                    assert(nodes_view(children2@) =~= nodes_view(children@));
                    assert(group_view(out) == group_view(g));
                },
            }
        }
        (out, back)
    }
}

fn insert_vec(children: Vec<Node>, i: usize, pid: u128, nd: Node) -> (r: (Vec<Node>, Option<Node>))
    requires
        i <= children@.len(),
    ensures
        r.0@.len() == children@.len(),
        forall|j: int| 0 <= j < i ==> node_view(#[trigger] r.0@[j]) == node_view(children@[j]),
        match r.1 {
            None => spec_insert_in(nodes_suffix(children@, i as int), pid, node_view(nd)) == Some(
                nodes_suffix(r.0@, i as int),
            ),
            Some(n2) => node_view(n2) == node_view(nd) && (forall|j: int|
                i <= j < children@.len() ==> node_view(#[trigger] r.0@[j]) == node_view(
                    children@[j],
                )) && spec_insert_in(
                nodes_suffix(children@, i as int),
                pid,
                node_view(nd),
            ) is None,
        },
    decreases size_nodes(children@.skip(i as int)), 1nat,
{
    if i == children.len() {
        proof {
            assert(nodes_suffix(children@, i as int).len() == 0);
        }
        (children, Some(nd))
    } else {
        let ghost orig = children@;
        proof {
            lemma_nodes_suffix_unfold(orig, i as int);
            lemma_size_nodes_unfold(orig, i as int);
            lemma_size_node_pos(orig[i as int]);
        }
        let mut children = children;
        let c = children.remove(i);
        match c {
            Node::Group(cg) => {
                let (cg2, back) = insert_rec(cg, pid, nd);
                children.insert(i, Node::Group(cg2));
                proof {
                    lemma_remove_insert_update(orig, i as int, Node::Group(cg2));
                    assert(children@ =~= orig.update(i as int, Node::Group(cg2)));
                    assert(children@.skip(i as int + 1) =~= orig.skip(i as int + 1));
                }
                match back {
                    None => {
                        proof {
                            lemma_nodes_suffix_unfold(children@, i as int);
                            lemma_nodes_suffix_eq(children@, orig, i as int + 1);
                            assert(nodes_suffix(children@, i as int) =~= seq![
                                NodeV::Group(group_view(cg2)),
                            ] + nodes_suffix(orig, i as int).drop_first());
                        }
                        (children, None)
                    },
                    Some(nb) => {
                        proof {
                            lemma_size_nodes_unfold(children@, i as int);
                        }
                        let (children3, back3) = insert_vec(children, i + 1, pid, nb);
                        proof {
                            let ghost mid = children@;
                            lemma_nodes_suffix_unfold(orig, i as int);
                            lemma_nodes_suffix_unfold(children3@, i as int);
                            lemma_nodes_suffix_eq(mid, orig, i as int + 1);
                            assert(node_view(children3@[i as int]) == NodeV::Group(group_view(cg2)));
                            assert(nodes_suffix(mid, i as int + 1) == nodes_suffix(
                                orig,
                                i as int + 1,
                            ));
                            match back3 {
                                None => {
                                    assert(nodes_suffix(children3@, i as int) =~= seq![
                                        node_view(orig[i as int]),
                                    ] + nodes_suffix(children3@, i as int + 1));
                                },
                                Some(_) => {
                                    assert forall|j: int| i as int <= j < children3@.len() implies
                                        node_view(#[trigger] children3@[j]) == node_view(
                                        orig[j],
                                    ) by {
                                        if j > i as int {
                                            assert(node_view(children3@[j]) == node_view(mid[j]));
                                            assert(mid[j] == orig[j]);
                                        }
                                    }
                                    lemma_nodes_suffix_eq(children3@, orig, i as int);
                                },
                            }
                        }
                        (children3, back3)
                    },
                }
            },
            Node::Entry(e) => {
                children.insert(i, Node::Entry(e));
                proof {
                    lemma_remove_insert_update(orig, i as int, Node::Entry(e));
                    assert(children@ =~= orig.update(i as int, Node::Entry(e)));
                    assert(children@ =~= orig);
                    lemma_size_nodes_unfold(children@, i as int);
                }
                let (children3, back3) = insert_vec(children, i + 1, pid, nd);
                proof {
                    lemma_nodes_suffix_unfold(orig, i as int);
                    lemma_nodes_suffix_unfold(children3@, i as int);
                    assert(node_view(children3@[i as int]) == node_view(orig[i as int]));
                    match back3 {
                        None => {
                            assert(nodes_suffix(children3@, i as int) =~= seq![
                                node_view(orig[i as int]),
                            ] + nodes_suffix(children3@, i as int + 1));
                        },
                        Some(_) => {
                            assert forall|j: int| i as int <= j < children3@.len() implies
                                node_view(#[trigger] children3@[j]) == node_view(orig[j]) by {
                                if j > i as int {
                                    assert(node_view(children3@[j]) == node_view(
                                        orig.update(i as int, children@[i as int])[j],
                                    ));
                                }
                            }
                            lemma_nodes_suffix_eq(children3@, orig, i as int);
                        },
                    }
                }
                (children3, back3)
            },
        }
    }
}

/// Append `node` to the children of the group with identifier `parent_id`.
/// Returns the identifier of the inserted node; fails with `NodeNotFound`,
/// leaving the tree unchanged, exactly when no group in the tree carries
/// `parent_id`.
pub fn insert_child(root: &mut Group, parent_id: u128, node: Node) -> (r: Result<
    u128,
    ContainerError,
>)
    ensures
        match r {
            Ok(id) => id == spec_node_id(node_view(node)) && spec_insert_group(
                old(root)@,
                parent_id,
                node_view(node),
            ) == Some(final(root)@),
            Err(e) => e == ContainerError::NodeNotFound && final(root)@ == old(root)@
                && spec_insert_group(old(root)@, parent_id, node_view(node)) is None,
        },
{
    let id = match &node {
        Node::Group(g) => g.uuid,
        Node::Entry(e) => e.uuid,
    };
    let mut tmp = Group { uuid: 0, name: String::new(), children: Vec::new() };
    core::mem::swap(root, &mut tmp);
    let (g2, back) = insert_rec(tmp, parent_id, node);
    let mut g2 = g2;
    core::mem::swap(root, &mut g2);
    match back {
        None => Ok(id),
        Some(_) => Err(ContainerError::NodeNotFound),
    }
}

/// Remove from `g` the first descendant node, group or entry, whose
/// identifier is `id`; `None` when no such node exists. The root itself is
/// never removed: it is no child.
pub open spec fn spec_remove_group(g: GroupV, id: u128) -> Option<GroupV>
    decreases g, 1nat,
{
    match spec_remove_in(g.children, id) {
        Some(ch) => Some(GroupV { uuid: g.uuid, name: g.name, children: ch }),
        None => None,
    }
}

/// Remove the first node with identifier `id` from `s`, searching each
/// subtree in order.
pub open spec fn spec_remove_in(s: Seq<NodeV>, id: u128) -> Option<Seq<NodeV>>
    decreases s, 0nat,
{
    if s.len() == 0 {
        None
    } else if spec_node_id(s[0]) == id {
        Some(s.drop_first())
    } else {
        match s[0] {
            NodeV::Group(cg) => match spec_remove_group(cg, id) {
                Some(cg2) => Some(seq![NodeV::Group(cg2)] + s.drop_first()),
                None => match spec_remove_in(s.drop_first(), id) {
                    Some(rest) => Some(seq![s[0]] + rest),
                    None => None,
                },
            },
            NodeV::Entry(_) => match spec_remove_in(s.drop_first(), id) {
                Some(rest) => Some(seq![s[0]] + rest),
                None => None,
            },
        }
    }
}

fn remove_rec(g: Group, id: u128) -> (r: (Group, bool))
    ensures
        r.1 ==> spec_remove_group(group_view(g), id) == Some(group_view(r.0)),
        !r.1 ==> group_view(r.0) == group_view(g) && spec_remove_group(group_view(g), id) is None,
    decreases size_node(Node::Group(g)), 0nat,
{
    let Group { uuid, name, children } = g;
    proof {
        assert(children@.skip(0) =~= children@);
        lemma_nodes_suffix_whole(children@);
    }
    let (children2, removed) = remove_vec(children, 0, id);
    let out = Group { uuid, name, children: children2 };
    proof {
        lemma_nodes_suffix_whole(children2@);
        if removed {
            assert(group_view(out) == GroupV {
                uuid: group_view(g).uuid,
                name: group_view(g).name,
                children: nodes_view(children2@),
            });
        } else {
            lemma_nodes_view(children@);
            lemma_nodes_view(children2@);
            assert(nodes_view(children2@) =~= nodes_view(children@));
            assert(group_view(out) == group_view(g));
        }
    }
    (out, removed)
}

fn remove_vec(children: Vec<Node>, i: usize, id: u128) -> (r: (Vec<Node>, bool))
    requires
        i <= children@.len(),
    ensures
        forall|j: int| 0 <= j < i ==> node_view(#[trigger] r.0@[j]) == node_view(children@[j]),
        r.1 ==> i <= r.0@.len() && spec_remove_in(nodes_suffix(children@, i as int), id) == Some(
            nodes_suffix(r.0@, i as int),
        ),
        !r.1 ==> r.0@.len() == children@.len() && (forall|j: int|
            i <= j < children@.len() ==> node_view(#[trigger] r.0@[j]) == node_view(children@[j]))
            && spec_remove_in(nodes_suffix(children@, i as int), id) is None,
    decreases size_nodes(children@.skip(i as int)), 1nat,
{
    if i == children.len() {
        proof {
            assert(nodes_suffix(children@, i as int).len() == 0);
        }
        (children, false)
    } else {
        let ghost orig = children@;
        proof {
            lemma_nodes_suffix_unfold(orig, i as int);
            lemma_size_nodes_unfold(orig, i as int);
            lemma_size_node_pos(orig[i as int]);
        }
        let cid = match &children[i] {
            Node::Group(cg) => cg.uuid,
            Node::Entry(e) => e.uuid,
        };
        if cid == id {
            let mut children = children;
            children.remove(i);
            proof {
                assert(spec_node_id(node_view(orig[i as int])) == id);
                assert(nodes_suffix(children@, i as int) =~= nodes_suffix(
                    orig,
                    i as int,
                ).drop_first());
            }
            (children, true)
        } else {
            proof {
                assert(spec_node_id(node_view(orig[i as int])) != id);
            }
            let mut children = children;
            let c = children.remove(i);
            match c {
                Node::Group(cg) => {
                    let (cg2, removed) = remove_rec(cg, id);
                    children.insert(i, Node::Group(cg2));
                    proof {
                        lemma_remove_insert_update(orig, i as int, Node::Group(cg2));
                        assert(children@ =~= orig.update(i as int, Node::Group(cg2)));
                        assert(children@.skip(i as int + 1) =~= orig.skip(i as int + 1));
                    }
                    if removed {
                        proof {
                            lemma_nodes_suffix_unfold(children@, i as int);
                            lemma_nodes_suffix_eq(children@, orig, i as int + 1);
                            assert(nodes_suffix(children@, i as int) =~= seq![
                                NodeV::Group(group_view(cg2)),
                            ] + nodes_suffix(orig, i as int).drop_first());
                        }
                        (children, true)
                    } else {
                        proof {
                            lemma_size_nodes_unfold(children@, i as int);
                        }
                        let ghost mid = children@;
                        let (children3, removed3) = remove_vec(children, i + 1, id);
                        proof {
                            lemma_nodes_suffix_unfold(orig, i as int);
                            lemma_nodes_suffix_eq(mid, orig, i as int + 1);
                            if removed3 {
                                lemma_nodes_suffix_unfold(children3@, i as int);
                                assert(node_view(children3@[i as int]) == node_view(
                                    orig[i as int],
                                ));
                                assert(nodes_suffix(children3@, i as int) =~= seq![
                                    node_view(orig[i as int]),
                                ] + nodes_suffix(children3@, i as int + 1));
                            } else {
                                assert forall|j: int|
                                    i as int <= j < children3@.len() implies node_view(
                                    #[trigger] children3@[j],
                                ) == node_view(orig[j]) by {
                                    if j > i as int {
                                        assert(node_view(children3@[j]) == node_view(mid[j]));
                                        assert(mid[j] == orig[j]);
                                    }
                                }
                                lemma_nodes_suffix_eq(children3@, orig, i as int);
                            }
                        }
                        (children3, removed3)
                    }
                },
                Node::Entry(e) => {
                    children.insert(i, Node::Entry(e));
                    proof {
                        lemma_remove_insert_update(orig, i as int, Node::Entry(e));
                        assert(children@ =~= orig.update(i as int, Node::Entry(e)));
                        assert(children@ =~= orig);
                        lemma_size_nodes_unfold(children@, i as int);
                    }
                    let (children3, removed3) = remove_vec(children, i + 1, id);
                    proof {
                        lemma_nodes_suffix_unfold(orig, i as int);
                        if removed3 {
                            lemma_nodes_suffix_unfold(children3@, i as int);
                            assert(node_view(children3@[i as int]) == node_view(orig[i as int]));
                            assert(nodes_suffix(children3@, i as int) =~= seq![
                                node_view(orig[i as int]),
                            ] + nodes_suffix(children3@, i as int + 1));
                        } else {
                            assert forall|j: int|
                                i as int <= j < children3@.len() implies node_view(
                                #[trigger] children3@[j],
                            ) == node_view(orig[j]) by {
                                if j > i as int {
                                    assert(node_view(children3@[j]) == node_view(
                                        orig.update(i as int, children@[i as int])[j],
                                    ));
                                }
                            }
                            lemma_nodes_suffix_eq(children3@, orig, i as int);
                        }
                    }
                    (children3, removed3)
                },
            }
        }
    }
}

/// Remove the node with identifier `node_id` from the tree. Fails with
/// `NodeNotFound`, leaving the tree unchanged, exactly when no descendant
/// of the root carries that identifier; the root itself cannot be removed.
pub fn remove_node(root: &mut Group, node_id: u128) -> (r: Result<(), ContainerError>)
    ensures
        match r {
            Ok(_) => spec_remove_group(old(root)@, node_id) == Some(final(root)@),
            Err(e) => e == ContainerError::NodeNotFound && final(root)@ == old(root)@
                && spec_remove_group(old(root)@, node_id) is None,
        },
{
    let mut tmp = Group { uuid: 0, name: String::new(), children: Vec::new() };
    core::mem::swap(root, &mut tmp);
    let (g2, removed) = remove_rec(tmp, node_id);
    let mut g2 = g2;
    core::mem::swap(root, &mut g2);
    if removed {
        Ok(())
    } else {
        Err(ContainerError::NodeNotFound)
    }
}

/// The three fields every post entry carries: title, author and body.
pub open spec fn spec_post_fields(title: Seq<char>, author: Seq<char>, body: Seq<char>) -> Seq<
    (Seq<char>, ValueV),
> {
    seq![
        ("Title"@, ValueV::Unprotected(title)),
        ("UserName"@, ValueV::Unprotected(author)),
        ("Notes"@, ValueV::Unprotected(body)),
    ]
}

/// The model of a post entry.
pub open spec fn spec_post_entry(
    id: u128,
    title: Seq<char>,
    author: Seq<char>,
    body: Seq<char>,
) -> EntryV {
    EntryV { uuid: id, fields: spec_post_fields(title, author, body) }
}

/// The model of a fresh thread: a group named after the title, holding the
/// opening post as its only entry.
pub open spec fn spec_thread_node(
    thread_id: u128,
    entry_id: u128,
    title: Seq<char>,
    author: Seq<char>,
    body: Seq<char>,
) -> NodeV {
    NodeV::Group(
        GroupV {
            uuid: thread_id,
            name: title,
            children: seq![NodeV::Entry(spec_post_entry(entry_id, title, author, body))],
        },
    )
}

/// The display title of a reply: a fixed prefix and the first forty
/// characters of the body.
pub open spec fn spec_reply_title(body: Seq<char>) -> Seq<char> {
    "Reply: "@ + (if body.len() > 40 {
        body.subrange(0, 40)
    } else {
        body
    })
}

fn build_post_entry(id: u128, title: &String, author: &String, body: &String) -> (e: Entry)
    ensures
        e@ == spec_post_entry(id, title@, author@, body@),
{
    let mut fields: Vec<(String, Value)> = Vec::new();
    fields.push(("Title".to_owned(), Value::Unprotected(title.clone())));
    fields.push(("UserName".to_owned(), Value::Unprotected(author.clone())));
    fields.push(("Notes".to_owned(), Value::Unprotected(body.clone())));
    let e = Entry { uuid: id, fields };
    proof {
        assert(e@ =~= spec_post_entry(id, title@, author@, body@));
    }
    e
}

/// Create a thread under the category `category_id`: a group named after
/// the title whose only child is the opening post. Returns `thread_id`;
/// fails with `NodeNotFound`, leaving the tree unchanged, exactly when no
/// group carries `category_id`.
pub fn add_thread_to_category(
    root: &mut Group,
    category_id: u128,
    title: &String,
    author: &String,
    body: &String,
    thread_id: u128,
    entry_id: u128,
) -> (r: Result<u128, ContainerError>)
    ensures
        match r {
            Ok(tid) => tid == thread_id && spec_insert_group(
                old(root)@,
                category_id,
                spec_thread_node(thread_id, entry_id, title@, author@, body@),
            ) == Some(final(root)@),
            Err(e) => e == ContainerError::NodeNotFound && final(root)@ == old(root)@
                && spec_insert_group(
                old(root)@,
                category_id,
                spec_thread_node(thread_id, entry_id, title@, author@, body@),
            ) is None,
        },
{
    let post = build_post_entry(entry_id, title, author, body);
    let mut children: Vec<Node> = Vec::new();
    children.push(Node::Entry(post));
    proof {
        lemma_nodes_view(children@);
        assert(nodes_view(children@) =~= seq![
            NodeV::Entry(spec_post_entry(entry_id, title@, author@, body@)),
        ]);
    }
    let tg = Group { uuid: thread_id, name: title.clone(), children };
    let nd = Node::Group(tg);
    proof {
        assert(node_view(nd) =~= spec_thread_node(thread_id, entry_id, title@, author@, body@));
    }
    insert_child(root, category_id, nd)
}

/// Create a reply entry in the thread `thread_id`, its title derived from
/// the body. Returns `entry_id`; fails with `NodeNotFound`, leaving the
/// tree unchanged, exactly when no group carries `thread_id`.
pub fn add_reply_to_thread(
    root: &mut Group,
    thread_id: u128,
    author: &String,
    body: &String,
    entry_id: u128,
) -> (r: Result<u128, ContainerError>)
    ensures
        match r {
            Ok(rid) => rid == entry_id && spec_insert_group(
                old(root)@,
                thread_id,
                NodeV::Entry(spec_post_entry(entry_id, spec_reply_title(body@), author@, body@)),
            ) == Some(final(root)@),
            Err(e) => e == ContainerError::NodeNotFound && final(root)@ == old(root)@
                && spec_insert_group(
                old(root)@,
                thread_id,
                NodeV::Entry(spec_post_entry(entry_id, spec_reply_title(body@), author@, body@)),
            ) is None,
        },
{
    let mut title = "Reply: ".to_owned();
    let blen = body.as_str().unicode_len();
    let cut = if blen > 40 {
        40
    } else {
        blen
    };
    let snippet = body.as_str().substring_char(0, cut);
    title.append(snippet);
    proof {
        assert(title@ == spec_reply_title(body@));
    }
    let post = build_post_entry(entry_id, &title, author, body);
    insert_child(root, thread_id, Node::Entry(post))
}

/// A fresh random node identifier. Nothing is promised of its value;
/// uniqueness holds with overwhelming probability, as for any random
/// 128-bit identifier.
pub fn fresh_node_id() -> u128 {
    let hi = crate::crypto::random_u64();
    let lo = crate::crypto::random_u64();
    ((hi as u128) << 64) | (lo as u128)
}

/// Where insertion finds no target, neither does a query: a subtree that
/// refuses `pid` holds no group with that identifier.
proof fn lemma_insert_none_find_none_g(g: GroupV, pid: u128, nd: NodeV)
    requires
        spec_insert_group(g, pid, nd) is None,
    ensures
        crate::tree::spec_find_group(g, pid) is None,
    decreases g, 1nat,
{
    lemma_insert_none_find_none_s(g.children, pid, nd);
}

proof fn lemma_insert_none_find_none_s(s: Seq<NodeV>, pid: u128, nd: NodeV)
    requires
        spec_insert_in(s, pid, nd) is None,
    ensures
        crate::tree::spec_find_in(s, pid) is None,
    decreases s, 0nat,
{
    if s.len() > 0 {
        match s[0] {
            NodeV::Group(cg) => {
                lemma_insert_none_find_none_g(cg, pid, nd);
                lemma_insert_none_find_none_s(s.drop_first(), pid, nd);
            },
            NodeV::Entry(_) => {
                lemma_insert_none_find_none_s(s.drop_first(), pid, nd);
            },
        }
    }
}

/// Atomicity of a mutation as a query sees it: when inserting `nd` under
/// `pid` turns `g` into `g2`, a query for `pid` finds, in `g2`, exactly the
/// group it found in `g` with `nd` appended to its children - never a
/// state in which the child is present but its parent not yet updated.
pub proof fn lemma_insert_atomic_for_queries(g: GroupV, pid: u128, nd: NodeV, g2: GroupV)
    requires
        spec_insert_group(g, pid, nd) == Some(g2),
    ensures
        crate::tree::spec_find_group(g, pid) is Some,
        ({
            let f = crate::tree::spec_find_group(g, pid).unwrap();
            crate::tree::spec_find_group(g2, pid) == Some(
                GroupV { uuid: f.uuid, name: f.name, children: f.children.push(nd) },
            )
        }),
    decreases g, 1nat,
{
    if g.uuid == pid {
    } else {
        let ch2 = spec_insert_in(g.children, pid, nd).unwrap();
        lemma_insert_atomic_for_queries_s(g.children, pid, nd, ch2);
    }
}

proof fn lemma_insert_atomic_for_queries_s(s: Seq<NodeV>, pid: u128, nd: NodeV, s2: Seq<NodeV>)
    requires
        spec_insert_in(s, pid, nd) == Some(s2),
    ensures
        crate::tree::spec_find_in(s, pid) is Some,
        ({
            let f = crate::tree::spec_find_in(s, pid).unwrap();
            crate::tree::spec_find_in(s2, pid) == Some(
                GroupV { uuid: f.uuid, name: f.name, children: f.children.push(nd) },
            )
        }),
    decreases s, 0nat,
{
    match s[0] {
        NodeV::Group(cg) => {
            match spec_insert_group(cg, pid, nd) {
                Some(cg2) => {
                    lemma_insert_atomic_for_queries(cg, pid, nd, cg2);
                    assert(s2 == seq![NodeV::Group(cg2)] + s.drop_first());
                    assert(s2[0] == NodeV::Group(cg2));
                },
                None => {
                    lemma_insert_none_find_none_g(cg, pid, nd);
                    let rest2 = spec_insert_in(s.drop_first(), pid, nd).unwrap();
                    lemma_insert_atomic_for_queries_s(s.drop_first(), pid, nd, rest2);
                    assert(s2 == seq![s[0]] + rest2);
                    assert(s2[0] == s[0]);
                    assert(s2.drop_first() =~= rest2);
                },
            }
        },
        NodeV::Entry(_) => {
            let rest2 = spec_insert_in(s.drop_first(), pid, nd).unwrap();
            lemma_insert_atomic_for_queries_s(s.drop_first(), pid, nd, rest2);
            assert(s2 == seq![s[0]] + rest2);
            assert(s2[0] == s[0]);
            assert(s2.drop_first() =~= rest2);
        },
    }
}

/// Every identifier of the subtree at `n`: the node's own, then its
/// descendants', in order.
pub open spec fn spec_node_ids(n: NodeV) -> Seq<u128>
    decreases n, 1nat,
{
    match n {
        NodeV::Group(g) => seq![g.uuid] + spec_ids_in(g.children),
        NodeV::Entry(e) => seq![e.uuid],
    }
}

/// The identifiers of a run of subtrees, in order.
pub open spec fn spec_ids_in(s: Seq<NodeV>) -> Seq<u128>
    decreases s, 0nat,
{
    if s.len() == 0 {
        Seq::<u128>::empty()
    } else {
        spec_node_ids(s[0]) + spec_ids_in(s.drop_first())
    }
}

/// The identifiers of a whole tree, the root's first.
pub open spec fn spec_group_ids(g: GroupV) -> Seq<u128> {
    seq![g.uuid] + spec_ids_in(g.children)
}

/// Identifier-based lookup is unambiguous: no identifier occurs twice in
/// the tree.
pub open spec fn spec_ids_unique(g: GroupV) -> bool {
    spec_group_ids(g).no_duplicates()
}

proof fn lemma_ids_in_push(s: Seq<NodeV>, x: NodeV)
    ensures
        spec_ids_in(s.push(x)) =~= spec_ids_in(s) + spec_node_ids(x),
    decreases s.len(),
{
    assert(spec_ids_in(Seq::<NodeV>::empty()) == Seq::<u128>::empty());
    if s.len() == 0 {
        assert(s.push(x)[0] == x);
        assert(s.push(x).drop_first() =~= Seq::<NodeV>::empty());
        assert(spec_ids_in(s.push(x)) =~= spec_node_ids(x));
    } else {
        assert(s.push(x)[0] == s[0]);
        assert(s.push(x).drop_first() =~= s.drop_first().push(x));
        lemma_ids_in_push(s.drop_first(), x);
        assert(spec_ids_in(s.push(x)) =~= spec_node_ids(s[0]) + (spec_ids_in(s.drop_first())
            + spec_node_ids(x)));
    }
}

/// What an insert does to the identifier population: the tree after holds
/// exactly the identifiers it held before plus those of the inserted node.
pub proof fn lemma_insert_ids(g: GroupV, pid: u128, nd: NodeV, g2: GroupV)
    requires
        spec_insert_group(g, pid, nd) == Some(g2),
    ensures
        spec_group_ids(g2).to_multiset() == spec_group_ids(g).to_multiset().add(
            spec_node_ids(nd).to_multiset(),
        ),
    decreases g, 1nat,
{
    broadcast use vstd::multiset::group_multiset_axioms;

    if g.uuid == pid {
        lemma_ids_in_push(g.children, nd);
        vstd::seq_lib::lemma_multiset_commutative(seq![g.uuid], spec_ids_in(g2.children));
        vstd::seq_lib::lemma_multiset_commutative(seq![g.uuid], spec_ids_in(g.children));
        vstd::seq_lib::lemma_multiset_commutative(spec_ids_in(g.children), spec_node_ids(nd));
        assert(spec_group_ids(g2).to_multiset() =~= spec_group_ids(g).to_multiset().add(
            spec_node_ids(nd).to_multiset(),
        ));
    } else {
        let ch2 = spec_insert_in(g.children, pid, nd).unwrap();
        lemma_insert_ids_s(g.children, pid, nd, ch2);
        vstd::seq_lib::lemma_multiset_commutative(seq![g.uuid], spec_ids_in(g2.children));
        vstd::seq_lib::lemma_multiset_commutative(seq![g.uuid], spec_ids_in(g.children));
        assert(spec_group_ids(g2).to_multiset() =~= spec_group_ids(g).to_multiset().add(
            spec_node_ids(nd).to_multiset(),
        ));
    }
}

proof fn lemma_insert_ids_s(s: Seq<NodeV>, pid: u128, nd: NodeV, s2: Seq<NodeV>)
    requires
        spec_insert_in(s, pid, nd) == Some(s2),
    ensures
        spec_ids_in(s2).to_multiset() == spec_ids_in(s).to_multiset().add(
            spec_node_ids(nd).to_multiset(),
        ),
    decreases s, 0nat,
{
    broadcast use vstd::multiset::group_multiset_axioms;

    match s[0] {
        NodeV::Group(cg) => {
            match spec_insert_group(cg, pid, nd) {
                Some(cg2) => {
                    lemma_insert_ids(cg, pid, nd, cg2);
                    assert(s2 == seq![NodeV::Group(cg2)] + s.drop_first());
                    assert(s2[0] == NodeV::Group(cg2));
                    assert(s2.drop_first() =~= s.drop_first());
                    assert(spec_node_ids(NodeV::Group(cg2)) == spec_group_ids(cg2));
                    assert(spec_node_ids(s[0]) == spec_group_ids(cg));
                    vstd::seq_lib::lemma_multiset_commutative(
                        spec_node_ids(NodeV::Group(cg2)),
                        spec_ids_in(s.drop_first()),
                    );
                    vstd::seq_lib::lemma_multiset_commutative(
                        spec_node_ids(s[0]),
                        spec_ids_in(s.drop_first()),
                    );
                    assert(spec_ids_in(s2).to_multiset() =~= spec_ids_in(s).to_multiset().add(
                        spec_node_ids(nd).to_multiset(),
                    ));
                },
                None => {
                    let rest2 = spec_insert_in(s.drop_first(), pid, nd).unwrap();
                    lemma_insert_ids_s(s.drop_first(), pid, nd, rest2);
                    assert(s2 == seq![s[0]] + rest2);
                    assert(s2[0] == s[0]);
                    assert(s2.drop_first() =~= rest2);
                    vstd::seq_lib::lemma_multiset_commutative(spec_node_ids(s[0]), spec_ids_in(rest2));
                    vstd::seq_lib::lemma_multiset_commutative(
                        spec_node_ids(s[0]),
                        spec_ids_in(s.drop_first()),
                    );
                    assert(spec_ids_in(s2).to_multiset() =~= spec_ids_in(s).to_multiset().add(
                        spec_node_ids(nd).to_multiset(),
                    ));
                },
            }
        },
        NodeV::Entry(_) => {
            let rest2 = spec_insert_in(s.drop_first(), pid, nd).unwrap();
            lemma_insert_ids_s(s.drop_first(), pid, nd, rest2);
            assert(s2 == seq![s[0]] + rest2);
            assert(s2[0] == s[0]);
            assert(s2.drop_first() =~= rest2);
            vstd::seq_lib::lemma_multiset_commutative(spec_node_ids(s[0]), spec_ids_in(rest2));
            vstd::seq_lib::lemma_multiset_commutative(
                spec_node_ids(s[0]),
                spec_ids_in(s.drop_first()),
            );
            assert(spec_ids_in(s2).to_multiset() =~= spec_ids_in(s).to_multiset().add(
                spec_node_ids(nd).to_multiset(),
            ));
        },
    }
}

/// Fresh identifiers keep lookup unambiguous: inserting a node whose
/// identifiers are themselves distinct and occur nowhere in the tree
/// preserves tree-wide identifier uniqueness, the Data Model invariant
/// that makes identifier-based lookup well defined.
pub proof fn lemma_insert_preserves_unique_ids(g: GroupV, pid: u128, nd: NodeV, g2: GroupV)
    requires
        spec_insert_group(g, pid, nd) == Some(g2),
        spec_ids_unique(g),
        spec_node_ids(nd).no_duplicates(),
        forall|id: u128| spec_node_ids(nd).contains(id) ==> !spec_group_ids(g).contains(id),
    ensures
        spec_ids_unique(g2),
{
    broadcast use vstd::multiset::group_multiset_axioms;

    lemma_insert_ids(g, pid, nd, g2);
    spec_group_ids(g).lemma_multiset_has_no_duplicates();
    spec_node_ids(nd).lemma_multiset_has_no_duplicates();
    spec_group_ids(g).to_multiset_ensures();
    spec_node_ids(nd).to_multiset_ensures();
    spec_group_ids(g2).to_multiset_ensures();
    assert forall|x: u128|
        spec_group_ids(g2).to_multiset().count(x) > 0 implies spec_group_ids(
        g2,
    ).to_multiset().count(x) == 1 by {
        assert(spec_group_ids(g2).to_multiset().count(x) == spec_group_ids(g).to_multiset().count(
            x,
        ) + spec_node_ids(nd).to_multiset().count(x));
        if spec_group_ids(g).to_multiset().count(x) > 0 {
            assert(spec_group_ids(g).contains(x));
            assert(!spec_node_ids(nd).contains(x));
            assert(spec_node_ids(nd).to_multiset().count(x) == 0);
        } else {
            assert(spec_node_ids(nd).to_multiset().count(x) > 0);
            assert(spec_node_ids(nd).contains(x));
        }
    }
    spec_group_ids(g2).lemma_multiset_has_no_duplicates_conv();
}

/// The identifiers a fresh thread brings into the tree: exactly the thread
/// group's and its opening post's.
pub proof fn lemma_thread_node_ids(
    thread_id: u128,
    entry_id: u128,
    title: Seq<char>,
    author: Seq<char>,
    body: Seq<char>,
)
    ensures
        spec_node_ids(spec_thread_node(thread_id, entry_id, title, author, body)) == seq![
            thread_id,
            entry_id,
        ],
{
    let nd = spec_thread_node(thread_id, entry_id, title, author, body);
    let post = NodeV::Entry(spec_post_entry(entry_id, title, author, body));
    assert(spec_ids_in(Seq::<NodeV>::empty()) == Seq::<u128>::empty());
    assert(seq![post][0] == post);
    assert(seq![post].drop_first() =~= Seq::<NodeV>::empty());
    assert(spec_ids_in(seq![post]) == spec_node_ids(post) + spec_ids_in(
        seq![post].drop_first(),
    ));
    assert(spec_node_ids(post) =~= seq![entry_id]);
    assert(spec_ids_in(seq![post]) =~= seq![entry_id]);
    assert(spec_node_ids(nd) =~= seq![thread_id, entry_id]);
}

/// The Data Model invariant at the forum's main mutation: creating a thread
/// with two fresh, distinct identifiers under any category keeps every
/// identifier in the tree unique, so lookup stays unambiguous.
pub proof fn lemma_add_thread_preserves_unique_ids(
    g: GroupV,
    category_id: u128,
    thread_id: u128,
    entry_id: u128,
    title: Seq<char>,
    author: Seq<char>,
    body: Seq<char>,
    g2: GroupV,
)
    requires
        spec_insert_group(
            g,
            category_id,
            spec_thread_node(thread_id, entry_id, title, author, body),
        ) == Some(g2),
        spec_ids_unique(g),
        thread_id != entry_id,
        !spec_group_ids(g).contains(thread_id),
        !spec_group_ids(g).contains(entry_id),
    ensures
        spec_ids_unique(g2),
{
    let nd = spec_thread_node(thread_id, entry_id, title, author, body);
    lemma_thread_node_ids(thread_id, entry_id, title, author, body);
    assert(spec_node_ids(nd).no_duplicates());
    assert forall|id: u128| spec_node_ids(nd).contains(id) implies !spec_group_ids(g).contains(
        id,
    ) by {
        assert(id == thread_id || id == entry_id);
    }
    lemma_insert_preserves_unique_ids(g, category_id, nd, g2);
}

} // verus!
