use vstd::prelude::*;

verus! {

/// A field value of an entry: plain text, or bytes that must remain
/// encrypted at rest and are visible only in decrypted memory.
#[derive(Debug)]
pub enum Value {
    Unprotected(String),
    Protected(Vec<u8>),
}

/// An entry: a leaf node owning a mapping from field names to field values.
#[derive(Debug)]
pub struct Entry {
    pub uuid: u128,
    pub fields: Vec<(String, Value)>,
}

/// A group: an inner node with a name, owning an ordered sequence of child
/// nodes. Exactly one group is the root of a tree.
#[derive(Debug)]
pub struct Group {
    pub uuid: u128,
    pub name: String,
    pub children: Vec<Node>,
}

/// A node of the tree: a group or an entry.
#[derive(Debug)]
pub enum Node {
    Group(Group),
    Entry(Entry),
}

/// The model of a field value.
#[verifier::ext_equal]
pub ghost enum ValueV {
    Unprotected(Seq<char>),
    Protected(Seq<u8>),
}

/// The model of an entry.
#[verifier::ext_equal]
pub ghost struct EntryV {
    pub uuid: u128,
    pub fields: Seq<(Seq<char>, ValueV)>,
}

/// The model of a group.
#[verifier::ext_equal]
pub ghost struct GroupV {
    pub uuid: u128,
    pub name: Seq<char>,
    pub children: Seq<NodeV>,
}

/// The model of a node.
#[verifier::ext_equal]
pub ghost enum NodeV {
    Group(GroupV),
    Entry(EntryV),
}

impl View for Value {
    type V = ValueV;

    open spec fn view(&self) -> ValueV {
        match self {
            Value::Unprotected(s) => ValueV::Unprotected(s@),
            Value::Protected(b) => ValueV::Protected(b@),
        }
    }
}

impl View for Entry {
    type V = EntryV;

    open spec fn view(&self) -> EntryV {
        EntryV {
            uuid: self.uuid,
            fields: Seq::new(self.fields@.len(), |i: int| (self.fields@[i].0@, self.fields@[i].1@)),
        }
    }
}

/// The model of a node, built structurally over the whole subtree.
pub open spec fn node_view(n: Node) -> NodeV
    decreases n,
{
    match n {
        Node::Group(g) => NodeV::Group(group_view(g)),
        Node::Entry(e) => NodeV::Entry(e@),
    }
}

/// The models of a sequence of nodes, in order.
pub open spec fn nodes_view(s: Seq<Node>) -> Seq<NodeV>
    decreases s,
{
    if s.len() == 0 {
        Seq::<NodeV>::empty()
    } else {
        seq![node_view(s[0])] + nodes_view(s.drop_first())
    }
}

/// `nodes_view` maps each node to its model, position by position.
pub proof fn lemma_nodes_view(s: Seq<Node>)
    ensures
        nodes_view(s).len() == s.len(),
        forall|i: int| 0 <= i < s.len() ==> nodes_view(s)[i] == node_view(s[i]),
    decreases s.len(),
{
    if s.len() > 0 {
        lemma_nodes_view(s.drop_first());
        assert forall|i: int| 0 <= i < s.len() implies nodes_view(s)[i] == node_view(s[i]) by {
            if i > 0 {
                assert(nodes_view(s)[i] == nodes_view(s.drop_first())[i - 1]);
                assert(s.drop_first()[i - 1] == s[i]);
            }
        }
    }
}

/// The model of a group, built structurally over the whole subtree.
pub open spec fn group_view(g: Group) -> GroupV
    decreases g,
{
    GroupV { uuid: g.uuid, name: g.name@, children: nodes_view(g.children@) }
}

impl View for Node {
    type V = NodeV;

    open spec fn view(&self) -> NodeV {
        node_view(*self)
    }
}

impl View for Group {
    type V = GroupV;

    open spec fn view(&self) -> GroupV {
        group_view(*self)
    }
}

/// Find the group with the given identifier: the group itself if its
/// identifier matches, else the first match in a depth-first walk of its
/// child groups. Entries never match.
pub open spec fn spec_find_group(g: GroupV, id: u128) -> Option<GroupV>
    decreases g, 1nat,
{
    if g.uuid == id {
        Some(g)
    } else {
        spec_find_in(g.children, id)
    }
}

/// Find the group with the given identifier among the nodes of `s`, in order.
pub open spec fn spec_find_in(s: Seq<NodeV>, id: u128) -> Option<GroupV>
    decreases s, 0nat,
{
    if s.len() == 0 {
        None
    } else {
        match s[0] {
            NodeV::Group(cg) => match spec_find_group(cg, id) {
                Some(f) => Some(f),
                None => spec_find_in(s.drop_first(), id),
            },
            NodeV::Entry(_) => spec_find_in(s.drop_first(), id),
        }
    }
}

/// The number of entries in the subtree rooted at `g`, nested groups
/// included.
pub open spec fn spec_count_entries(g: GroupV) -> nat
    decreases g, 1nat,
{
    spec_count_in(g.children)
}

/// The number of entries among the nodes of `s`, their subtrees included.
pub open spec fn spec_count_in(s: Seq<NodeV>) -> nat
    decreases s, 0nat,
{
    if s.len() == 0 {
        0
    } else {
        (match s[0] {
            NodeV::Group(cg) => spec_count_entries(cg),
            NodeV::Entry(_) => 1nat,
        }) + spec_count_in(s.drop_first())
    }
}

/// The smaller of two naturals.
pub open spec fn nat_min(a: nat, b: nat) -> nat {
    if a <= b {
        a
    } else {
        b
    }
}

/// Recursively find a group by its identifier starting from `g`.
pub fn find_group_by_id<'a>(g: &'a Group, id: u128) -> (r: Option<&'a Group>)
    ensures
        match r {
            Some(f) => spec_find_group(g@, id) == Some(f@),
            None => spec_find_group(g@, id) is None,
        },
    decreases *g, 1nat,
{
    if g.uuid == id {
        Some(g)
    } else {
        proof {
            lemma_nodes_suffix_whole(g.children@);
        }
        find_group_in(&g.children, 0, id)
    }
}

/// From position zero the suffix models are the models of the whole sequence.
pub proof fn lemma_nodes_suffix_whole(s: Seq<Node>)
    ensures
        nodes_suffix(s, 0) == nodes_view(s),
{
    lemma_nodes_view(s);
    assert(nodes_suffix(s, 0) =~= nodes_view(s));
}

fn find_group_in<'a>(children: &'a Vec<Node>, i: usize, id: u128) -> (r: Option<&'a Group>)
    requires
        i <= children@.len(),
    ensures
        match r {
            Some(f) => spec_find_in(nodes_suffix(children@, i as int), id) == Some(f@),
            None => spec_find_in(nodes_suffix(children@, i as int), id) is None,
        },
    decreases *children, 0nat, children@.len() - i,
{
    if i == children.len() {
        None
    } else {
        proof {
            lemma_nodes_suffix_unfold(children@, i as int);
        }
        match &children[i] {
            Node::Group(cg) => {
                match find_group_by_id(cg, id) {
                    Some(f) => Some(f),
                    None => find_group_in(children, i + 1, id),
                }
            },
            Node::Entry(_) => find_group_in(children, i + 1, id),
        }
    }
}

/// The models of the nodes of `s` from position `i` on.
pub open spec fn nodes_suffix(s: Seq<Node>, i: int) -> Seq<NodeV> {
    Seq::new(if 0 <= i <= s.len() {
        (s.len() - i) as nat
    } else {
        0nat
    }, |j: int| node_view(s[i + j]))
}

pub proof fn lemma_nodes_suffix_unfold(s: Seq<Node>, i: int)
    requires
        0 <= i < s.len(),
    ensures
        nodes_suffix(s, i).len() == s.len() - i,
        nodes_suffix(s, i)[0] == node_view(s[i]),
        nodes_suffix(s, i).drop_first() =~= nodes_suffix(s, i + 1),
{
}

/// Recursively count all entries under a group, nested groups included;
/// the count saturates at the largest machine value.
pub fn count_entries_in_group(g: &Group) -> (r: u64)
    ensures
        r as nat == nat_min(spec_count_entries(g@), u64::MAX as nat),
    decreases *g, 1nat,
{
    proof {
        lemma_nodes_suffix_whole(g.children@);
    }
    count_entries_in(&g.children, 0)
}

fn count_entries_in(children: &Vec<Node>, i: usize) -> (r: u64)
    requires
        i <= children@.len(),
    ensures
        r as nat == nat_min(spec_count_in(nodes_suffix(children@, i as int)), u64::MAX as nat),
    decreases *children, 0nat, children@.len() - i,
{
    if i == children.len() {
        0
    } else {
        proof {
            lemma_nodes_suffix_unfold(children@, i as int);
        }
        let here: u64 = match &children[i] {
            Node::Group(cg) => count_entries_in_group(cg),
            Node::Entry(_) => 1,
        };
        let rest = count_entries_in(children, i + 1);
        if here > u64::MAX - rest {
            u64::MAX
        } else {
            here + rest
        }
    }
}

} // verus!
