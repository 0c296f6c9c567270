use vstd::prelude::*;

use crate::tree::find_group_by_id;
use crate::tree::group_view;
use crate::tree::lemma_nodes_suffix_unfold;
use crate::tree::lemma_nodes_suffix_whole;
use crate::tree::nat_min;
use crate::tree::nodes_suffix;
use crate::tree::spec_count_entries;
use crate::tree::spec_find_group;
use crate::tree::Entry;
use crate::tree::EntryV;
use crate::tree::Group;
use crate::tree::Node;
use crate::tree::NodeV;
use crate::tree::Value;
use crate::tree::ValueV;

verus! {

/// A top-level category: a first-level group under the root.
pub struct CategoryDto {
    pub id: u128,
    pub name: String,
}

/// Summary of a thread within a category.
pub struct ThreadSummaryDto {
    pub id: u128,
    pub title: String,
    pub post_count: u64,
}

/// A single post, an entry inside a thread.
pub struct PostDto {
    pub id: u128,
    pub title: String,
    pub author: String,
    pub body: String,
}

/// Full thread detail with all its posts.
pub struct ThreadDetailDto {
    pub id: u128,
    pub title: String,
    pub posts: Vec<PostDto>,
}

/// What a caller supplies to create a thread.
pub struct CreateThreadRequest {
    pub category_id: u128,
    pub title: String,
    pub author: String,
    pub body: String,
}

/// What a caller supplies to create a reply.
pub struct CreateReplyRequest {
    pub author: String,
    pub body: String,
}

/// The value of the first field of `fs` named `name`, if any.
pub open spec fn spec_get_field_in(fs: Seq<(Seq<char>, ValueV)>, name: Seq<char>) -> Option<
    ValueV,
>
    decreases fs.len(),
{
    if fs.len() == 0 {
        None
    } else if fs[0].0 == name {
        Some(fs[0].1)
    } else {
        spec_get_field_in(fs.drop_first(), name)
    }
}

/// The plain text of the field `name` of an entry: its characters when the
/// field exists and is unprotected, else empty. Protected values are never
/// exposed through a query.
pub open spec fn spec_field_text(e: EntryV, name: Seq<char>) -> Seq<char> {
    match spec_get_field_in(e.fields, name) {
        Some(ValueV::Unprotected(s)) => s,
        _ => Seq::<char>::empty(),
    }
}

/// The categories among `s`: the identifier and name of each group, in
/// order; entries are passed over.
pub open spec fn spec_categories_in(s: Seq<NodeV>) -> Seq<(u128, Seq<char>)>
    decreases s,
{
    if s.len() == 0 {
        Seq::<(u128, Seq<char>)>::empty()
    } else {
        (match s[0] {
            NodeV::Group(g) => seq![(g.uuid, g.name)],
            NodeV::Entry(_) => Seq::<(u128, Seq<char>)>::empty(),
        }) + spec_categories_in(s.drop_first())
    }
}

/// The thread summaries among `s`: identifier, title and recursive entry
/// count of each group, the count saturated at the largest machine value.
pub open spec fn spec_threads_in(s: Seq<NodeV>) -> Seq<(u128, Seq<char>, nat)>
    decreases s,
{
    if s.len() == 0 {
        Seq::<(u128, Seq<char>, nat)>::empty()
    } else {
        (match s[0] {
            NodeV::Group(g) => seq![
                (g.uuid, g.name, nat_min(spec_count_entries(g), u64::MAX as nat)),
            ],
            NodeV::Entry(_) => Seq::<(u128, Seq<char>, nat)>::empty(),
        }) + spec_threads_in(s.drop_first())
    }
}

/// The posts among `s`: identifier, title, author and body text of each
/// entry, in order; groups are passed over.
pub open spec fn spec_posts_in(s: Seq<NodeV>) -> Seq<(u128, Seq<char>, Seq<char>, Seq<char>)>
    decreases s,
{
    if s.len() == 0 {
        Seq::<(u128, Seq<char>, Seq<char>, Seq<char>)>::empty()
    } else {
        (match s[0] {
            NodeV::Entry(e) => seq![
                (
                    e.uuid,
                    spec_field_text(e, "Title"@),
                    spec_field_text(e, "UserName"@),
                    spec_field_text(e, "Notes"@),
                ),
            ],
            NodeV::Group(_) => Seq::<(u128, Seq<char>, Seq<char>, Seq<char>)>::empty(),
        }) + spec_posts_in(s.drop_first())
    }
}

/// The models of a run of category summaries.
pub open spec fn cat_views(ds: Seq<CategoryDto>) -> Seq<(u128, Seq<char>)> {
    Seq::new(ds.len(), |i: int| (ds[i].id, ds[i].name@))
}

/// The models of a run of thread summaries.
pub open spec fn thread_views(ds: Seq<ThreadSummaryDto>) -> Seq<(u128, Seq<char>, nat)> {
    Seq::new(ds.len(), |i: int| (ds[i].id, ds[i].title@, ds[i].post_count as nat))
}

/// The models of a run of posts.
pub open spec fn post_views(ds: Seq<PostDto>) -> Seq<(u128, Seq<char>, Seq<char>, Seq<char>)> {
    Seq::new(ds.len(), |i: int| (ds[i].id, ds[i].title@, ds[i].author@, ds[i].body@))
}

fn get_field_text_in(fields: &Vec<(String, Value)>, i: usize, key: &String) -> (r: String)
    requires
        i <= fields@.len(),
    ensures
        (match spec_get_field_in(crate::payload::fields_suffix(fields@, i as int), key@) {
            Some(ValueV::Unprotected(s)) => s,
            _ => Seq::<char>::empty(),
        }) == r@,
    decreases fields@.len() - i,
{
    let ghost fsv = crate::payload::fields_suffix(fields@, i as int);
    if i == fields.len() {
        proof {
            assert(fsv.len() == 0);
        }
        String::new()
    } else {
        proof {
            assert(fsv.len() == fields@.len() - i);
            assert(fsv[0] == (fields@[i as int].0@, fields@[i as int].1@));
            assert(fsv.drop_first() =~= crate::payload::fields_suffix(fields@, i as int + 1));
        }
        let hit = fields[i].0.eq(key);
        proof {
            assert(hit == (fields@[i as int].0@ == key@));
        }
        if hit {
            proof {
                assert(spec_get_field_in(fsv, key@) == Some(fsv[0].1));
            }
            match &fields[i].1 {
                Value::Unprotected(s) => s.clone(),
                Value::Protected(_) => String::new(),
            }
        } else {
            proof {
                assert(spec_get_field_in(fsv, key@) == spec_get_field_in(
                    crate::payload::fields_suffix(fields@, i as int + 1),
                    key@,
                ));
            }
            get_field_text_in(fields, i + 1, key)
        }
    }
}

/// Convert an entry into a post: its identifier and the plain text of its
/// title, author and body fields.
pub fn entry_to_post_dto(entry: &Entry) -> (d: PostDto)
    ensures
        d.id == entry@.uuid,
        d.title@ == spec_field_text(entry@, "Title"@),
        d.author@ == spec_field_text(entry@, "UserName"@),
        d.body@ == spec_field_text(entry@, "Notes"@),
{
    proof {
        assert(crate::payload::fields_suffix(entry.fields@, 0) =~= entry@.fields);
    }
    let title = get_field_text_in(&entry.fields, 0, &"Title".to_owned());
    let author = get_field_text_in(&entry.fields, 0, &"UserName".to_owned());
    let body = get_field_text_in(&entry.fields, 0, &"Notes".to_owned());
    PostDto { id: entry.uuid, title, author, body }
}

fn list_categories_in(children: &Vec<Node>, i: usize) -> (r: Vec<CategoryDto>)
    requires
        i <= children@.len(),
    ensures
        cat_views(r@) == spec_categories_in(nodes_suffix(children@, i as int)),
    decreases children@.len() - i,
{
    if i == children.len() {
        let r: Vec<CategoryDto> = Vec::new();
        proof {
            assert(cat_views(r@) =~= spec_categories_in(nodes_suffix(children@, i as int)));
        }
        r
    } else {
        proof {
            lemma_nodes_suffix_unfold(children@, i as int);
        }
        let mut rest = list_categories_in(children, i + 1);
        match &children[i] {
            Node::Group(g) => {
                rest.insert(0, CategoryDto { id: g.uuid, name: g.name.clone() });
                proof {
                    assert(cat_views(rest@) =~= seq![(g.uuid, g.name@)] + spec_categories_in(
                        nodes_suffix(children@, i as int + 1),
                    ));
                }
                rest
            },
            Node::Entry(_) => {
                proof {
                    assert(cat_views(rest@) =~= spec_categories_in(
                        nodes_suffix(children@, i as int),
                    ));
                }
                rest
            },
        }
    }
}

/// List the top-level categories: the identifier and name of every child
/// group of the root, in order.
pub fn list_categories(root: &Group) -> (r: Vec<CategoryDto>)
    ensures
        cat_views(r@) == spec_categories_in(group_view(*root).children),
{
    proof {
        lemma_nodes_suffix_whole(root.children@);
    }
    list_categories_in(&root.children, 0)
}

fn list_threads_in(children: &Vec<Node>, i: usize) -> (r: Vec<ThreadSummaryDto>)
    requires
        i <= children@.len(),
    ensures
        thread_views(r@) == spec_threads_in(nodes_suffix(children@, i as int)),
    decreases children@.len() - i,
{
    if i == children.len() {
        let r: Vec<ThreadSummaryDto> = Vec::new();
        proof {
            assert(thread_views(r@) =~= spec_threads_in(nodes_suffix(children@, i as int)));
        }
        r
    } else {
        proof {
            lemma_nodes_suffix_unfold(children@, i as int);
        }
        let mut rest = list_threads_in(children, i + 1);
        match &children[i] {
            Node::Group(g) => {
                let post_count = crate::tree::count_entries_in_group(g);
                rest.insert(0, ThreadSummaryDto { id: g.uuid, title: g.name.clone(), post_count });
                proof {
                    assert(thread_views(rest@) =~= seq![
                        (
                            g.uuid,
                            g.name@,
                            nat_min(spec_count_entries(group_view(*g)), u64::MAX as nat),
                        ),
                    ] + spec_threads_in(nodes_suffix(children@, i as int + 1)));
                }
                rest
            },
            Node::Entry(_) => {
                proof {
                    assert(thread_views(rest@) =~= spec_threads_in(
                        nodes_suffix(children@, i as int),
                    ));
                }
                rest
            },
        }
    }
}

/// List the threads of the category `category_id`: the identifier, title
/// and recursive post count of each of its child groups; `None` exactly
/// when the category does not exist.
pub fn list_threads_in_category(root: &Group, category_id: u128) -> (r: Option<
    Vec<ThreadSummaryDto>,
>)
    ensures
        match spec_find_group(group_view(*root), category_id) {
            Some(cat) => r is Some && thread_views(r.unwrap()@) == spec_threads_in(cat.children),
            None => r is None,
        },
{
    match find_group_by_id(root, category_id) {
        Some(cat) => {
            proof {
                lemma_nodes_suffix_whole(cat.children@);
            }
            Some(list_threads_in(&cat.children, 0))
        },
        None => None,
    }
}

fn list_posts_in(children: &Vec<Node>, i: usize) -> (r: Vec<PostDto>)
    requires
        i <= children@.len(),
    ensures
        post_views(r@) == spec_posts_in(nodes_suffix(children@, i as int)),
    decreases children@.len() - i,
{
    if i == children.len() {
        let r: Vec<PostDto> = Vec::new();
        proof {
            assert(post_views(r@) =~= spec_posts_in(nodes_suffix(children@, i as int)));
        }
        r
    } else {
        proof {
            lemma_nodes_suffix_unfold(children@, i as int);
        }
        let mut rest = list_posts_in(children, i + 1);
        match &children[i] {
            Node::Entry(e) => {
                let d = entry_to_post_dto(e);
                rest.insert(0, d);
                proof {
                    assert(post_views(rest@) =~= seq![
                        (
                            e@.uuid,
                            spec_field_text(e@, "Title"@),
                            spec_field_text(e@, "UserName"@),
                            spec_field_text(e@, "Notes"@),
                        ),
                    ] + spec_posts_in(nodes_suffix(children@, i as int + 1)));
                }
                rest
            },
            Node::Group(_) => {
                proof {
                    assert(post_views(rest@) =~= spec_posts_in(nodes_suffix(children@, i as int)));
                }
                rest
            },
        }
    }
}

/// The full detail of the thread `thread_id`: its identifier, title and
/// every post among its children, in order; `None` exactly when the thread
/// does not exist.
pub fn get_thread_detail(root: &Group, thread_id: u128) -> (r: Option<ThreadDetailDto>)
    ensures
        match spec_find_group(group_view(*root), thread_id) {
            Some(gv) => r is Some && r.unwrap().id == gv.uuid && r.unwrap().title@ == gv.name
                && post_views(r.unwrap().posts@) == spec_posts_in(gv.children),
            None => r is None,
        },
{
    match find_group_by_id(root, thread_id) {
        Some(tg) => {
            proof {
                lemma_nodes_suffix_whole(tg.children@);
            }
            let posts = list_posts_in(&tg.children, 0);
            Some(ThreadDetailDto { id: tg.uuid, title: tg.name.clone(), posts })
        },
        None => None,
    }
}

} // verus!
