use kdbx_forum::container::encode_database;
use kdbx_forum::dto::{entry_to_post_dto, get_thread_detail, list_categories, list_threads_in_category};
use kdbx_forum::kdf::{build_db_key, KdfParams, KDF_ITERATED_SHA256};
use kdbx_forum::mutate::{
    add_reply_to_thread, add_thread_to_category, fresh_node_id, insert_child, remove_node,
};
use kdbx_forum::storage::{DbHandle, MemStorage};
use kdbx_forum::tree::{count_entries_in_group, find_group_by_id, Entry, Group, Node, Value};
use kdbx_forum::ContainerError;

fn params() -> KdfParams {
    KdfParams { kdf_id: KDF_ITERATED_SHA256, rounds: 8, memory_kib: 64 }
}

fn secret(pw: &str) -> Vec<u8> {
    build_db_key(&pw.to_string(), None)
}

fn post(id: u128, title: &str, author: &str, body: &str) -> Entry {
    Entry {
        uuid: id,
        fields: vec![
            ("Title".to_string(), Value::Unprotected(title.to_string())),
            ("UserName".to_string(), Value::Unprotected(author.to_string())),
            ("Notes".to_string(), Value::Unprotected(body.to_string())),
        ],
    }
}

fn fixture() -> Group {
    Group {
        uuid: 1,
        name: "root".to_string(),
        children: vec![
            Node::Group(Group {
                uuid: 10,
                name: "general".to_string(),
                children: vec![Node::Group(Group {
                    uuid: 100,
                    name: "hello".to_string(),
                    children: vec![Node::Entry(post(1000, "hello", "alice", "first post"))],
                })],
            }),
            Node::Group(Group {
                uuid: 20,
                name: "random".to_string(),
                children: vec![],
            }),
        ],
    }
}

#[test]
fn open_fixture_lists_known_categories() {
    let s = secret("correct-password");
    let bytes = encode_database(&fixture(), &s, &params()).unwrap();
    let root = kdbx_forum::container::open_database(&bytes, &s).unwrap();
    let cats = list_categories(&root);
    assert_eq!(cats.len(), 2);
    assert_eq!(cats[0].id, 10);
    assert_eq!(cats[0].name, "general");
    assert_eq!(cats[1].id, 20);
    assert_eq!(cats[1].name, "random");
}

#[test]
fn list_threads_reports_posts_per_thread() {
    let root = fixture();
    let threads = list_threads_in_category(&root, 10).unwrap();
    assert_eq!(threads.len(), 1);
    assert_eq!(threads[0].id, 100);
    assert_eq!(threads[0].title, "hello");
    assert_eq!(threads[0].post_count, 1);
    assert!(list_threads_in_category(&root, 999).is_none());
}

#[test]
fn thread_detail_holds_all_posts() {
    let root = fixture();
    let detail = get_thread_detail(&root, 100).unwrap();
    assert_eq!(detail.id, 100);
    assert_eq!(detail.title, "hello");
    assert_eq!(detail.posts.len(), 1);
    assert_eq!(detail.posts[0].id, 1000);
    assert_eq!(detail.posts[0].title, "hello");
    assert_eq!(detail.posts[0].author, "alice");
    assert_eq!(detail.posts[0].body, "first post");
    assert!(get_thread_detail(&root, 999).is_none());
}

#[test]
fn entry_conversion_hides_protected_values() {
    let e = Entry {
        uuid: 5,
        fields: vec![
            ("Title".to_string(), Value::Unprotected("t".to_string())),
            ("UserName".to_string(), Value::Unprotected("u".to_string())),
            ("Notes".to_string(), Value::Protected(vec![1, 2, 3])),
        ],
    };
    let d = entry_to_post_dto(&e);
    assert_eq!(d.id, 5);
    assert_eq!(d.title, "t");
    assert_eq!(d.author, "u");
    assert_eq!(d.body, "", "a protected value must not be exposed as text");
}

#[test]
fn find_group_walks_the_whole_tree() {
    let root = fixture();
    assert_eq!(find_group_by_id(&root, 100).unwrap().name, "hello");
    assert_eq!(find_group_by_id(&root, 1).unwrap().name, "root");
    assert!(find_group_by_id(&root, 999).is_none());
}

#[test]
fn count_entries_is_recursive() {
    let root = fixture();
    assert_eq!(count_entries_in_group(&root), 1);
    let general = find_group_by_id(&root, 10).unwrap();
    assert_eq!(count_entries_in_group(general), 1);
    let random = find_group_by_id(&root, 20).unwrap();
    assert_eq!(count_entries_in_group(random), 0);
}

#[test]
fn insert_save_reopen_shows_the_new_entry() {
    let s = secret("pw");
    let bytes = encode_database(&fixture(), &s, &params()).unwrap();
    let mut storage = MemStorage::new();
    let mut handle = DbHandle::open(&bytes, &s).unwrap();
    let new_id = handle
        .insert_child(100, Node::Entry(post(2000, "re: hello", "bob", "second post")))
        .unwrap();
    assert_eq!(new_id, 2000);
    handle.save(&s, &params(), &mut storage).unwrap();

    let reopened = DbHandle::open(&storage.read_main().unwrap(), &s).unwrap();
    let detail = get_thread_detail(&reopened.root, 100).unwrap();
    assert_eq!(detail.posts.len(), 2);
    assert_eq!(detail.posts[1].id, 2000);
    assert_eq!(detail.posts[1].title, "re: hello");
    assert_eq!(detail.posts[1].author, "bob");
    assert_eq!(detail.posts[1].body, "second post");
}

#[test]
fn insert_under_missing_group_leaves_everything_untouched() {
    let s = secret("pw");
    let bytes = encode_database(&fixture(), &s, &params()).unwrap();
    let mut storage = MemStorage::new();
    let mut handle = DbHandle::open(&bytes, &s).unwrap();
    handle.save(&s, &params(), &mut storage).unwrap();
    let before = storage.read_main().unwrap();

    let err = handle
        .insert_child(999, Node::Entry(post(2000, "x", "y", "z")))
        .unwrap_err();
    assert_eq!(err, ContainerError::NodeNotFound);
    assert!(!handle.dirty, "a refused insert must not dirty the tree");
    assert_eq!(storage.read_main().unwrap(), before, "the stored file must be untouched");
    assert_eq!(count_entries_in_group(&handle.root), 1);
}

#[test]
fn remove_node_deletes_an_entry_once() {
    let mut root = fixture();
    remove_node(&mut root, 1000).unwrap();
    assert_eq!(count_entries_in_group(&root), 0);
    assert_eq!(remove_node(&mut root, 1000).unwrap_err(), ContainerError::NodeNotFound);
    remove_node(&mut root, 100).unwrap();
    assert!(get_thread_detail(&root, 100).is_none());
    assert_eq!(remove_node(&mut root, 1).unwrap_err(), ContainerError::NodeNotFound);
}

#[test]
fn create_thread_appears_fully_formed() {
    let mut root = fixture();
    let tid = add_thread_to_category(
        &mut root,
        20,
        &"news".to_string(),
        &"carol".to_string(),
        &"fresh body".to_string(),
        500,
        501,
    )
    .unwrap();
    assert_eq!(tid, 500);
    let threads = list_threads_in_category(&root, 20).unwrap();
    assert_eq!(threads.len(), 1);
    assert_eq!(threads[0].id, 500);
    assert_eq!(threads[0].title, "news");
    assert_eq!(
        threads[0].post_count, 1,
        "a thread must never be visible without its opening post"
    );
    let detail = get_thread_detail(&root, 500).unwrap();
    assert_eq!(detail.posts[0].author, "carol");
    assert_eq!(detail.posts[0].body, "fresh body");
}

#[test]
fn create_thread_under_missing_category_fails() {
    let mut root = fixture();
    let err = add_thread_to_category(
        &mut root,
        999,
        &"t".to_string(),
        &"a".to_string(),
        &"b".to_string(),
        500,
        501,
    )
    .unwrap_err();
    assert_eq!(err, ContainerError::NodeNotFound);
    assert_eq!(list_categories(&root).len(), 2);
}

#[test]
fn reply_titles_truncate_long_bodies() {
    let mut root = fixture();
    let short = "short body".to_string();
    add_reply_to_thread(&mut root, 100, &"dan".to_string(), &short, 600).unwrap();
    let long = "x".repeat(50);
    add_reply_to_thread(&mut root, 100, &"eve".to_string(), &long, 601).unwrap();
    let detail = get_thread_detail(&root, 100).unwrap();
    assert_eq!(detail.posts.len(), 3);
    assert_eq!(detail.posts[1].title, "Reply: short body");
    assert_eq!(detail.posts[2].title, format!("Reply: {}", "x".repeat(40)));
    assert_eq!(detail.posts[2].body, long);
}

#[test]
fn reply_into_missing_thread_fails() {
    let mut root = fixture();
    let err =
        add_reply_to_thread(&mut root, 999, &"a".to_string(), &"b".to_string(), 600).unwrap_err();
    assert_eq!(err, ContainerError::NodeNotFound);
}

#[test]
fn fresh_node_ids_are_distinct() {
    let a = fresh_node_id();
    let b = fresh_node_id();
    assert_ne!(a, b);
}

#[test]
fn queries_interleaved_with_mutations_see_consistent_states() {
    let mut root = fixture();
    let before = list_threads_in_category(&root, 10).unwrap();
    assert_eq!(before.len(), 1);
    assert_eq!(before[0].post_count, 1);

    insert_child(&mut root, 100, Node::Entry(post(700, "t", "a", "b"))).unwrap();

    let after = list_threads_in_category(&root, 10).unwrap();
    assert_eq!(after.len(), 1);
    assert_eq!(
        after[0].post_count, 2,
        "a query sees the tree before or after a mutation, never between"
    );
}
