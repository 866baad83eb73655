use cowbump::collection::folder::{folder_changes, ListedFile};
use cowbump::collection::Collection;
use cowbump::db::{FolderChanges, UidCounter};
use cowbump::entry;
use cowbump::entry_utils::common_tags;
use cowbump::filter_reqs::Requirements;
use cowbump::tag::{self, Tag};

fn strings(v: &[&str]) -> Vec<String> {
    v.iter().map(|s| s.to_string()).collect()
}

fn path_of(coll: &Collection, id: u64) -> Option<String> {
    coll.entries.get(id).map(|en| en.path.clone())
}

#[test]
fn make_new_gives_one_entry_per_distinct_path() {
    let mut counter = UidCounter::default();
    let coll = Collection::make_new(&mut counter, &strings(&["a.png", "b.png", "a.png"]));
    assert_eq!(coll.entries.len(), 2);
    assert_eq!(counter.peek(), 2);
    assert_eq!(path_of(&coll, 0).as_deref(), Some("a.png"));
    assert_eq!(path_of(&coll, 1).as_deref(), Some("b.png"));
}

#[test]
fn update_from_paths_keeps_listed_drops_unlisted_adds_new() {
    let mut counter = UidCounter::default();
    let mut coll = Collection::make_new(&mut counter, &strings(&["a.png", "b.png"]));
    let b = coll.add_tag_for(entry::Id(1), tag::Id(77));
    assert!(b.is_ok());
    coll.update_from_paths(&mut counter, &strings(&["b.png", "c.png"]));
    assert_eq!(coll.entries.len(), 2);
    assert_eq!(path_of(&coll, 0), None);
    assert_eq!(path_of(&coll, 1).as_deref(), Some("b.png"));
    assert!(coll.entries.get(1).unwrap().tags.contains(tag::Id(77)));
    assert_eq!(path_of(&coll, 2).as_deref(), Some("c.png"));
    assert_eq!(counter.peek(), 3);
}

#[test]
fn resync_with_same_paths_changes_nothing() {
    let mut counter = UidCounter::default();
    let paths = strings(&["x", "y", "z"]);
    let mut coll = Collection::make_new(&mut counter, &paths);
    let before: Vec<(u64, String)> = coll
        .entries
        .keys()
        .into_iter()
        .map(|k| (k, path_of(&coll, k).unwrap()))
        .collect();
    coll.update_from_paths(&mut counter, &paths);
    let after: Vec<(u64, String)> = coll
        .entries
        .keys()
        .into_iter()
        .map(|k| (k, path_of(&coll, k).unwrap()))
        .collect();
    assert_eq!(before, after);
    assert_eq!(counter.peek(), 3);
}

#[test]
fn apply_changes_adds_then_removes() {
    let mut counter = UidCounter::default();
    let mut coll = Collection::make_new(&mut counter, &strings(&["a.png", "b.png"]));
    let changes = FolderChanges {
        add: strings(&["d.png"]),
        remove: strings(&["b.png"]),
    };
    let added = coll.apply_changes(&changes, &mut counter);
    assert_eq!(added, vec![("d.png".to_string(), entry::Id(2))]);
    assert_eq!(path_of(&coll, 1), None);
    assert_eq!(path_of(&coll, 2).as_deref(), Some("d.png"));
    assert_eq!(coll.entries.len(), 2);
}

#[test]
fn apply_changes_removes_an_added_path_that_is_also_removed() {
    let mut counter = UidCounter::default();
    let mut coll = Collection::make_new(&mut counter, &[]);
    let changes = FolderChanges {
        add: strings(&["q.png"]),
        remove: strings(&["q.png"]),
    };
    let added = coll.apply_changes(&changes, &mut counter);
    assert_eq!(added.len(), 1);
    assert_eq!(coll.entries.len(), 0);
    assert_eq!(counter.peek(), 1);
}

#[test]
fn folder_changes_skip_dirs_ignored_and_known_files() {
    let listed = vec![
        ListedFile { path: "x.jpg".into(), is_dir: false },
        ListedFile { path: "sub".into(), is_dir: true },
        ListedFile { path: "y.txt".into(), is_dir: false },
        ListedFile { path: "a.png".into(), is_dir: false },
        ListedFile { path: "noext".into(), is_dir: false },
    ];
    let changes = folder_changes(
        &listed,
        &strings(&["a.png", "gone.png"]),
        &[true, false],
        &strings(&["txt"]),
    );
    assert_eq!(changes.add, strings(&["x.jpg", "noext"]));
    assert_eq!(changes.remove, strings(&["gone.png"]));
    assert!(!changes.empty());
    assert!(FolderChanges::default().empty());
}

#[test]
fn entry_paths_in_order() {
    let mut counter = UidCounter::default();
    let coll = Collection::make_new(&mut counter, &strings(&["b", "a"]));
    assert_eq!(coll.entry_paths(), strings(&["b", "a"]));
}

#[test]
fn sequence_additions_follow_path_order() {
    let mut counter = UidCounter::default();
    let mut coll = Collection::make_new(&mut counter, &strings(&["a-b.png", "a/b.png", "a.png"]));
    let seq = coll.add_new_sequence("s", &mut counter);
    coll.add_entries_to_sequence(seq, &[entry::Id(0), entry::Id(1), entry::Id(2)]);
    let s = coll.sequences.get(seq.0).unwrap();
    // `Path` compares component by component: "a" < "a-b.png" < "a.png".
    assert_eq!(s.entries, vec![entry::Id(1), entry::Id(0), entry::Id(2)]);
}

#[test]
fn tag_names_are_stored_lower_case_and_unique() {
    let mut counter = UidCounter::default();
    let mut coll = Collection::new();
    let t = coll.add_new_tag_from_text("Cat".to_string(), &mut counter);
    assert_eq!(t, Some(tag::Id(0)));
    assert_eq!(coll.add_new_tag_from_text("CAT".to_string(), &mut counter), None);
    assert_eq!(coll.resolve_tag("cat"), Some(tag::Id(0)));
    assert_eq!(coll.resolve_tag("Cat"), None);
}

#[test]
fn merge_tags_moves_references_and_names() {
    let mut counter = UidCounter::default();
    let mut coll = Collection::make_new(&mut counter, &strings(&["a.png"]));
    let cat = coll.add_new_tag(Tag::with_name("cat".into()), &mut counter);
    let kitty = coll.add_new_tag(Tag::with_name("kitty".into()), &mut counter);
    assert!(coll.add_tag_for(entry::Id(0), cat).is_ok());
    assert!(coll.merge_tags(cat, kitty).is_ok());
    let en = coll.entries.get(0).unwrap();
    assert!(en.tags.contains(kitty));
    assert!(!en.tags.contains(cat));
    assert!(coll.tags.get(cat.0).is_none());
    assert_eq!(coll.tags.get(kitty.0).unwrap().names, strings(&["kitty", "cat"]));
    assert_eq!(coll.resolve_tag("cat"), Some(kitty));
    assert!(coll.merge_tags(cat, kitty).is_err());
}

#[test]
fn add_tag_for_missing_entry_fails() {
    let mut coll = Collection::new();
    assert!(coll.add_tag_for(entry::Id(5), tag::Id(1)).is_err());
    let mut counter = UidCounter::default();
    let mut coll = Collection::make_new(&mut counter, &strings(&["a", "b"]));
    let r = coll.add_tag_for_multi(&[entry::Id(0), entry::Id(9), entry::Id(1)], tag::Id(3));
    assert!(r.is_err());
    assert!(coll.entries.get(0).unwrap().tags.contains(tag::Id(3)));
    assert!(!coll.entries.get(1).unwrap().tags.contains(tag::Id(3)));
}

#[test]
fn remove_tags_cleanses_entries() {
    let mut counter = UidCounter::default();
    let mut coll = Collection::make_new(&mut counter, &strings(&["a"]));
    let t = coll.add_new_tag(Tag::with_name("t".into()), &mut counter);
    assert!(coll.add_tag_for(entry::Id(0), t).is_ok());
    coll.remove_tags(&[t]);
    assert!(coll.tags.get(t.0).is_none());
    assert!(coll.entries.get(0).unwrap().tags.is_empty());
}

#[test]
fn common_tags_are_those_every_entry_has() {
    let mut counter = UidCounter::default();
    let mut coll = Collection::make_new(&mut counter, &strings(&["a", "b"]));
    assert!(coll.add_tag_for(entry::Id(0), tag::Id(10)).is_ok());
    assert!(coll.add_tag_for(entry::Id(0), tag::Id(11)).is_ok());
    assert!(coll.add_tag_for(entry::Id(1), tag::Id(11)).is_ok());
    let common = common_tags(&[entry::Id(0), entry::Id(1), entry::Id(99)], &coll);
    assert_eq!(common.as_slice(), &[tag::Id(11)]);
    assert!(common_tags(&[entry::Id(99)], &coll).is_empty());
}

#[test]
fn filter_selects_tagged_entries() {
    let mut counter = UidCounter::default();
    let mut coll = Collection::make_new(&mut counter, &strings(&["a", "b", "c"]));
    let t = coll.add_new_tag(Tag::with_name("t".into()), &mut counter);
    assert!(coll.add_tag_for(entry::Id(2), t).is_ok());
    assert!(coll.add_tag_for(entry::Id(0), t).is_ok());
    let mut reqs = Requirements::default();
    assert_eq!(coll.filter(&reqs), vec![entry::Id(0), entry::Id(1), entry::Id(2)]);
    reqs.set_have_tag(t, true);
    assert_eq!(coll.filter(&reqs), vec![entry::Id(0), entry::Id(2)]);
}

#[test]
fn implied_tags_count_as_had() {
    let mut counter = UidCounter::default();
    let mut coll = Collection::make_new(&mut counter, &strings(&["a"]));
    let animal = coll.add_new_tag(Tag::with_name("animal".into()), &mut counter);
    let mut cat_tag = Tag::with_name("cat".into());
    cat_tag.implies.insert(animal);
    let cat = coll.add_new_tag(cat_tag, &mut counter);
    assert!(coll.add_tag_for(entry::Id(0), cat).is_ok());
    let en = coll.entries.get(0).unwrap();
    assert!(en.satisfies_required_tag(animal, &coll.tags));
    assert!(en.satisfies_required_tag(cat, &coll.tags));
    assert!(!en.satisfies_required_tag(tag::Id(1234), &coll.tags));
}

#[test]
fn rename_sets_the_path() {
    let mut counter = UidCounter::default();
    let mut coll = Collection::make_new(&mut counter, &strings(&["dir/a.png", "top.png"]));
    assert_eq!(coll.renamed_path(entry::Id(0), "b.png").as_deref(), Some("dir/b.png"));
    assert!(coll.renamed_path(entry::Id(7), "b.png").is_none());
    assert!(coll.rename(entry::Id(0), "b.png").is_ok());
    assert_eq!(path_of(&coll, 0).as_deref(), Some("dir/b.png"));
    assert!(coll.rename(entry::Id(1), "other.png").is_ok());
    assert_eq!(path_of(&coll, 1).as_deref(), Some("other.png"));
    assert!(coll.rename(entry::Id(7), "x").is_err());
}

#[test]
fn implication_search_shares_its_budget() {
    let mut counter = UidCounter::default();
    let mut coll = Collection::make_new(&mut counter, &strings(&["a"]));
    let mut kids = Vec::new();
    for i in 0..10 {
        kids.push(coll.add_new_tag(Tag::with_name(format!("k{i}")), &mut counter));
    }
    let mut parent_tag = Tag::with_name("parent".into());
    for k in &kids {
        parent_tag.implies.insert(*k);
    }
    let parent = coll.add_new_tag(parent_tag, &mut counter);
    assert!(coll.add_tag_for(entry::Id(0), parent).is_ok());
    let en = coll.entries.get(0).unwrap();
    // The search from `parent` makes one call for itself and one per implied tag, in
    // order; only the tenth call answers false without looking.
    assert!(en.satisfies_required_tag(kids[7], &coll.tags));
    assert!(!en.satisfies_required_tag(kids[8], &coll.tags));
    assert!(en.satisfies_required_tag(kids[9], &coll.tags));
    let mut depth = 0;
    assert!(cowbump::entry::tag_satisfies_required_tag(parent, kids[0], &coll.tags, &mut depth));
    assert_eq!(depth, 2);
}

#[test]
fn paths_compare_as_paths() {
    let mut counter = UidCounter::default();
    let mut coll = Collection::make_new(&mut counter, &strings(&["a/b", "a//b", "c"]));
    assert_eq!(coll.entries.len(), 2);
    assert_eq!(path_of(&coll, 0).as_deref(), Some("a/b"));
    coll.update_from_paths(&mut counter, &strings(&["a//b"]));
    assert_eq!(coll.entries.len(), 1);
    assert_eq!(path_of(&coll, 0).as_deref(), Some("a/b"));
    assert_eq!(counter.peek(), 2);
    let listed = vec![
        ListedFile { path: "a//b".into(), is_dir: false },
        ListedFile { path: "d".into(), is_dir: false },
    ];
    let changes = folder_changes(&listed, &strings(&["a/b"]), &[true], &[]);
    assert_eq!(changes.add, strings(&["d"]));
    let changes = FolderChanges { add: vec![], remove: strings(&["a/./b"]) };
    coll.apply_changes(&changes, &mut counter);
    assert_eq!(coll.entries.len(), 0);
}

#[test]
fn typed_tags_and_common_tag_removal() {
    let mut counter = UidCounter::default();
    let mut coll = Collection::make_new(&mut counter, &strings(&["a", "b"]));
    let cat = coll.add_new_tag(Tag::with_name("cat".into()), &mut counter);
    let dog = coll.add_new_tag(Tag::with_name("dog".into()), &mut counter);
    let ids = vec![entry::Id(0), entry::Id(1)];
    let (unknown, ok) = coll.add_typed_tags(&ids, "  cat bird\tdog fish ");
    assert!(ok);
    assert_eq!(unknown, strings(&["bird", "fish"]));
    for id in [0, 1] {
        let en = coll.entries.get(id).unwrap();
        assert!(en.tags.contains(cat) && en.tags.contains(dog));
    }
    assert!(coll.remove_tag_for_multi(&ids, cat).is_ok());
    assert!(!coll.entries.get(0).unwrap().tags.contains(cat));
    assert!(!coll.entries.get(1).unwrap().tags.contains(cat));
    assert!(coll.entries.get(1).unwrap().tags.contains(dog));
    let with_missing = vec![entry::Id(0), entry::Id(9), entry::Id(1)];
    assert!(coll.remove_tag_for_multi(&with_missing, dog).is_err());
    assert!(!coll.entries.get(0).unwrap().tags.contains(dog));
    assert!(coll.entries.get(1).unwrap().tags.contains(dog));
    let (unknown, ok) = coll.add_typed_tags(&with_missing, "cat");
    assert!(!ok);
    assert!(unknown.is_empty());
    assert!(coll.entries.get(0).unwrap().tags.contains(cat));
    assert!(!coll.entries.get(1).unwrap().tags.contains(cat));
}
