use cowbump::db::{find_collection_by_path, insert_collection, UidCounter};
use cowbump::gui::open::Associations;
use cowbump::set_ext::SetExt;
use std::collections::HashSet;
use cowbump::id_map::IdMap;
use cowbump::preferences::{resolve_app, App, AppId};
use cowbump::sequence::Sequence;
use cowbump::entry;
use cowbump::util::string::{contains_substring, insert_char_at, parse_usize, remove_char_at};

#[test]
fn char_editing() {
    assert_eq!(insert_char_at("héllo", 'X', 2), "héXllo");
    assert_eq!(remove_char_at("héXllo", 2), "héllo");
    assert_eq!(remove_char_at("ab", 2), "ab");
    assert_eq!(insert_char_at("", 'a', 0), "a");
}

#[test]
fn parsing_numbers() {
    assert_eq!(parse_usize("42"), Some(42));
    assert_eq!(parse_usize("+7"), Some(7));
    assert_eq!(parse_usize(""), None);
    assert_eq!(parse_usize("4x"), None);
    assert_eq!(parse_usize("-1"), None);
    assert_eq!(parse_usize("99999999999999999999999"), None);
}

#[test]
fn substrings() {
    assert!(contains_substring("holiday beach", "day b"));
    assert!(contains_substring("abc", ""));
    assert!(!contains_substring("ab", "abc"));
}

#[test]
fn uid_counter_hands_out_fresh_uids() {
    let mut c = UidCounter::default();
    assert_eq!(c.next(), 0);
    assert_eq!(c.next(), 1);
    assert_eq!(c.peek(), 2);
    let mut d = UidCounter::starting_at(10);
    assert_eq!(d.next(), 10);
}

#[test]
fn collections_register() {
    let mut c = UidCounter::default();
    let mut colls: IdMap<String> = IdMap::new();
    let a = insert_collection(&mut c, &mut colls, "/pics".into());
    let b = insert_collection(&mut c, &mut colls, "/more".into());
    assert_ne!(a, b);
    assert_eq!(find_collection_by_path(&colls, "/more"), Some(b));
    assert_eq!(find_collection_by_path(&colls, "/none"), None);
}

#[test]
fn applications_by_name() {
    let mut apps: IdMap<App> = IdMap::new();
    let _ = apps.insert(3, App { name: "viewer".into(), path: "/bin/v".into(), args_string: String::new() });
    assert_eq!(resolve_app(&apps, "viewer"), Some(AppId(3)));
    assert_eq!(resolve_app(&apps, "editor"), None);
}

#[test]
fn sequence_reordering() {
    let mut s = Sequence::new_with_name("s");
    s.entries = vec![entry::Id(1), entry::Id(2), entry::Id(3)];
    s.swap_entry_left(entry::Id(2));
    assert_eq!(s.entries, vec![entry::Id(2), entry::Id(1), entry::Id(3)]);
    s.swap_entry_right(entry::Id(2));
    assert_eq!(s.entries, vec![entry::Id(1), entry::Id(2), entry::Id(3)]);
    s.reinsert_first(entry::Id(3));
    assert_eq!(s.entries, vec![entry::Id(3), entry::Id(1), entry::Id(2)]);
    assert_eq!(s.entry_uids_wrapped_from(entry::Id(1)), vec![entry::Id(1), entry::Id(2), entry::Id(3)]);
    s.remove_entry(entry::Id(1));
    assert!(!s.contains_entry(entry::Id(1)));
}

#[test]
fn set_toggling() {
    let mut set: HashSet<u64> = HashSet::new();
    set.toggle(3);
    assert!(set.contains(&3));
    set.toggle(3);
    assert!(set.is_empty());
    set.toggle_by(4, true);
    set.toggle_by(4, true);
    assert_eq!(set.len(), 1);
    set.toggle_by(4, false);
    assert!(set.is_empty());
}

#[test]
fn associations_read_back_what_was_set() {
    let mut assoc = Associations::new();
    assoc.insert("png".into(), Some(AppId(1)));
    assoc.insert("jpg".into(), None);
    assoc.insert("png".into(), Some(AppId(2)));
    assert_eq!(assoc.get("png"), Some(Some(AppId(2))));
    assert_eq!(assoc.get("jpg"), Some(None));
    assert_eq!(assoc.get("gif"), None);
}
