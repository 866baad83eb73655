use cowbump::collection::Collection;
use cowbump::db::UidCounter;
use cowbump::entry;
use cowbump::filter_reqs::Requirements;
use cowbump::gui::autocomplete::{choose_completion, complete_word, find_word_to_complete, tag_candidates, AcState};
use cowbump::gui::debug::{info, take_infos, toggle, DebugInfos};
use cowbump::gui::keys::{key_action, Key, KeyPress, ThumbsAction};
use cowbump::gui::open::{
    build_tasks, enter_candidates, feed_args, find_open_with_for_entry, single_candidates,
    Associations, OpenExternCandidate,
};
use cowbump::gui::selection::{SelectionBuf, SelectionBufs};
use cowbump::gui::thumbnails::LoadSlots;
use cowbump::gui::view::{find_nth, range_select, select_all, sort_ids, toggle_selected, SearchState, SortBy};
use cowbump::gui::viewer::{list_for_single, on_enter_list, ImageCache, ViewerState};
use cowbump::gui::windows::{
    batch_rename_names, BatchRenameError, BatchRenameWindow, DebugWindow, LineEdit, ModalDialog,
    ModalPayload, PromptAction,
};
use cowbump::preferences::AppId;
use cowbump::tag::{self, Tag};

fn ids(v: &[u64]) -> Vec<entry::Id> {
    v.iter().map(|&i| entry::Id(i)).collect()
}

fn strings(v: &[&str]) -> Vec<String> {
    v.iter().map(|s| s.to_string()).collect()
}

#[test]
fn selection_buffers() {
    let mut sel = SelectionBufs::new();
    assert_eq!(sel.current().unwrap().name, "Sel 1");
    assert!(sel.none_selected());
    sel.current_mut().extend(&ids(&[1, 2, 3]));
    assert_eq!(sel.n_selected(), 3);
    assert!(sel.current_contains(&entry::Id(2)));
    sel.add_buf("Sel 2".into());
    sel.select(1);
    assert!(sel.none_selected());
    assert!(sel.current_as_nonempty_id_vec().is_none());
    sel.current_mut().extend(&ids(&[2]));
    sel.remove_from_all(entry::Id(2));
    assert!(sel.none_selected());
    sel.select(0);
    assert_eq!(sel.selected_ids(), &ids(&[1, 3])[..]);
    sel.select(7);
    assert_eq!(sel.selected_ids(), &ids(&[1, 3])[..]);
    sel.retain_bufs(&vec![true, false]);
    assert_eq!(sel.current().unwrap().name, "Sel 1");
    sel.select(1);
    sel.retain_bufs(&vec![false]);
    assert_eq!(sel.current().unwrap().name, "Sel 1");
    assert!(sel.none_selected());
    sel.rename_buf(0, "mine".into());
    assert_eq!(sel.current().unwrap().name, "mine");
    sel.current_mut().extend(&ids(&[5]));
    sel.clear_current();
    assert!(sel.none_selected());
}

#[test]
fn selection_buf_ops() {
    let mut buf = SelectionBuf::new("b".into());
    buf.extend(&ids(&[4, 5, 6]));
    buf.remove(1);
    assert_eq!(buf.as_vec(), &ids(&[4, 6]));
    assert_eq!(buf.len(), 2);
    assert!(!buf.contains(&entry::Id(5)));
    buf.clear();
    assert_eq!(buf.len(), 0);
}

#[test]
fn autocomplete_navigation() {
    let mut ac = AcState::default();
    assert_eq!(ac.select, Some(0));
    ac.navigate(false, true);
    assert_eq!(ac.select, Some(1));
    ac.navigate(true, false);
    ac.navigate(true, false);
    assert_eq!(ac.select, None);
    ac.input_changed = false;
    ac.navigate(false, false);
    assert_eq!(ac.select, None);
    ac.input_changed = true;
    ac.navigate(false, false);
    assert_eq!(ac.select, Some(0));
    ac.select = Some(9);
    ac.input_changed = false;
    ac.fit_to(3, Some(1));
    assert_eq!(ac.select, Some(2));
    ac.input_changed = true;
    ac.fit_to(3, Some(1));
    assert_eq!(ac.select, Some(1));
}

#[test]
fn word_to_complete() {
    assert_eq!(find_word_to_complete("cat [do"), "do");
    assert_eq!(find_word_to_complete("foo!ba"), "ba");
    assert_eq!(find_word_to_complete("plain"), "plain");
    assert_eq!(find_word_to_complete("ends "), "");
    assert_eq!(find_word_to_complete(""), "");
    let mut s = String::from("@any[ca");
    complete_word(&mut s, "cat");
    assert_eq!(s, "@any[cat");
    assert_eq!(find_word_to_complete(&s), "cat");
}

#[test]
fn completion_candidates() {
    let mut counter = UidCounter::default();
    let mut coll = Collection::new();
    let cat = coll.add_new_tag(Tag::with_name("cat".into()), &mut counter);
    let _dog = coll.add_new_tag(Tag::with_name("dog".into()), &mut counter);
    let cattle = coll.add_new_tag(Tag::with_name("cattle".into()), &mut counter);
    let (cands, exact) = tag_candidates(&coll.tags, "cat");
    assert_eq!(cands, vec![cat, cattle]);
    assert_eq!(exact, Some(0));
    let (cands, exact) = tag_candidates(&coll.tags, "tt");
    assert_eq!(cands, vec![cattle]);
    assert_eq!(exact, None);
}

fn three_entry_coll() -> Collection {
    let mut counter = UidCounter::default();
    Collection::make_new(&mut counter, &strings(&["c.png", "a.png", "b.png"]))
}

#[test]
fn sorting_the_view() {
    let coll = three_entry_coll();
    let mut v = ids(&[2, 0, 1]);
    sort_ids(&mut v, SortBy::Id, &coll);
    assert_eq!(v, ids(&[0, 1, 2]));
    sort_ids(&mut v, SortBy::Path, &coll);
    assert_eq!(v, ids(&[1, 2, 0]));
}

#[test]
fn searching_the_view() {
    let mut counter = UidCounter::default();
    let mut coll = Collection::make_new(&mut counter, &strings(&["a", "b", "c", "d"]));
    let t = coll.add_new_tag(Tag::with_name("t".into()), &mut counter);
    assert!(coll.add_tag_for(entry::Id(1), t).is_ok());
    assert!(coll.add_tag_for(entry::Id(3), t).is_ok());
    let mut reqs = Requirements::default();
    reqs.set_have_tag(t, true);
    let view = ids(&[0, 1, 2, 3]);
    assert_eq!(find_nth(&view, &coll, &reqs, 0), Some(1));
    assert_eq!(find_nth(&view, &coll, &reqs, 1), Some(3));
    assert_eq!(find_nth(&view, &coll, &reqs, 2), None);
    let mut search = SearchState::new();
    assert_eq!(search.goto_cursor(&view, &coll, &reqs), Some(1));
    assert_eq!(search.next(&view, &coll, &reqs), Some(3));
    assert_eq!(search.cursor, 1);
    assert_eq!(search.next(&view, &coll, &reqs), None);
    assert_eq!(search.cursor, 1);
    assert!(!search.success);
    assert_eq!(search.highlight, Some(3));
    assert_eq!(search.prev(&view, &coll, &reqs), Some(1));
    assert_eq!(search.cursor, 0);
    search.wipe();
    assert_eq!(search.highlight, None);
}

#[test]
fn clicking_entries_in_the_view() {
    let mut buf = SelectionBuf::new("s".into());
    toggle_selected(&mut buf, entry::Id(4));
    assert_eq!(buf.buf, ids(&[4]));
    toggle_selected(&mut buf, entry::Id(4));
    assert!(buf.buf.is_empty());
    let view = ids(&[10, 11, 12, 13]);
    let mut begin = None;
    range_select(&mut buf, &mut begin, &view, 1);
    assert_eq!(begin, Some(1));
    range_select(&mut buf, &mut begin, &view, 3);
    assert_eq!(begin, None);
    assert_eq!(buf.buf, ids(&[11, 12, 13]));
    let coll = three_entry_coll();
    select_all(&mut buf, &coll, &Requirements::default());
    assert_eq!(buf.buf, ids(&[0, 1, 2]));
}

#[test]
fn image_cache_keeps_the_newest() {
    let mut cache: ImageCache<&str> = ImageCache::with_capacity(2);
    cache.insert((entry::Id(1), "one"));
    cache.insert((entry::Id(2), "two"));
    assert_eq!(cache.get(entry::Id(1)), Some(&"one"));
    cache.insert((entry::Id(3), "three"));
    assert_eq!(cache.get(entry::Id(1)), None);
    assert_eq!(cache.get(entry::Id(3)), Some(&"three"));
    let big: ImageCache<u8> = ImageCache::new();
    assert_eq!(big.get(entry::Id(0)), None);
}

#[test]
fn viewer_steps_around_the_list() {
    let mut v = ViewerState::new();
    assert_eq!(v.shown_entry(), None);
    v.open_list(ids(&[5, 6, 7]), 2);
    assert_eq!(v.shown_entry(), Some(entry::Id(7)));
    v.next();
    assert_eq!(v.index, 0);
    v.prev();
    assert_eq!(v.index, 2);
    v.prev();
    assert_eq!(v.index, 1);
    v.remove_from_view_list();
    assert_eq!(v.image_list, ids(&[5, 7]));
    assert_eq!(v.index, 0);
}

#[test]
fn what_the_viewer_opens() {
    let mut sel = SelectionBufs::new();
    assert_eq!(on_enter_list(&sel, &ids(&[1, 2])), ids(&[1, 2]));
    sel.current_mut().extend(&ids(&[9]));
    assert_eq!(on_enter_list(&sel, &ids(&[1, 2])), ids(&[9]));
    let mut counter = UidCounter::default();
    let mut coll = Collection::make_new(&mut counter, &strings(&["a", "b", "c"]));
    assert_eq!(list_for_single(entry::Id(1), &coll, &ids(&[0, 1, 2]), 1), (ids(&[0, 1, 2]), 1));
    let s = coll.add_new_sequence("s", &mut counter);
    coll.add_entries_to_sequence(s, &ids(&[0, 1, 2]));
    assert_eq!(list_for_single(entry::Id(1), &coll, &ids(&[0, 1, 2]), 1), (ids(&[1, 2, 0]), 0));
}

#[test]
fn building_open_tasks() {
    let mut assoc = Associations::new();
    assoc.insert("png".into(), Some(AppId(1)));
    assoc.insert("jpg".into(), Some(AppId(2)));
    let cands = vec![
        OpenExternCandidate { path: "a.PNG".into(), open_with: None },
        OpenExternCandidate { path: "b.jpg".into(), open_with: None },
        OpenExternCandidate { path: "c.png".into(), open_with: None },
        OpenExternCandidate { path: "d.txt".into(), open_with: None },
        OpenExternCandidate { path: "e.png".into(), open_with: Some(AppId(7)) },
    ];
    let built = build_tasks(&cands, &mut assoc);
    assert_eq!(built.tasks.len(), 3);
    assert_eq!(built.tasks[0].app, AppId(1));
    assert_eq!(built.tasks[0].args, strings(&["a.PNG", "c.png"]));
    assert_eq!(built.tasks[1].app, AppId(2));
    assert_eq!(built.tasks[2].app, AppId(7));
    assert_eq!(built.tasks[2].args, strings(&["e.png"]));
    assert_eq!(built.remainder, strings(&["d.txt"]));
    assert!(!built.too_many_unassociated());
    assert_eq!(assoc.get("txt"), Some(None));
    assert_eq!(assoc.get("gif"), None);
}

#[test]
fn app_arguments() {
    let paths = strings(&["x.png", "y.png"]);
    assert_eq!(feed_args("", &paths), paths);
    assert_eq!(feed_args("--view {} -q", &paths), strings(&["--view", "x.png", "y.png", "-q"]));
    assert_eq!(feed_args("  -a  ", &paths), strings(&["-a"]));
}

#[test]
fn opening_with_external_apps() {
    let mut counter = UidCounter::default();
    let mut coll = Collection::make_new(&mut counter, &strings(&["b.png", "a.png"]));
    let t = coll.add_new_tag(Tag::with_name("t".into()), &mut counter);
    assert!(coll.add_tag_for(entry::Id(0), t).is_ok());
    let _ = coll.tag_specific_apps.insert(t.0, AppId(3));
    let en = coll.entries.get(0).unwrap();
    assert_eq!(find_open_with_for_entry(en, &coll), Some(AppId(3)));
    let single = single_candidates(&coll, entry::Id(0));
    assert_eq!(single.len(), 1);
    assert_eq!(single[0].path, "b.png");
    assert_eq!(single[0].open_with, Some(AppId(3)));
    let (sorted, cands) = enter_candidates(&coll, &ids(&[0, 1]), &Requirements::default());
    assert_eq!(sorted, ids(&[1, 0]));
    assert_eq!(cands[0].path, "a.png");
    let (none, _) = enter_candidates(&coll, &[], &Requirements::default());
    assert!(none.is_empty());
    let mut reqs = Requirements::default();
    reqs.set_have_tag(t, true);
    let (filtered, _) = enter_candidates(&coll, &[], &reqs);
    assert_eq!(filtered, ids(&[0]));
    let _ = tag::Id(0);
}

#[test]
fn windows_state() {
    let mut dw = DebugWindow::default();
    dw.toggle();
    assert!(dw.open);
    dw.max_entries = 2;
    let mut log = strings(&["a", "b", "c"]);
    dw.trim_log(&mut log);
    assert_eq!(log, strings(&["b", "c"]));
    let mut modal = ModalDialog::default();
    modal.err("boom".into());
    assert!(matches!(&modal.payload, Some(ModalPayload::Error { message, show_bt: false }) if message == "boom"));
    modal.prompt("t".into(), "m".into(), PromptAction::MergeTag { merge: tag::Id(1), into: tag::Id(2) });
    assert!(matches!(&modal.payload, Some(ModalPayload::Prompt { .. })));
    modal.close();
    assert!(modal.payload.is_none());
}

#[test]
fn batch_rename_window_clicks() {
    let mut w = BatchRenameWindow::default();
    w.ids = ids(&[1, 2, 3, 4]);
    w.click(0);
    assert_eq!(w.sel_idx, Some(0));
    w.click(2);
    assert_eq!(w.ids, ids(&[3, 2, 1, 4]));
    assert_eq!(w.sel_idx, None);
    w.click(3);
    w.secondary_click(0);
    assert_eq!(w.ids, ids(&[4, 3, 2, 1]));
}

#[test]
fn batch_rename_names_are_numbered() {
    let mut counter = UidCounter::default();
    let coll = Collection::make_new(&mut counter, &strings(&["x/a.png", "b.JPG", "noext"]));
    let names = batch_rename_names(&ids(&[1, 0]), &coll, "img_").unwrap();
    assert_eq!(names, strings(&["img_0000.JPG", "img_0001.png"]));
    assert!(matches!(
        batch_rename_names(&ids(&[0, 2]), &coll, "p"),
        Err(BatchRenameError::NoExtension(entry::Id(2)))
    ));
    assert!(matches!(
        batch_rename_names(&ids(&[9, 2]), &coll, "p"),
        Err(BatchRenameError::DanglingEntry(entry::Id(9)))
    ));
}

#[test]
fn line_edit_names_a_new_tag() {
    let mut le = LineEdit::new();
    le.type_char('h');
    le.type_char('\u{7}');
    le.type_char('i');
    le.type_char('x');
    le.backspace();
    assert_eq!(le.text, "hi");
    let mut counter = UidCounter::default();
    let mut coll = Collection::new();
    let id = le.submit(&mut coll, &mut counter);
    assert_eq!(coll.resolve_tag("hi"), Some(id));
}

#[test]
fn debug_notes() {
    let mut d = DebugInfos::new();
    info(&mut d, "dropped".into());
    assert!(take_infos(&mut d).is_empty());
    toggle(&mut d);
    info(&mut d, "kept".into());
    assert_eq!(take_infos(&mut d), strings(&["kept"]));
    assert!(take_infos(&mut d).is_empty());
}

#[test]
fn thumbnail_loads_are_requested_once_and_taken_when_done() {
    let mut slots: LoadSlots<&str> = LoadSlots::new();
    assert!(slots.request(entry::Id(1)));
    assert!(slots.request(entry::Id(2)));
    assert!(!slots.request(entry::Id(1)));
    assert_eq!(slots.busy_with(), ids(&[1, 2]));
    slots.complete(entry::Id(2), "two");
    let done = slots.take_finished();
    assert_eq!(done, vec![(entry::Id(2), "two")]);
    assert_eq!(slots.busy_with(), ids(&[1]));
    assert!(slots.take_finished().is_empty());
    assert!(slots.request(entry::Id(2)));
}

#[test]
fn range_selection_stops_at_the_end_of_the_view() {
    let mut buf = SelectionBuf::new("s".into());
    let view = ids(&[10, 11, 12, 13]);
    let mut begin = Some(2);
    range_select(&mut buf, &mut begin, &view, 9);
    assert_eq!(buf.buf, ids(&[12, 13]));
    let mut begin = Some(3);
    range_select(&mut buf, &mut begin, &view, 2);
    assert_eq!(buf.buf, ids(&[12, 13]));
}

#[test]
fn sorting_by_path_keeps_the_order_of_equal_paths() {
    let mut counter = UidCounter::default();
    let mut coll = Collection::new();
    let b1 = coll.add_new_entry("b.png".into(), &mut counter);
    let a = coll.add_new_entry("a.png".into(), &mut counter);
    let b2 = coll.add_new_entry("b.png".into(), &mut counter);
    let mut v = vec![b2, a, b1];
    sort_ids(&mut v, SortBy::Path, &coll);
    assert_eq!(v, vec![a, b2, b1]);
    let mut v = vec![b1, b2, a];
    sort_ids(&mut v, SortBy::Path, &coll);
    assert_eq!(v, vec![a, b1, b2]);
    let s = coll.add_new_sequence("s", &mut counter);
    coll.add_entries_to_sequence(s, &[b2, a, b1]);
    assert_eq!(coll.sequences.get(s.0).unwrap().entries, vec![a, b2, b1]);
}

#[test]
fn for_each_mut_changes_every_buffer() {
    let mut sel = SelectionBufs::new();
    sel.current_mut().extend(&ids(&[1, 2, 3]));
    sel.add_buf("Sel 2".into());
    sel.select(1);
    sel.current_mut().extend(&ids(&[2, 4]));
    let uid = entry::Id(2);
    sel.for_each_mut(|mut buf| {
        if let Some(idx) = buf.as_vec().iter().position(|id| *id == uid) {
            buf.remove(idx);
        }
        buf
    });
    assert_eq!(sel.selected_ids(), &ids(&[4])[..]);
    sel.select(0);
    assert_eq!(sel.selected_ids(), &ids(&[1, 3])[..]);
    assert_eq!(sel.current().unwrap().name, "Sel 1");
}

#[test]
fn modal_answers() {
    let mut modal = ModalDialog::default();
    modal.prompt("t".into(), "m".into(), PromptAction::DeleteTags(vec![tag::Id(3)]));
    assert!(modal.respond(false, false).is_none());
    assert!(modal.payload.is_some());
    match modal.respond(true, false) {
        Some(PromptAction::DeleteTags(ids)) => assert_eq!(ids, vec![tag::Id(3)]),
        _ => panic!("expected the prompt's action"),
    }
    assert!(modal.payload.is_none());
    modal.prompt("t".into(), "m".into(), PromptAction::QuitNoSave);
    assert!(modal.respond(false, true).is_none());
    assert!(modal.payload.is_none());
    modal.err("bad".into());
    assert!(modal.respond(true, false).is_none());
    assert!(modal.payload.is_none());
    assert!(modal.respond(true, true).is_none());
}

#[test]
fn main_screen_keys() {
    let press = |key, ctrl, shift| KeyPress { key, ctrl, shift };
    assert_eq!(key_action(press(Key::A, true, false), false, false, false, true), Some(ThumbsAction::SelectAll));
    assert_eq!(key_action(press(Key::A, true, true), false, false, false, false), Some(ThumbsAction::ClearSelection));
    assert_eq!(key_action(press(Key::A, false, false), false, false, false, false), None);
    assert_eq!(key_action(press(Key::Slash, false, false), false, false, false, true), Some(ThumbsAction::OpenFind));
    assert_eq!(key_action(press(Key::Slash, false, false), true, false, false, true), None);
    assert_eq!(key_action(press(Key::F2, false, false), false, false, false, true), None);
    assert_eq!(key_action(press(Key::F2, false, false), false, false, false, false), Some(ThumbsAction::EditSelected));
    assert_eq!(key_action(press(Key::Escape, false, false), false, false, false, false), Some(ThumbsAction::ClearSelection));
    assert_eq!(key_action(press(Key::Escape, false, false), false, false, true, false), None);
    assert_eq!(key_action(press(Key::Escape, false, false), false, true, false, false), None);
    assert_eq!(key_action(press(Key::Other, false, false), false, false, false, false), None);
}

#[test]
fn sorting_keeps_the_order_of_paths_equal_as_paths() {
    let mut counter = UidCounter::default();
    let mut coll = Collection::new();
    let x = coll.add_new_entry("a/b".into(), &mut counter);
    let y = coll.add_new_entry("a//b".into(), &mut counter);
    let z = coll.add_new_entry("0".into(), &mut counter);
    let mut v = vec![y, z, x];
    sort_ids(&mut v, SortBy::Path, &coll);
    assert_eq!(v, vec![z, y, x]);
    let mut v = vec![x, y, z];
    sort_ids(&mut v, SortBy::Path, &coll);
    assert_eq!(v, vec![z, x, y]);
}

#[test]
fn choosing_a_completion() {
    let mut counter = UidCounter::default();
    let mut coll = Collection::new();
    coll.add_new_tag(Tag::with_name("cat".into()), &mut counter);
    let mut t = Tag::with_name("bobcat".into());
    t.names.push("lynx".into());
    coll.add_new_tag(t, &mut counter);
    coll.add_new_tag(Tag::with_name("dog".into()), &mut counter);
    assert_eq!(choose_completion(&coll.tags, "cat", Some(0)).as_deref(), Some("cat"));
    assert_eq!(choose_completion(&coll.tags, "cat", Some(1)).as_deref(), Some("bobcat"));
    assert_eq!(choose_completion(&coll.tags, "cat", Some(2)), None);
    assert_eq!(choose_completion(&coll.tags, "ly", Some(0)).as_deref(), Some("bobcat"));
    assert_eq!(choose_completion(&coll.tags, "cat", None), None);
    assert_eq!(choose_completion(&coll.tags, "", Some(0)), None);
    assert_eq!(choose_completion(&coll.tags, "@u", Some(5)).as_deref(), Some("@untagged"));
    assert_eq!(choose_completion(&coll.tags, "@", Some(0)).as_deref(), Some("@any"));
    assert_eq!(choose_completion(&coll.tags, "@", Some(6)), None);
}
