use cowbump::db::UidCounter;
use cowbump::gui::load_folder::{drop_ignored, new_collection, paths_to_add, to_ignore_vec, PathAdd};

fn file(path: &str, add: bool) -> PathAdd {
    PathAdd { path: path.into(), add }
}

#[test]
fn ignore_list_is_comma_separated_and_trimmed() {
    assert_eq!(to_ignore_vec(" jpg, png ,,x "), vec!["jpg", "png", "", "x"]);
    assert_eq!(to_ignore_vec(""), vec![""]);
    assert_eq!(to_ignore_vec("\u{3000}txt\t"), vec!["txt"]);
}

#[test]
fn ignored_files_are_dropped_in_order() {
    let results = vec![
        file("a.jpg", true),
        file("b.txt", true),
        file("c", true),
        file("d.png", false),
    ];
    let kept = drop_ignored(results, &["txt".to_string()]);
    let paths: Vec<&str> = kept.iter().map(|f| f.path.as_str()).collect();
    assert_eq!(paths, vec!["a.jpg", "c", "d.png"]);
    assert_eq!(paths_to_add(&kept), vec!["a.jpg", "c"]);
}

#[test]
fn a_loaded_folder_becomes_a_collection() {
    let mut counter = UidCounter::starting_at(5);
    let results = vec![file("a.jpg", true), file("skip.jpg", false)];
    let coll = new_collection(&mut counter, &results, "txt, md");
    assert_eq!(coll.entries.len(), 1);
    assert_eq!(coll.entries.get(5).unwrap().path, "a.jpg");
    assert_eq!(coll.ignored_extensions, vec!["txt", "md"]);
    assert_eq!(counter.peek(), 6);
}

#[test]
fn extension_is_taken_from_the_file_name() {
    let results = vec![
        file("notes.txt.bak", true),
        file("dir.txt/readme", true),
        file(".txt", true),
        file("sub/x.txt", true),
    ];
    let kept = drop_ignored(results, &["txt".to_string()]);
    let paths: Vec<&str> = kept.iter().map(|f| f.path.as_str()).collect();
    assert_eq!(paths, vec!["notes.txt.bak", "dir.txt/readme", ".txt"]);
}
