use cowbump::collection::Collection;
use cowbump::db::UidCounter;
use cowbump::entry::{self, Entry};
use cowbump::filter_lang::{FnCall, Requirement};
use cowbump::filter_reqs::{Req, ReqTransformError, Requirements};
use cowbump::filter_spec::{FilterSpec, ParseResolveError};
use cowbump::tag::{self, Tag};

fn coll_with_tags() -> (Collection, tag::Id, tag::Id) {
    let mut counter = UidCounter::default();
    let mut coll = Collection::new();
    let cat = coll.add_new_tag(Tag::with_name("cat".into()), &mut counter);
    let dog = coll.add_new_tag(Tag::with_name("dog".into()), &mut counter);
    (coll, cat, dog)
}

#[test]
fn parse_filter_string_reads_tags_and_meta_words() {
    let (coll, cat, dog) = coll_with_tags();
    let spec = FilterSpec::parse_and_resolve("cat !dog f:beach", &coll).unwrap();
    assert_eq!(spec.has_tags, vec![cat.0]);
    assert_eq!(spec.doesnt_have_tags, vec![dog.0]);
    assert_eq!(spec.filename_substring, "beach");
    assert!(!spec.doesnt_have_any_tags);
    let spec = FilterSpec::parse_and_resolve("  :no-tag  ", &coll).unwrap();
    assert!(spec.doesnt_have_any_tags);
}

#[test]
fn parse_filter_string_unknown_tag_is_an_error() {
    let (coll, _, _) = coll_with_tags();
    match FilterSpec::parse_and_resolve("cat !bird", &coll) {
        Err(ParseResolveError::NoSuchTag(name)) => assert_eq!(name, "bird"),
        Ok(_) => panic!("expected an error"),
    }
}

#[test]
fn empty_filter_string_filters_nothing() {
    let (coll, _, _) = coll_with_tags();
    let spec = FilterSpec::parse_and_resolve("", &coll).unwrap();
    assert!(!spec.active());
    let en = Entry::new("Anything.PNG".into());
    assert!(en.spec_satisfied(&spec, &coll.tags));
}

#[test]
fn spec_string_round_trip_of_tags() {
    let (coll, cat, dog) = coll_with_tags();
    let spec = FilterSpec {
        has_tags: vec![cat.0],
        doesnt_have_tags: vec![dog.0],
        filename_substring: "sea".into(),
        doesnt_have_any_tags: false,
    };
    assert_eq!(spec.to_spec_string(&coll.tags), "cat !dog sea");
    let untagged = FilterSpec { doesnt_have_any_tags: true, ..FilterSpec::default() };
    assert_eq!(untagged.to_spec_string(&coll.tags), ":notag");
}

#[test]
fn spec_satisfied_checks_name_tags_and_untagged() {
    let (mut coll, cat, dog) = coll_with_tags();
    let mut counter = UidCounter::starting_at(100);
    let id = coll.add_new_entry("Photos/ÄBC_Beach.jpg".into(), &mut counter);
    assert!(coll.add_tag_for(id, cat).is_ok());
    let en = coll.entries.get(id.0).unwrap();
    let by_name = FilterSpec { filename_substring: "äbc_beach".into(), ..FilterSpec::default() };
    assert!(en.spec_satisfied(&by_name, &coll.tags));
    let wrong_name = FilterSpec { filename_substring: "forest".into(), ..FilterSpec::default() };
    assert!(!en.spec_satisfied(&wrong_name, &coll.tags));
    let has_cat = FilterSpec { has_tags: vec![cat.0], ..FilterSpec::default() };
    assert!(en.spec_satisfied(&has_cat, &coll.tags));
    let not_cat = FilterSpec { doesnt_have_tags: vec![cat.0], ..FilterSpec::default() };
    assert!(!en.spec_satisfied(&not_cat, &coll.tags));
    let has_dog = FilterSpec { has_tags: vec![dog.0], ..FilterSpec::default() };
    assert!(!en.spec_satisfied(&has_dog, &coll.tags));
    let untagged = FilterSpec { doesnt_have_any_tags: true, ..FilterSpec::default() };
    assert!(!en.spec_satisfied(&untagged, &coll.tags));
}

#[test]
fn filter_spec_toggles() {
    let mut spec = FilterSpec::default();
    spec.toggle_has(3);
    spec.toggle_has(4);
    assert_eq!(spec.has_tags, vec![3, 4]);
    assert!(spec.active());
    spec.toggle_has(3);
    assert_eq!(spec.has_tags, vec![4]);
    spec.set_has(4, true);
    assert_eq!(spec.has_tags, vec![4]);
    spec.set_doesnt_have(9, true);
    spec.toggle_doesnt_have(9);
    assert!(spec.doesnt_have_tags.is_empty());
    spec.clear();
    assert!(spec.has_tags.is_empty());
    assert!(!spec.active());
}

#[test]
fn requirements_toggles() {
    let mut reqs = Requirements::default();
    assert!(reqs.is_empty());
    reqs.toggle_have_tag(tag::Id(1));
    assert!(reqs.have_tag(tag::Id(1)));
    reqs.toggle_not_have_tag(tag::Id(1));
    // Top level only: both requirements now stand side by side.
    assert!(reqs.not_have_tag(tag::Id(1)));
    assert!(reqs.have_tag(tag::Id(1)));
    reqs.toggle_not_have_tag(tag::Id(1));
    reqs.toggle_have_tag(tag::Id(1));
    assert!(reqs.is_empty());
    reqs.set_have_tag_exact(tag::Id(2), true);
    assert!(reqs.have_tag_exact(tag::Id(2)));
    reqs.clear();
    assert!(reqs.is_empty());
}

#[test]
fn transform_parsed_requirements() {
    let (coll, cat, dog) = coll_with_tags();
    let parsed = Requirement::FnCall(FnCall {
        name: "any".into(),
        params: vec![Requirement::Tag("cat".into()), Requirement::Not(Box::new(Requirement::TagExact("dog".into())))],
    });
    let req = Req::from_tagfilter_lang_req(parsed, &coll).unwrap();
    assert_eq!(req.to_string(&coll.tags), "@any[cat !$dog ]");
    match req {
        Req::Any(_) => {}
        _ => panic!("expected @any"),
    }
    let _ = (cat, dog);
}

#[test]
fn transform_errors() {
    let (coll, _, _) = coll_with_tags();
    let unknown_tag = Req::from_tagfilter_lang_req(Requirement::Tag("bird".into()), &coll);
    assert!(matches!(unknown_tag, Err(ReqTransformError::NoSuchTag(n)) if n == "bird"));
    let unknown_fn = Req::from_tagfilter_lang_req(
        Requirement::FnCall(FnCall { name: "frobnicate".into(), params: vec![] }),
        &coll,
    );
    assert!(matches!(unknown_fn, Err(ReqTransformError::UnknownFn { name }) if name == "frobnicate"));
    let missing = Req::from_tagfilter_lang_req(
        Requirement::FnCall(FnCall { name: "ntags".into(), params: vec![] }),
        &coll,
    );
    assert!(matches!(missing, Err(ReqTransformError::MissingParameter)));
    let invalid = Req::from_tagfilter_lang_req(
        Requirement::FnCall(FnCall { name: "ntags".into(), params: vec![Requirement::Tag("x1".into())] }),
        &coll,
    );
    assert!(matches!(invalid, Err(ReqTransformError::InvalidParameter)));
    let ntags = Req::from_tagfilter_lang_req(
        Requirement::FnCall(FnCall { name: "ntags".into(), params: vec![Requirement::Tag("+12".into())] }),
        &coll,
    )
    .unwrap();
    assert_eq!(ntags.to_string(&coll.tags), "@ntags[12]");
    let untagged = Req::from_tagfilter_lang_req(
        Requirement::FnCall(FnCall { name: "untagged".into(), params: vec![] }),
        &coll,
    )
    .unwrap();
    assert_eq!(untagged.to_string(&coll.tags), "@untagged");
}

#[test]
fn resolve_keeps_requirements_before_the_error() {
    let (coll, cat, _) = coll_with_tags();
    let mut reqs = Requirements::default();
    let r = reqs.resolve(vec![Requirement::Tag("cat".into()), Requirement::Tag("bird".into())], &coll);
    assert!(r.is_err());
    assert!(reqs.have_tag(cat));
    let mut all = Requirements::default();
    assert!(all.resolve(vec![Requirement::Tag("dog".into()), Requirement::Tag("cat".into())], &coll).is_ok());
    assert_eq!(all.to_string(&coll.tags), "dog cat ");
}

#[test]
fn requirements_evaluate_on_entries() {
    let (mut coll, cat, dog) = coll_with_tags();
    let mut counter = UidCounter::starting_at(10);
    let a = coll.add_new_entry("a".into(), &mut counter);
    let b = coll.add_new_entry("b".into(), &mut counter);
    assert!(coll.add_tag_for(a, cat).is_ok());
    assert!(coll.add_tag_for(b, dog).is_ok());
    let mut reqs = Requirements::default();
    assert!(reqs
        .resolve(
            vec![Requirement::FnCall(FnCall {
                name: "none".into(),
                params: vec![Requirement::Tag("dog".into())],
            })],
            &coll
        )
        .is_ok());
    assert_eq!(coll.filter(&reqs), vec![a]);
    let en_b = coll.entries.get(b.0).unwrap();
    assert!(!reqs.all_satisfied_by(b, en_b, &coll.tags, &coll.sequences));
    let _ = entry::Id(0);
}

#[test]
fn a_filter_that_only_excludes_is_active() {
    let only_not = FilterSpec { doesnt_have_tags: vec![5], ..FilterSpec::default() };
    assert!(only_not.active());
    let untagged = FilterSpec { doesnt_have_any_tags: true, ..FilterSpec::default() };
    assert!(untagged.active());
    let by_name = FilterSpec { filename_substring: "x".into(), ..FilterSpec::default() };
    assert!(by_name.active());
    assert!(!FilterSpec::default().active());
}

#[test]
fn spec_text_reads_back_as_the_same_tags() {
    let (coll, cat, dog) = coll_with_tags();
    let spec = FilterSpec {
        has_tags: vec![dog.0, cat.0],
        doesnt_have_tags: vec![cat.0],
        filename_substring: String::new(),
        doesnt_have_any_tags: false,
    };
    let text = spec.to_spec_string(&coll.tags);
    assert_eq!(text, "dog cat !cat ");
    let back = FilterSpec::parse_and_resolve(&text, &coll).unwrap();
    assert_eq!(back.has_tags, spec.has_tags);
    assert_eq!(back.doesnt_have_tags, spec.doesnt_have_tags);
    assert!(back.filename_substring.is_empty());
    assert!(!back.doesnt_have_any_tags);
}

#[test]
fn none_any_all_agree() {
    let mut reqs = Requirements::default();
    let is_tag = |r: &Req| matches!(r, Req::Tag(_));
    let not_tag = |r: &Req| !matches!(r, Req::Tag(_));
    assert!(!reqs.any(is_tag));
    assert!(reqs.none(is_tag));
    assert!(reqs.all(not_tag));
    reqs.set_have_tag(tag::Id(1), true);
    assert!(reqs.any(is_tag));
    assert!(!reqs.none(is_tag));
    assert!(!reqs.all(not_tag));
    assert!(reqs.all(is_tag));
}
