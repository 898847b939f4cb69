use notes::cache::Cache;
use notes::error::{print_error, Error};
use notes::note::{is_found, Note};
use notes::ops::{
    add_note, drop_candidates, drop_notes, export_notes, import_body, import_note, import_notes,
    lookup_id, needs_confirmation, new_note, open_list_notes, update_note, Listing,
};
use notes::query::Query;
use notes::tags::Tags;

fn tags(names: &[&str]) -> Tags {
    Tags::from_vec(names.iter().map(|n| String::from(*n)).collect())
}

fn note(id: usize, title: &str, names: &[&str], body: &str) -> Note {
    Note { id, title: String::from(title), tags: tags(names), body: String::from(body) }
}

fn alpha() -> Note {
    note(1, "Alpha", &["x"], "/tmp/a.txt")
}

fn beta() -> Note {
    note(2, "Beta", &["x", "y"], "/tmp/b.txt")
}

fn two_notes() -> Cache {
    Cache::from_notes(vec![beta(), alpha()])
}

fn ids(listing: &Listing) -> Vec<usize> {
    listing.notes.iter().map(|n| n.id).collect()
}

fn found(cache: &Cache, query: &Query) -> Vec<usize> {
    ids(&open_list_notes(cache, query, usize::MAX))
}

fn by_tags(names: &[&str]) -> Query {
    Query { title: None, bodies: None, ids: None, tags: Some(tags(names)) }
}

fn by_title(pattern: &str) -> Query {
    Query { title: Some(String::from(pattern)), bodies: None, ids: None, tags: None }
}

fn by_ids(list: &[&str]) -> Query {
    Query {
        title: None,
        bodies: None,
        ids: Some(list.iter().map(|s| String::from(*s)).collect()),
        tags: None,
    }
}

#[test]
fn filter_id_reads_hexadecimal() {
    let n = note(255, "t", &[], "/b");
    assert!(n.filter_id("ff"));
    assert!(n.filter_id("00FF"));
    assert!(!n.filter_id("255"));
    assert!(!n.filter_id("fe"));
}

#[test]
fn filter_id_with_a_malformed_number_matches_nothing() {
    let n = note(0, "t", &[], "/b");
    assert!(!n.filter_id(""));
    assert!(!n.filter_id("zero"));
    assert!(!n.filter_id("-0"));
    assert!(n.filter_id("0"));
}

#[test]
fn filter_title_matches_anywhere_in_the_title() {
    let n = note(1, "Shopping list", &[], "/b");
    assert!(n.filter_title("list"));
    assert!(n.filter_title("^Shop"));
    assert!(n.filter_title("p{2}"));
    assert!(n.filter_title(""));
    assert!(!n.filter_title("^list"));
    assert!(!n.filter_title("shopping"));
}

#[test]
fn filter_title_with_an_invalid_pattern_matches_nothing() {
    let n = note(1, "foo(bar", &[], "/b");
    assert!(!n.filter_title("foo(bar"));
    assert!(!n.filter_title("["));
    assert!(n.filter_title("foo\\(bar"));
}

#[test]
fn filter_title_is_not_a_comparison_of_the_two_texts() {
    let n = note(1, "a.c", &[], "/b");
    assert!(n.filter_title("a.c"));
    assert!(note(1, "abc", &[], "/b").filter_title("a.c"));
    assert!(!note(1, "a+", &[], "/b").filter_title("a\\+\\+"));
}

#[test]
fn is_found_takes_a_refused_pattern_as_no_match() {
    assert!(is_found(Some(true)));
    assert!(!is_found(Some(false)));
    assert!(!is_found(None));
}

#[test]
fn filter_tags_is_a_subset_test() {
    let n = note(1, "t", &["a", "b", "c"], "/b");
    assert!(n.filter_tags(tags(&["a", "b"])));
    assert!(!n.filter_tags(tags(&["a", "b", "d"])));
    assert!(n.filter_tags(tags(&[])));
    assert!(n.filter_tags(tags(&["c", "b", "a"])));
}

#[test]
fn filter_body_compares_the_resolved_path() {
    let n = note(1, "t", &[], "/tmp/a.txt");
    assert!(n.filter_body(&Some(String::from("/tmp/a.txt"))));
    assert!(!n.filter_body(&Some(String::from("/tmp/../tmp/a.txt"))));
    assert!(!n.filter_body(&Some(String::from("/tmp/b.txt"))));
    assert!(!n.filter_body(&None));
}

#[test]
fn note_clone_is_equal() {
    assert_eq!(beta().clone(), beta());
}

#[test]
fn query_without_criteria_matches_everything() {
    let cache = two_notes();
    assert_eq!(found(&cache, &Query::new()), vec![1, 2]);
    assert!(Query::new().matches(&alpha()));
}

#[test]
fn scenario_queries_by_tag_and_title() {
    let cache = two_notes();
    assert_eq!(found(&cache, &by_tags(&["x"])), vec![1, 2]);
    assert_eq!(found(&cache, &by_tags(&["x", "y"])), vec![2]);
    assert_eq!(found(&cache, &by_title("^Be")), vec![2]);
}

#[test]
fn query_criteria_are_combined_with_and() {
    let cache = two_notes();
    let q = Query {
        title: Some(String::from("a$")),
        bodies: None,
        ids: None,
        tags: Some(tags(&["y"])),
    };
    assert_eq!(found(&cache, &q), vec![2]);
    let q = Query {
        title: Some(String::from("^Al")),
        bodies: None,
        ids: None,
        tags: Some(tags(&["y"])),
    };
    assert_eq!(found(&cache, &q), Vec::<usize>::new());
}

#[test]
fn query_alternatives_are_combined_with_or() {
    let cache = two_notes();
    assert_eq!(found(&cache, &by_ids(&["1", "2"])), vec![1, 2]);
    assert_eq!(found(&cache, &by_ids(&["2", "junk"])), vec![2]);
    assert_eq!(found(&cache, &by_ids(&["junk"])), Vec::<usize>::new());
    assert_eq!(found(&cache, &by_ids(&[])), Vec::<usize>::new());
    let q = Query {
        title: None,
        bodies: Some(vec![None, Some(String::from("/tmp/b.txt"))]),
        ids: None,
        tags: None,
    };
    assert_eq!(found(&cache, &q), vec![2]);
    let q = Query { title: None, bodies: Some(vec![None]), ids: None, tags: None };
    assert_eq!(found(&cache, &q), Vec::<usize>::new());
}

#[test]
fn query_does_not_depend_on_the_order_of_its_parts() {
    let cache = Cache::from_notes(vec![alpha(), beta(), note(3, "Gamma", &["y", "x"], "/tmp/c.txt")]);
    let one = Query {
        title: Some(String::from("a$")),
        bodies: Some(vec![Some(String::from("/tmp/c.txt")), Some(String::from("/tmp/b.txt"))]),
        ids: Some(vec![String::from("3"), String::from("2"), String::from("1")]),
        tags: Some(tags(&["x", "y"])),
    };
    let two = Query {
        title: Some(String::from("a$")),
        bodies: Some(vec![
            Some(String::from("/tmp/b.txt")),
            Some(String::from("/tmp/c.txt")),
            Some(String::from("/tmp/b.txt")),
        ]),
        ids: Some(vec![String::from("1"), String::from("3"), String::from("2")]),
        tags: Some(tags(&["y", "x"])),
    };
    assert_eq!(found(&cache, &one), vec![2, 3]);
    assert_eq!(found(&cache, &two), vec![2, 3]);
}

#[test]
fn matches_given_takes_the_title_result_as_it_is() {
    let q = by_tags(&["x"]);
    assert!(q.matches_given(&alpha(), true));
    assert!(!q.matches_given(&alpha(), false));
    assert!(!by_tags(&["z"]).matches_given(&alpha(), true));
    assert!(q.matches_rest(&alpha()));
}

#[test]
fn listing_stops_at_the_limit_and_counts_the_rest() {
    let cache = Cache::from_notes(vec![
        note(5, "e", &[], "/e"),
        note(3, "c", &[], "/c"),
        note(4, "d", &["skip"], "/d"),
        note(1, "a", &[], "/a"),
        note(2, "b", &[], "/b"),
    ]);
    let q = by_title("^[^d]$");
    let listing = open_list_notes(&cache, &q, 2);
    assert_eq!(ids(&listing), vec![1, 2]);
    assert_eq!(listing.remaining, 2);
    assert_eq!(listing.notes[0], note(1, "a", &[], "/a"));
    let listing = open_list_notes(&cache, &q, 0);
    assert_eq!(ids(&listing), Vec::<usize>::new());
    assert_eq!(listing.remaining, 4);
    let listing = open_list_notes(&cache, &q, 4);
    assert_eq!(ids(&listing), vec![1, 2, 3, 5]);
    assert_eq!(listing.remaining, 0);
    let listing = open_list_notes(&cache, &q, 10);
    assert_eq!(listing.notes.len(), 4);
    assert_eq!(listing.remaining, 0);
}

#[test]
fn cache_keeps_one_note_for_each_identifier() {
    let mut cache = Cache::new();
    assert_eq!(cache.len(), 0);
    assert_eq!(cache.insert(beta()), None);
    assert_eq!(cache.insert(alpha()), None);
    assert_eq!(cache.insert(note(2, "Beta again", &[], "/tmp/b2.txt")), Some(beta()));
    assert_eq!(cache.len(), 2);
    assert!(cache.contains_key(1));
    assert!(!cache.contains_key(3));
    assert_eq!(cache.get(2), Some(&note(2, "Beta again", &[], "/tmp/b2.txt")));
    assert_eq!(cache.get(7), None);
    assert_eq!(cache.notes()[0], alpha());
    assert_eq!(cache.remove(1), Some(alpha()));
    assert_eq!(cache.remove(1), None);
    assert_eq!(cache.len(), 1);
    assert_eq!(cache.clone(), cache);
    assert_eq!(cache.into_notes(), vec![note(2, "Beta again", &[], "/tmp/b2.txt")]);
}

#[test]
fn cache_from_notes_lets_the_later_note_win() {
    let cache = Cache::from_notes(vec![alpha(), note(1, "Other", &[], "/o")]);
    assert_eq!(cache.into_notes(), vec![note(1, "Other", &[], "/o")]);
    assert_eq!(Cache::from_notes(vec![alpha(), beta()]), two_notes());
}

#[test]
fn scenario_drop_with_force_removes_exactly_the_match() {
    let mut cache = Cache::from_notes(vec![alpha(), beta(), note(3, "Gamma", &[], "/tmp/c.txt")]);
    let dropped = drop_notes(&mut cache, &by_title("^Be"), true, &Vec::new());
    assert_eq!(dropped, 1);
    assert_eq!(cache, Cache::from_notes(vec![alpha(), note(3, "Gamma", &[], "/tmp/c.txt")]));
    assert_eq!(cache.into_notes(), vec![alpha(), note(3, "Gamma", &[], "/tmp/c.txt")]);
}

#[test]
fn drop_without_force_takes_only_the_confirmed_notes() {
    let mut cache = two_notes();
    assert_eq!(drop_candidates(&cache, &by_tags(&["x"])), vec![1, 2]);
    assert_eq!(drop_candidates(&cache, &by_tags(&["y"])), vec![2]);
    assert_eq!(drop_notes(&mut cache, &by_tags(&["x"]), false, &Vec::new()), 0);
    assert_eq!(cache, two_notes());
    assert_eq!(drop_notes(&mut cache, &by_tags(&["y"]), false, &vec![1]), 0);
    assert_eq!(cache, two_notes());
    assert_eq!(drop_notes(&mut cache, &by_tags(&["x"]), false, &vec![2, 9]), 1);
    assert_eq!(cache.into_notes(), vec![alpha()]);
}

#[test]
fn drop_with_an_empty_query_and_force_empties_the_cache() {
    let mut cache = two_notes();
    assert_eq!(drop_notes(&mut cache, &Query::new(), true, &Vec::new()), 2);
    assert_eq!(cache.len(), 0);
}

#[test]
fn new_note_puts_a_note_under_the_returned_identifier() {
    let mut cache = two_notes();
    let id = new_note(&mut cache, String::from("New"), tags(&["n"]), String::from("/tmp/n.txt"));
    assert_eq!(cache.get(id), Some(&note(id, "New", &["n"], "/tmp/n.txt")));
    assert!(cache.len() == 3 || id == 1 || id == 2);
}

#[test]
fn new_note_draws_different_identifiers() {
    let mut cache = Cache::new();
    let mut seen = Vec::new();
    for _ in 0..8 {
        seen.push(new_note(&mut cache, String::from("t"), Tags::new(), String::from("/b")));
    }
    seen.sort();
    seen.dedup();
    assert!(seen.len() > 1);
}

#[test]
fn add_note_replaces_a_note_with_the_same_identifier() {
    let mut cache = two_notes();
    add_note(&mut cache, 2, String::from("B"), Tags::new(), String::from("/b"));
    add_note(&mut cache, 9, String::from("I"), Tags::new(), String::from("/i"));
    assert_eq!(cache.into_notes(), vec![alpha(), note(2, "B", &[], "/b"), note(9, "I", &[], "/i")]);
}

#[test]
fn update_replaces_only_what_is_given() {
    let mut cache = two_notes();
    assert_eq!(update_note(&mut cache, "2", Some(String::from("B2")), None, None), Ok(()));
    assert_eq!(cache.get(2), Some(&note(2, "B2", &["x", "y"], "/tmp/b.txt")));
    assert_eq!(update_note(&mut cache, "02", None, Some(tags(&["z"])), None), Ok(()));
    assert_eq!(cache.get(2), Some(&note(2, "B2", &["z"], "/tmp/b.txt")));
    assert_eq!(update_note(&mut cache, "2", None, None, Some(String::from("/tmp/c.txt"))), Ok(()));
    assert_eq!(cache.get(2), Some(&note(2, "B2", &["z"], "/tmp/c.txt")));
    assert_eq!(update_note(&mut cache, "1", None, None, None), Ok(()));
    assert_eq!(cache.get(1), Some(&alpha()));
    assert_eq!(cache.len(), 2);
}

#[test]
fn scenario_update_of_a_missing_note_changes_nothing() {
    let mut cache = two_notes();
    let r = update_note(&mut cache, "2a", Some(String::from("X")), Some(Tags::new()), None);
    assert_eq!(r, Err(Error::NoSuchNote(42)));
    assert_eq!(cache, two_notes());
}

#[test]
fn update_with_a_malformed_identifier_changes_nothing() {
    let mut cache = two_notes();
    let r = update_note(&mut cache, "two", Some(String::from("X")), None, None);
    assert_eq!(r, Err(Error::MalformedId));
    assert_eq!(cache, two_notes());
}

#[test]
fn lookup_id_finds_or_says_why_not() {
    let cache = two_notes();
    assert_eq!(lookup_id(&cache, "1"), Ok(1));
    assert_eq!(lookup_id(&cache, "a"), Err(Error::NoSuchNote(10)));
    assert_eq!(lookup_id(&cache, ""), Err(Error::MalformedId));
}

#[test]
fn export_gives_the_matching_notes_as_they_are() {
    let cache = two_notes();
    assert_eq!(export_notes(&cache, &Query::new(), None), Ok(vec![alpha(), beta()]));
    assert_eq!(export_notes(&cache, &by_tags(&["y"]), None), Ok(vec![beta()]));
}

#[test]
fn export_relative_rewrites_the_bodies() {
    let cache = Cache::from_notes(vec![alpha(), note(2, "Beta", &["x", "y"], "/home/me/b.txt")]);
    assert_eq!(
        export_notes(&cache, &Query::new(), Some("/tmp/out/export.json")),
        Ok(vec![
            note(1, "Alpha", &["x"], "../a.txt"),
            note(2, "Beta", &["x", "y"], "../../home/me/b.txt"),
        ])
    );
    assert_eq!(
        export_notes(&cache, &by_title("Alpha"), Some("/tmp/export.json")),
        Ok(vec![note(1, "Alpha", &["x"], "a.txt")])
    );
}

#[test]
fn export_relative_fails_at_the_first_body_without_a_way() {
    let cache = Cache::from_notes(vec![
        alpha(),
        note(7, "Lost", &[], "relative/seven.txt"),
        note(8, "Lost too", &[], "relative/eight.txt"),
    ]);
    assert_eq!(
        export_notes(&cache, &Query::new(), Some("/tmp/export.json")),
        Err(Error::RelativePath(7))
    );
    assert_eq!(
        export_notes(&cache, &by_ids(&["1"]), Some("/tmp/export.json")),
        Ok(vec![note(1, "Alpha", &["x"], "a.txt")])
    );
}

#[test]
fn export_then_import_gives_the_cache_back() {
    let cache = Cache::from_notes(vec![alpha(), beta(), note(0xfff, "Gamma", &[], "/tmp/c.txt")]);
    let exported = export_notes(&cache, &Query::new(), None).unwrap();
    for overwrite in [false, true] {
        let mut fresh = Cache::new();
        assert_eq!(import_notes(&mut fresh, exported.clone(), overwrite), 3);
        assert_eq!(fresh, cache);
    }
}

#[test]
fn import_keeps_or_replaces_a_note_that_is_there() {
    let incoming = note(2, "Imported", &["i"], "/tmp/i.txt");
    let mut cache = two_notes();
    assert!(needs_confirmation(&cache, &incoming, false));
    assert!(!needs_confirmation(&cache, &incoming, true));
    assert!(!needs_confirmation(&cache, &note(3, "t", &[], "/b"), false));
    assert!(!import_note(&mut cache, incoming.clone(), false));
    assert_eq!(cache, two_notes());
    assert!(import_note(&mut cache, incoming.clone(), true));
    assert_eq!(cache.get(2), Some(&incoming));
    assert!(import_note(&mut cache, note(3, "t", &[], "/b"), false));
    assert_eq!(cache.len(), 3);
}

#[test]
fn import_of_a_list_goes_note_by_note() {
    let list = vec![note(2, "first", &[], "/1"), note(5, "five", &[], "/5"), note(5, "again", &[], "/6")];
    let mut cache = two_notes();
    assert_eq!(import_notes(&mut cache, list.clone(), false), 1);
    assert_eq!(cache.into_notes(), vec![alpha(), beta(), note(5, "five", &[], "/5")]);
    let mut cache = two_notes();
    assert_eq!(import_notes(&mut cache, list, true), 3);
    assert_eq!(cache.into_notes(), vec![alpha(), note(2, "first", &[], "/1"), note(5, "again", &[], "/6")]);
}

#[test]
fn import_body_is_taken_from_the_directory_of_the_file() {
    assert_eq!(import_body("/tmp/out/export.json", "../a.txt"), "/tmp/out/../a.txt");
    assert_eq!(import_body("export.json", "notes/a.txt"), "notes/a.txt");
    assert_eq!(import_body("/tmp/export.json", "/abs/a.txt"), "/abs/a.txt");
}

#[test]
fn print_error_words_every_failure() {
    assert_eq!(print_error(Error::OpenCache), "failed to open the notes cache");
    assert_eq!(print_error(Error::DecodeCache), "failed to decode the notes cache");
    assert_eq!(print_error(Error::CreateCache), "failed to create the notes cache");
    assert_eq!(print_error(Error::EncodeCache), "failed to encode the notes cache");
    assert_eq!(print_error(Error::HomeDir), "failed to find your home directory");
    assert_eq!(print_error(Error::MalformedId), "id could not be parsed");
    assert_eq!(print_error(Error::NoSuchNote(255)), "no note with id '00000000000000FF' found");
    assert_eq!(print_error(Error::CreateExport), "failed to create export file");
    assert_eq!(print_error(Error::WriteExport), "failed to write export file");
    assert_eq!(print_error(Error::ReadExport), "failed to read import file");
    assert_eq!(
        print_error(Error::Canonicalize(String::from("/no/such"))),
        "failed to canonicalize path '/no/such'"
    );
    assert_eq!(
        print_error(Error::RelativePath(0xABC)),
        "failed to get relative path of note '0000000000000ABC'"
    );
    assert_eq!(print_error(Error::JsonEncode), "failed to encode json");
    assert_eq!(print_error(Error::JsonDecode), "failed to decode json");
}
