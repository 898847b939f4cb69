use notes::path::{
    components, join, parent, path_beside, path_relative_from, relative_components, render,
    Component,
};

fn name(s: &str) -> Component {
    Component::Normal(String::from(s))
}

#[test]
fn components_of_an_absolute_path() {
    assert_eq!(
        components("/tmp/notes/a.txt"),
        vec![Component::RootDir, name("tmp"), name("notes"), name("a.txt")]
    );
}

#[test]
fn components_skip_empty_pieces_and_inner_dots() {
    assert_eq!(
        components("/a//b/./c/"),
        vec![Component::RootDir, name("a"), name("b"), name("c")]
    );
}

#[test]
fn components_keep_a_leading_dot_and_parents() {
    assert_eq!(
        components("./a/../b"),
        vec![Component::CurDir, name("a"), Component::ParentDir, name("b")]
    );
    assert_eq!(components("."), vec![Component::CurDir]);
    assert_eq!(components(".."), vec![Component::ParentDir]);
    assert_eq!(components(".hidden"), vec![name(".hidden")]);
}

#[test]
fn components_of_the_empty_path_and_the_root() {
    assert_eq!(components(""), Vec::<Component>::new());
    assert_eq!(components("/"), vec![Component::RootDir]);
    assert_eq!(components("///"), vec![Component::RootDir]);
}

#[test]
fn components_with_letters_beyond_ascii() {
    assert_eq!(components("/é/日本"), vec![Component::RootDir, name("é"), name("日本")]);
}

#[test]
fn render_joins_with_one_separator() {
    assert_eq!(render(&vec![Component::RootDir, name("a"), name("b")]), "/a/b");
    assert_eq!(render(&vec![Component::ParentDir, Component::ParentDir, name("b")]), "../../b");
    assert_eq!(render(&vec![Component::CurDir, name("a")]), "./a");
    assert_eq!(render(&vec![Component::RootDir]), "/");
    assert_eq!(render(&Vec::new()), "");
}

#[test]
fn render_starts_afresh_at_a_root() {
    assert_eq!(render(&vec![name("a"), Component::RootDir, name("b")]), "/b");
}

#[test]
fn render_undoes_components() {
    for path in ["/a/b/c", "a/b", "../x", "./y/z", "/", ""] {
        assert_eq!(render(&components(path)), path);
    }
}

#[test]
fn relative_from_an_ancestor_has_no_parent_steps() {
    assert_eq!(path_relative_from("/a/b/c", "/a"), Some(String::from("b/c")));
    assert_eq!(path_relative_from("/a/b/c", "/"), Some(String::from("a/b/c")));
    assert_eq!(path_relative_from("/tmp/notes/a.txt", "/tmp/notes"), Some(String::from("a.txt")));
}

#[test]
fn relative_from_a_sibling_goes_up_then_down() {
    assert_eq!(path_relative_from("/a/b", "/a/c/d"), Some(String::from("../../b")));
    assert_eq!(path_relative_from("/a/b/c", "/a/x"), Some(String::from("../b/c")));
}

#[test]
fn relative_from_paths_that_share_only_the_root() {
    assert_eq!(path_relative_from("/x/y", "/a/b"), Some(String::from("../../x/y")));
}

#[test]
fn relative_from_a_descendant_goes_up_once_per_component() {
    assert_eq!(path_relative_from("/a", "/a/b/c"), Some(String::from("../..")));
}

#[test]
fn relative_from_the_same_path_is_empty() {
    assert_eq!(path_relative_from("/a/b", "/a/b"), Some(String::new()));
}

#[test]
fn relative_from_mixed_absoluteness() {
    assert_eq!(path_relative_from("/a/b", "c/d"), Some(String::from("/a/b")));
    assert_eq!(path_relative_from("a/b", "/c/d"), None);
}

#[test]
fn relative_from_keeps_an_absolute_path_as_written() {
    assert_eq!(path_relative_from("/a//b/", "c"), Some(String::from("/a//b/")));
}

#[test]
fn relative_from_between_relative_paths() {
    assert_eq!(path_relative_from("a/b", "a/c"), Some(String::from("../b")));
    assert_eq!(path_relative_from("a/b/c", "a"), Some(String::from("b/c")));
}

#[test]
fn relative_from_a_base_with_a_parent_step_has_no_answer() {
    assert_eq!(path_relative_from("a/b", "../c"), None);
}

#[test]
fn relative_from_a_base_that_starts_in_the_current_directory() {
    assert_eq!(path_relative_from("a/b", "./x"), Some(String::from("a/../b")));
    assert_eq!(path_relative_from("a", "."), Some(String::from("a")));
}

#[test]
fn relative_from_a_base_that_is_longer_counts_every_component() {
    assert_eq!(path_relative_from("a", "a/./.."), Some(String::from("..")));
}

#[test]
fn relative_round_trip_on_components() {
    let path = components("/home/me/notes/deep/a.txt");
    let base = components("/home/me/export");
    let way = relative_components(&path, &base).unwrap();
    assert_eq!(render(&way), "../notes/deep/a.txt");
}

#[test]
fn parent_drops_the_last_component() {
    assert_eq!(render(&parent(components("/x/export.json"))), "/x");
    assert_eq!(render(&parent(components("export.json"))), "");
    assert_eq!(render(&parent(components("/"))), "/");
    assert_eq!(render(&parent(components(""))), "");
}

#[test]
fn join_appends_or_replaces() {
    assert_eq!(render(&join(components("/x"), &components("a/b"))), "/x/a/b");
    assert_eq!(render(&join(components("/x"), &components("/a/b"))), "/a/b");
    assert_eq!(render(&join(components(""), &components("a"))), "a");
}

#[test]
fn path_beside_a_file() {
    assert_eq!(path_beside("/x/export.json", "a.txt"), "/x/a.txt");
    assert_eq!(path_beside("/x/export.json", "../y/a.txt"), "/x/../y/a.txt");
    assert_eq!(path_beside("export.json", "a.txt"), "a.txt");
    assert_eq!(path_beside("/x/export.json", "/abs/a.txt"), "/abs/a.txt");
}
