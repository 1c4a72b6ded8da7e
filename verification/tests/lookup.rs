use path_router::Tree;

fn user_routes() -> Tree<'static, u32> {
    let mut routes = Tree::new();
    routes.add("/user/:username", 11).unwrap();
    routes.add("/user/:username/:intent/show", 111).unwrap();
    routes.add("/user/:username/profile", 112).unwrap();
    routes
}

#[test]
fn exact_literal_match_has_no_captures() {
    let mut routes = Tree::new();
    routes.add("/var/www", 11).unwrap();
    routes.add("/var/:dir", 12).unwrap();
    assert_eq!(routes.find("/var/www"), Some((&11, vec![])));
}

#[test]
fn repeated_slashes_do_not_change_the_lookup() {
    let routes = user_routes();
    let expected = Some((&112, vec![("username", String::from("myname"))]));
    assert_eq!(routes.find("/user/myname/profile"), expected);
    assert_eq!(routes.find("user/myname/profile"), expected);
    assert_eq!(routes.find("//user///myname//profile///"), expected);
}

#[test]
fn root_is_found_by_any_run_of_slashes() {
    let mut routes = Tree::new();
    routes.add("/", 0).unwrap();
    assert_eq!(routes.find("/"), Some((&0, vec![])));
    assert_eq!(routes.find("////"), routes.find("/"));
    assert_eq!(routes.find(""), routes.find("/"));
}

#[test]
fn captures_come_in_the_order_of_the_pattern() {
    let routes = user_routes();
    assert_eq!(
        routes.find("/user/myname/cook/show"),
        Some((
            &111,
            vec![
                ("username", String::from("myname")),
                ("intent", String::from("cook"))
            ]
        ))
    );
}

#[test]
fn captured_value_is_the_text_of_the_segment() {
    let routes = user_routes();
    assert_eq!(
        routes.find("/user/my%20name"),
        Some((&11, vec![("username", String::from("my%20name"))]))
    );
    assert_eq!(
        routes.find("/user/:username"),
        Some((&11, vec![("username", String::from(":username"))]))
    );
    assert_eq!(
        routes.find("/user/名前"),
        Some((&11, vec![("username", String::from("名前"))]))
    );
}

#[test]
fn unmatched_literal_is_no_match() {
    let mut routes = Tree::new();
    routes.add("/user/:username/profile", 1).unwrap();
    assert_eq!(routes.find("/user/myname/delete"), None);
    assert_eq!(routes.find("/users/myname/profile"), None);
}

#[test]
fn unmatched_depth_is_no_match() {
    let mut routes = Tree::new();
    routes.add("/user/:username/profile", 1).unwrap();
    assert_eq!(routes.find("/user/myname"), None);
    assert_eq!(routes.find("/user"), None);
    assert_eq!(routes.find("/"), None);
    assert_eq!(routes.find("/user/myname/profile/more"), None);
}

#[test]
fn labels_are_compared_character_by_character() {
    let mut routes = Tree::new();
    routes.add("/café", 1).unwrap();
    routes.add("/cafe", 2).unwrap();
    assert_eq!(routes.find("/café"), Some((&1, vec![])));
    assert_eq!(routes.find("/cafe"), Some((&2, vec![])));
    assert_eq!(routes.find("/caf"), None);
    assert_eq!(routes.find("/Cafe"), None);
}

#[test]
fn profile_is_not_taken_for_an_intent() {
    let routes = user_routes();
    assert_eq!(
        routes.find("/user/myname/profile"),
        Some((&112, vec![("username", String::from("myname"))]))
    );
}

#[test]
fn literal_created_first_is_preferred() {
    let mut routes = Tree::new();
    routes.add("/b", 2).unwrap();
    routes.add("/:a", 1).unwrap();
    assert_eq!(routes.find("/b"), Some((&2, vec![])));
    assert_eq!(routes.find("/c"), Some((&1, vec![("a", String::from("c"))])));
}

#[test]
fn children_are_tried_in_the_order_of_their_creation() {
    let mut routes = Tree::new();
    routes.add("/:a", 1).unwrap();
    routes.add("/b", 2).unwrap();
    assert_eq!(routes.find("/b"), Some((&1, vec![("a", String::from("b"))])));
    assert_eq!(routes.find("/c"), Some((&1, vec![("a", String::from("c"))])));
}

#[test]
fn falls_back_to_the_wildcard_when_the_literal_branch_fails() {
    let mut routes = Tree::new();
    routes.add("/a/b", 1).unwrap();
    routes.add("/:x/c", 2).unwrap();
    assert_eq!(routes.find("/a/b"), Some((&1, vec![])));
    assert_eq!(routes.find("/a/c"), Some((&2, vec![("x", String::from("a"))])));
    assert_eq!(routes.find("/a/d"), None);
}

#[test]
fn falls_back_to_the_literal_when_the_wildcard_branch_fails() {
    let mut routes = Tree::new();
    routes.add("/:x/c", 2).unwrap();
    routes.add("/a/b", 1).unwrap();
    assert_eq!(routes.find("/a/b"), Some((&1, vec![])));
    assert_eq!(routes.find("/a/c"), Some((&2, vec![("x", String::from("a"))])));
}

#[test]
fn abandoned_branch_leaves_no_capture_behind() {
    let mut routes = Tree::new();
    routes.add("/:a/:b/x", 1).unwrap();
    routes.add("/:a/k/:c/y", 2).unwrap();
    routes.add("/s/:d/z", 3).unwrap();
    assert_eq!(
        routes.find("/s/k/x"),
        Some((&1, vec![("a", String::from("s")), ("b", String::from("k"))]))
    );
    assert_eq!(
        routes.find("/s/k/z"),
        Some((&3, vec![("d", String::from("k"))]))
    );
    assert_eq!(
        routes.find("/s/k/t/y"),
        Some((&2, vec![("a", String::from("s")), ("c", String::from("t"))]))
    );
    assert_eq!(routes.find("/s/k/t/z"), None);
}

#[test]
fn lookup_does_not_change_the_tree() {
    let routes = user_routes();
    let first = routes.find("/user/myname/cook/show");
    assert_eq!(routes.find("/user/myname/cook/throw"), None);
    assert_eq!(routes.find("/user/myname/cook/show"), first);
}

#[test]
fn name_slices_live_as_long_as_the_pattern() {
    let pattern = String::from("/user/:username");
    let mut routes = Tree::new();
    routes.add(&pattern, 1).unwrap();
    let name = {
        let path = String::from("/user/myname");
        let (_, captures) = routes.find(&path).unwrap();
        captures[0].0
    };
    assert_eq!(name, "username");
}

#[test]
fn a_later_route_through_an_earlier_branch_is_tried_first() {
    let mut routes = Tree::new();
    routes.add("/:a/x", 1).unwrap();
    routes.add("/b/z", 2).unwrap();
    assert_eq!(routes.find("/b/z"), Some((&2, vec![])));
    routes.add("/:c/z", 3).unwrap();
    assert_eq!(routes.find("/b/z"), Some((&3, vec![("c", String::from("b"))])));
    assert_eq!(routes.find("/b/x"), Some((&1, vec![("a", String::from("b"))])));
}

#[test]
fn registration_leaves_lookups_of_other_paths_alone() {
    let mut routes = Tree::new();
    routes.add("/user/:username", 1).unwrap();
    let before = routes.find("/user/myname").map(|(payload, captures)| (*payload, captures));
    routes.add("/user/:username/profile", 2).unwrap();
    routes.add("/group/:name", 3).unwrap();
    let after = routes.find("/user/myname").map(|(payload, captures)| (*payload, captures));
    assert_eq!(before, after);
    assert_eq!(after, Some((1, vec![("username", String::from("myname"))])));
}
