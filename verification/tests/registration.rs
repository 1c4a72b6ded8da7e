use path_router::{DuplicateRoute, Tree};

#[test]
fn new_tree_matches_nothing() {
    let routes: Tree<u32> = Tree::new();
    assert_eq!(routes.find(""), None);
    assert_eq!(routes.find("/"), None);
    assert_eq!(routes.find("/var"), None);
}

#[test]
fn registration_succeeds_once() {
    let mut routes = Tree::new();
    assert_eq!(routes.add("/var/www", 1), Ok(()));
    assert_eq!(routes.add("/var/www", 2), Err(DuplicateRoute));
}

#[test]
fn duplicate_leaves_the_tree_as_it_was() {
    let mut routes = Tree::new();
    routes.add("/user/:username", 1).unwrap();
    assert_eq!(routes.add("/user/:username", 2), Err(DuplicateRoute));
    assert_eq!(
        routes.find("/user/myname"),
        Some((&1, vec![("username", String::from("myname"))]))
    );
    assert_eq!(routes.add("/user/:username/profile", 3), Ok(()));
    assert_eq!(
        routes.find("/user/myname/profile"),
        Some((&3, vec![("username", String::from("myname"))]))
    );
}

#[test]
fn duplicate_under_another_spelling() {
    let mut routes = Tree::new();
    routes.add("/var/www", 1).unwrap();
    assert_eq!(routes.add("var/www", 2), Err(DuplicateRoute));
    assert_eq!(routes.add("//var///www//", 3), Err(DuplicateRoute));
    assert_eq!(routes.find("/var/www"), Some((&1, vec![])));
}

#[test]
fn duplicate_root() {
    let mut routes = Tree::new();
    assert_eq!(routes.add("/", 0), Ok(()));
    assert_eq!(routes.add("", 1), Err(DuplicateRoute));
    assert_eq!(routes.add("///", 2), Err(DuplicateRoute));
    assert_eq!(routes.find(""), Some((&0, vec![])));
}

#[test]
fn captures_at_one_place_share_the_node_whatever_their_names() {
    let mut routes = Tree::new();
    routes.add("/user/:username", 1).unwrap();
    assert_eq!(routes.add("/user/:id", 2), Err(DuplicateRoute));
    assert_eq!(
        routes.find("/user/myname"),
        Some((&1, vec![("username", String::from("myname"))]))
    );
}

#[test]
fn each_route_keeps_its_own_names() {
    let mut routes = Tree::new();
    routes.add("/:a/x", 1).unwrap();
    routes.add("/:b/y", 2).unwrap();
    assert_eq!(routes.find("/1/x"), Some((&1, vec![("a", String::from("1"))])));
    assert_eq!(routes.find("/1/y"), Some((&2, vec![("b", String::from("1"))])));
    assert_eq!(routes.find("/1/z"), None);
}

#[test]
fn prefix_of_a_route_is_no_route() {
    let mut routes = Tree::new();
    routes.add("/var/www/html", 1).unwrap();
    assert_eq!(routes.find("/var"), None);
    assert_eq!(routes.find("/var/www"), None);
    assert_eq!(routes.add("/var/www", 2), Ok(()));
    assert_eq!(routes.add("/var", 3), Ok(()));
    assert_eq!(routes.find("/var"), Some((&3, vec![])));
    assert_eq!(routes.find("/var/www"), Some((&2, vec![])));
    assert_eq!(routes.find("/var/www/html"), Some((&1, vec![])));
}

#[test]
fn later_registrations_keep_earlier_routes() {
    let mut routes = Tree::new();
    routes.add("/a", 1).unwrap();
    routes.add("/a/b", 2).unwrap();
    routes.add("/c", 3).unwrap();
    routes.add("/:x/d", 4).unwrap();
    assert_eq!(routes.find("/a"), Some((&1, vec![])));
    assert_eq!(routes.find("/a/b"), Some((&2, vec![])));
    assert_eq!(routes.find("/c"), Some((&3, vec![])));
    assert_eq!(routes.find("/a/d"), Some((&4, vec![("x", String::from("a"))])));
}

#[test]
fn capture_with_an_empty_name() {
    let mut routes = Tree::new();
    routes.add("/:", 1).unwrap();
    assert_eq!(routes.find("/x"), Some((&1, vec![("", String::from("x"))])));
}

#[test]
fn colon_inside_a_segment_is_literal() {
    let mut routes = Tree::new();
    routes.add("/a:b", 1).unwrap();
    assert_eq!(routes.find("/a:b"), Some((&1, vec![])));
    assert_eq!(routes.find("/a"), None);
}

#[test]
fn payload_need_not_be_comparable() {
    let mut routes = Tree::new();
    routes.add("/hello/:name", |name: &str| format!("hello, {}", name)).unwrap();
    match routes.find("hello/world") {
        Some((greet, captures)) => {
            assert_eq!(captures.len(), 1);
            assert_eq!(captures[0].0, "name");
            assert_eq!(greet(&captures[0].1), "hello, world");
        }
        None => panic!("no match"),
    }
}
