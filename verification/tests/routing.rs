use path_router::Tree;

#[test]
fn can_add_and_find() {
    let mut routes = Tree::new();
    routes.add("/", 0).unwrap();
    routes.add("/var", 1).unwrap();
    routes.add("/var/www", 11).unwrap();
    routes.add("/var/log", 12).unwrap();
    assert_eq!(routes.find("/vax"), None);
    assert_eq!(routes.find("/var/something"), None);
    assert_eq!(routes.find("////"), Some((&0, vec![])));
    assert_eq!(routes.find("//var//"), Some((&1, vec![])));
    assert_eq!(routes.find("/var/www/"), Some((&11, vec![])));
    assert_eq!(routes.find("/var/log/"), Some((&12, vec![])));
}

#[test]
fn can_add_and_capture_and_find() {
    let mut routes = Tree::new();
    routes.add("/user/:username", 11).unwrap();
    routes.add("/user/:username/:intent/show", 111).unwrap();
    routes.add("/user/:username/profile", 112).unwrap();
    assert_eq!(routes.find("/user/myname/delete"), None);
    assert_eq!(routes.find("/user/myname/cook/throw"), None);
    assert_eq!(
        routes.find("/user/myname"),
        Some((&11, vec![("username", String::from("myname"))]))
    );
    assert_eq!(
        routes.find("/user/myname/profile"),
        Some((&112, vec![("username", String::from("myname"))]))
    );
    assert_eq!(
        routes.find("/user/myname/cook/show"),
        Some((
            &111,
            vec![
                ("username", String::from("myname")),
                ("intent", String::from("cook"))
            ]
        ))
    );
}

#[test]
fn can_add_and_capture_and_find_handlers() {
    let mut routes = Tree::new();
    let handler = |captured: Vec<(&str, String)>| {
        assert_eq!(captured.len(), 2);
        assert_eq!(captured[0].0, "folder");
        assert_eq!(captured[0].1, "myfolder");
        assert_eq!(captured[1].0, "file");
        assert_eq!(captured[1].1, "myfile");
    };
    routes.add("home/:folder/:file", handler).unwrap();
    match routes.find("/home/myfolder/myfile") {
        None => assert!(false),
        Some((fx, captured)) => fx(captured),
    }
}
