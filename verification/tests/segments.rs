use path_router::segments::split_segments;

#[test]
fn splits_on_slashes() {
    assert_eq!(split_segments("var/www"), vec!["var", "www"]);
    assert_eq!(split_segments("GET/user/:username/profile"), vec![
        "GET",
        "user",
        ":username",
        "profile"
    ]);
}

#[test]
fn drops_empty_pieces() {
    assert_eq!(split_segments("/var//www/"), vec!["var", "www"]);
    assert_eq!(split_segments("////var/www"), vec!["var", "www"]);
    assert_eq!(split_segments("//var//"), vec!["var"]);
    assert_eq!(split_segments("a///b////c"), vec!["a", "b", "c"]);
}

#[test]
fn nothing_but_slashes_has_no_segment() {
    let none: Vec<&str> = vec![];
    assert_eq!(split_segments(""), none);
    assert_eq!(split_segments("/"), none);
    assert_eq!(split_segments("////"), none);
}

#[test]
fn a_path_without_slash_is_one_segment() {
    assert_eq!(split_segments("var"), vec!["var"]);
    assert_eq!(split_segments(":name"), vec![":name"]);
    assert_eq!(split_segments(":"), vec![":"]);
}

#[test]
fn segments_are_slices_of_the_path() {
    let path = String::from("/héllo/wörld/日本語/");
    let segments = split_segments(&path);
    assert_eq!(segments, vec!["héllo", "wörld", "日本語"]);
    assert_eq!(segments[0].as_ptr(), path[1..].as_ptr());
}

#[test]
fn only_the_slash_separates() {
    assert_eq!(split_segments("a b/c\\d/e?f=g#h"), vec!["a b", "c\\d", "e?f=g#h"]);
    assert_eq!(split_segments("a/./../b"), vec!["a", ".", "..", "b"]);
    assert_eq!(split_segments("%2F/a"), vec!["%2F", "a"]);
}

#[test]
fn single_slashes_give_the_same_segments_as_repeated_ones() {
    let spellings = vec![
        "user/myname/profile",
        "/user/myname/profile",
        "user/myname/profile/",
        "//user///myname////profile//",
        "/user//myname/profile",
    ];
    for spelling in spellings {
        assert_eq!(split_segments(spelling), vec!["user", "myname", "profile"]);
    }
}
