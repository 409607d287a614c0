use button::res::{Dir, File, FilePath, Res};

#[test]
fn file_test_normalized() {
    assert_eq!(File::new("./foo/..//bar/"), File::new("bar"));
}

#[test]
fn file_test_comparison() {
    assert_eq!(File::new("foobar/baz"), File::new("foobar/baz"));
    assert_ne!(File::new("doobar/baz"), File::new("foobar/baz"));

    assert!(File::new("abc") < File::new("abd"));
    assert!(File::new("abc") < File::new("abcd"));

    // Case insensitive comparison
    assert_eq!(File::new("foobar/baz"), File::new("FooBar/Baz"));
    assert_eq!(File::new("foobar/baz"), File::new(r"FooBar\Baz"));
    assert_ne!(File::new("foobar/baz"), File::new("FooBar/Bazz"));
    assert!(File::new("foobar/baz") < File::new("FooBar/Bazz"));
}

#[test]
fn filepath_test_normalized() {
    assert_eq!(FilePath::new("./foo/..//bar/"), FilePath::new("bar"));
}

#[test]
fn filepath_test_comparison() {
    assert_eq!(FilePath::new("foobar/baz"), FilePath::new("foobar/baz"));
    assert_ne!(FilePath::new("doobar/baz"), FilePath::new("foobar/baz"));

    assert!(FilePath::new("abc") < FilePath::new("abd"));
    assert!(FilePath::new("abc") < FilePath::new("abcd"));

    // Case insensitive comparison
    assert_eq!(FilePath::new("foobar/baz"), FilePath::new("FooBar/Baz"));
    assert_eq!(FilePath::new("foobar/baz"), FilePath::new(r"FooBar\Baz"));
    assert_ne!(FilePath::new("foobar/baz"), FilePath::new("FooBar/Bazz"));
    assert!(FilePath::new("foobar/baz") < FilePath::new("FooBar/Bazz"));
}

#[test]
fn normal_form_of_paths() {
    assert_eq!(FilePath::new("./foo/..//bar/").as_str(), "bar");
    assert_eq!(FilePath::new("/../a/./b/").as_str(), "/a/b");
    assert_eq!(FilePath::new("a/../../b").as_str(), "../b");
    assert_eq!(FilePath::new(r"a\b\..\c").as_str(), "a/c");
    assert_eq!(FilePath::new("").as_str(), "");
    assert_eq!(FilePath::new("/").as_str(), "/");
    assert_eq!(FilePath::new("FooBar/Baz").as_str(), "FooBar/Baz");
}

#[test]
fn path_order_is_case_insensitive() {
    assert_eq!(FilePath::new("ABC").compare(&FilePath::new("abc")), 0);
    assert_eq!(FilePath::new("abc").compare(&FilePath::new("abd")), -1);
    assert_eq!(FilePath::new("abd").compare(&FilePath::new("ABC")), 1);
    assert!(!(FilePath::new("b") < FilePath::new("A")));
}

#[test]
fn dir_keeps_its_path() {
    assert_eq!(Dir::new("./x/../y").as_str(), "./x/../y");
    assert_eq!(Dir::new("a"), Dir::new("a"));
    assert_ne!(Dir::new("a"), Dir::new("A"));
    // Directories compare by path components.
    assert_eq!(Dir::new("a//b/./"), Dir::new("a/b"));
    assert_ne!(Dir::new("./a"), Dir::new("a"));
    assert_ne!(Dir::new("a/../b"), Dir::new("b"));
    assert!(Dir::new("/z") < Dir::new("a"));
    assert!(Dir::new("a/b") < Dir::new("a-"));
    assert!(Dir::new("a") < Dir::new("a/b"));
}

#[test]
fn resources_compare_as_paths() {
    assert_eq!(Res::FilePath(FilePath::new("Foo")), Res::FilePath(FilePath::new("foo")));
    assert_ne!(Res::FilePath(FilePath::new("foo")), Res::FilePath(FilePath::new("bar")));
    assert_eq!(File::new("a/b").path(), &FilePath::new("A/B"));
}

#[test]
fn normalizing_twice_changes_nothing() {
    for text in ["./a/../b//c/", "/../x/./y/..", "../../up/./here", "", "/", "a\\b\\..\\c"] {
        let once = FilePath::new(text);
        let twice = FilePath::new(once.as_str());
        assert_eq!(once.as_str(), twice.as_str());
    }
    assert_eq!(FilePath::new("./a/../b//c/").as_str(), "b/c");
    assert_eq!(FilePath::new("/../x/./y/..").as_str(), "/x");
    assert_eq!(FilePath::new("../../up/./here").as_str(), "../../up/here");
}
