use init_task::paths::{is_absolute_path, resolve_absolute};

#[test]
fn absolute_paths_are_recognized() {
    assert!(is_absolute_path("/usr/local"));
    assert!(is_absolute_path("\\share"));
    assert!(is_absolute_path("C:\\Users\\someone"));
    assert!(is_absolute_path("c:/data"));
    assert!(!is_absolute_path("relative/path"));
    assert!(!is_absolute_path(""));
    assert!(!is_absolute_path("7:/odd"));
}

#[test]
fn absolute_paths_are_cleaned_in_place() {
    let r = resolve_absolute(&"/a/./b/../c".to_string(), &"/ignored".to_string());
    assert_eq!(r, "/a/c");
}

#[test]
fn relative_paths_join_the_working_directory() {
    let r = resolve_absolute(&"sub/task".to_string(), &"/home/user".to_string());
    assert_eq!(r, "/home/user/sub/task");
}

#[test]
fn parent_steps_resolve_against_the_joined_path() {
    let r = resolve_absolute(&"x/../y".to_string(), &"/base".to_string());
    assert_eq!(r, "/base/y");
}
