use nepak::{normalize_rel_path, prefixed, should_exclude, PakError};

fn parts(s: &[&str]) -> Vec<String> {
    s.iter().map(|x| x.to_string()).collect()
}

#[test]
fn relative_path_joined_with_slashes() {
    let r = normalize_rel_path(&parts(&["/", "data"]), &parts(&["/", "data", "a", "b.txt"]));
    assert_eq!(r, Ok("a/b.txt".to_string()));
}

#[test]
fn relative_path_maps_backslashes() {
    let r = normalize_rel_path(&parts(&["root"]), &parts(&["root", "dir\\sub", "f"]));
    assert_eq!(r, Ok("dir/sub/f".to_string()));
}

#[test]
fn relative_path_outside_root() {
    let r = normalize_rel_path(&parts(&["root"]), &parts(&["other", "f"]));
    assert_eq!(r, Err(PakError::Outside("other/f".to_string())));
}

#[test]
fn relative_path_of_root_itself() {
    let r = normalize_rel_path(&parts(&["root"]), &parts(&["root"]));
    assert_eq!(r, Err(PakError::Invalid("empty relative path".to_string())));
}

#[test]
fn prefix_rules() {
    assert_eq!(prefixed("", "a/b"), "a/b");
    assert_eq!(prefixed("assets", "x/y"), "assets/x/y");
    assert_eq!(prefixed("assets/", "x"), "assets/x");
    assert_eq!(prefixed("game\\data", "/x"), "game/data/x");
    assert_eq!(prefixed("p", "//x"), "p/x");
}

#[test]
fn exclude_by_substring() {
    let ex = vec![".git".to_string(), "target".to_string()];
    assert!(should_exclude("src/.git/HEAD", &ex));
    assert!(should_exclude("target", &ex));
    assert!(!should_exclude("src/main.rs", &ex));
    assert!(!should_exclude("src/.gi", &ex));
}

#[test]
fn empty_exclude_ignored() {
    let ex = vec!["".to_string()];
    assert!(!should_exclude("anything", &ex));
    assert!(!should_exclude("", &ex));
    assert!(!should_exclude("x", &vec![]));
}

#[test]
fn non_ascii_paths() {
    let ex = vec!["\u{e9}t\u{e9}".to_string()];
    assert!(should_exclude("r\u{e9}sum\u{e9}/\u{e9}t\u{e9}.txt", &ex));
    assert_eq!(prefixed("\u{e9}", "a"), "\u{e9}/a");
}

#[test]
fn outside_rooted_path_message() {
    let r = normalize_rel_path(&parts(&["/", "data"]), &parts(&["/", "a", "b"]));
    assert_eq!(r, Err(PakError::Outside("/a/b".to_string())));
}
