use dir_cursor::filter::FilterSpec;
use dir_cursor::path::{
    get_child_directories, get_child_files, next_directory, prev_directory, sort_by_path, DirEntry,
    EntryKind, Reading, WalkStep,
};

/*
 * The tree that the host pretends to read:
 * test_data/state/ +- a/ +- a/ +- a.txt
 *                  |     |     +- b.txt
 *                  |     |     +- c.txt
 *                  |     |
 *                  |     +- b/ +- a.txt
 *                  |     |     +- b.txt
 *                  |     |     +- c.txt
 *                  |     +- c/
 *                  |     +- d.txt
 *                  |
 *                  +- b/ +- a/ +- a.txt
 *                  |     |
 *                  |     +- b/ +- a.txt
 *                  |     |
 *                  |     +- c/
 *                  |
 *                  +- c/ +- a.txt
 *                        +- b.txt
 *                        +- c.txt
 */
fn entries(dir: &str, directories: &[&str], files: &[&str]) -> Reading {
    let mut found = Vec::new();
    // Files first and names backward: the library has to do the sorting.
    for name in files.iter().rev() {
        found.push(DirEntry { path: format!("{}/{}", dir, name), kind: EntryKind::File });
    }
    for name in directories.iter().rev() {
        found.push(DirEntry { path: format!("{}/{}", dir, name), kind: EntryKind::Directory });
    }
    Ok(found)
}

fn read(dir: &str) -> Reading {
    match dir {
        "test_data" => entries(dir, &["state"], &[]),
        "test_data/state" => entries(dir, &["a", "b", "c"], &[]),
        "test_data/state/a" => entries(dir, &["a", "b", "c"], &["d.txt"]),
        "test_data/state/a/a" => entries(dir, &[], &["a.txt", "b.txt", "c.txt"]),
        "test_data/state/a/b" => entries(dir, &[], &["a.txt", "b.txt", "c.txt"]),
        "test_data/state/a/c" => entries(dir, &[], &[]),
        "test_data/state/b" => entries(dir, &["a", "b", "c"], &[]),
        "test_data/state/b/a" => entries(dir, &[], &["a.txt"]),
        "test_data/state/b/b" => entries(dir, &[], &["a.txt"]),
        "test_data/state/b/c" => entries(dir, &[], &[]),
        "test_data/state/c" => entries(dir, &[], &["a.txt", "b.txt", "c.txt"]),
        _ => Err(format!("{}: no such directory", dir)),
    }
}

fn walk(mut step: WalkStep) -> Option<String> {
    loop {
        match step {
            WalkStep::Ask(walk) => {
                let reading = read(walk.target());
                step = walk.resume(&reading);
            }
            WalkStep::Found(dir) => return Some(dir),
            WalkStep::Exhausted => return None,
        }
    }
}

fn txt() -> FilterSpec {
    FilterSpec::Extensions(vec![String::from("txt")])
}

#[test]
fn test_get_child_files() {
    let extensions = txt();

    let parent1 = read("test_data/state/a/a");
    assert!(parent1.is_ok());
    let actual1 = get_child_files(&parent1.unwrap(), &extensions);
    assert_eq!(
        actual1,
        vec![
            "test_data/state/a/a/a.txt".to_string(),
            "test_data/state/a/a/b.txt".to_string(),
            "test_data/state/a/a/c.txt".to_string(),
        ]
    );

    let parent2 = read("test_data/state/a");
    assert!(parent2.is_ok());
    let actual2 = get_child_files(&parent2.unwrap(), &extensions);
    assert_eq!(actual2, vec!["test_data/state/a/d.txt".to_string()]);

    let parent3 = read("test_data/state/a/c");
    assert!(parent3.is_ok());
    let actual3 = get_child_files(&parent3.unwrap(), &extensions);
    let expected3: Vec<String> = vec![];
    assert_eq!(actual3, expected3);
}

#[test]
fn test_get_directories() {
    let parent1 = read("test_data/state");
    assert!(parent1.is_ok());
    let actual1 = get_child_directories(&parent1.unwrap());
    assert_eq!(
        actual1,
        vec![
            "test_data/state/a".to_string(),
            "test_data/state/b".to_string(),
            "test_data/state/c".to_string(),
        ]
    );

    let parent2 = read("test_data/state/a/c");
    assert!(parent2.is_ok());
    let actual2 = get_child_directories(&parent2.unwrap());
    let expected2: Vec<String> = vec![];
    assert_eq!(actual2, expected2);
}

#[test]
fn test_next_directory() {
    let path1 = "test_data/state/a";
    let expected1 = "test_data/state/a/a";
    let actual1 = walk(next_directory(path1));
    assert!(actual1.is_some());
    assert_eq!(actual1.unwrap(), expected1);

    let path2 = "test_data/state/a/b";
    let expected2 = "test_data/state/a/c";
    let actual2 = walk(next_directory(path2));
    assert!(actual2.is_some());
    assert_eq!(actual2.unwrap(), expected2);

    let path3 = "test_data/state/a/c";
    let expected3 = "test_data/state/b";
    let actual3 = walk(next_directory(path3));
    assert!(actual3.is_some());
    assert_eq!(actual3.unwrap(), expected3);
}

#[test]
fn test_prev_directory() {
    let path1 = "test_data/state/a/a";
    let expected1 = "test_data/state/a";
    let actual1 = walk(prev_directory(path1));
    assert!(actual1.is_some());
    assert_eq!(actual1.unwrap(), expected1);

    let path2 = "test_data/state/a/c";
    let expected2 = "test_data/state/a/b";
    let actual2 = walk(prev_directory(path2));
    assert!(actual2.is_some());
    assert_eq!(actual2.unwrap(), expected2);

    let path3 = "test_data/state/b";
    let expected3 = "test_data/state/a/c";
    let actual3 = walk(prev_directory(path3));
    assert!(actual3.is_some());
    assert_eq!(actual3.unwrap(), expected3);
}

#[test]
fn next_directory_asks_for_the_directory_itself_first() {
    match next_directory("test_data/state/b") {
        WalkStep::Ask(walk) => assert_eq!(walk.target(), "test_data/state/b"),
        other => panic!("unexpected step {:?}", other),
    }
}

#[test]
fn prev_directory_asks_for_the_directory_above_first() {
    match prev_directory("test_data/state/b") {
        WalkStep::Ask(walk) => assert_eq!(walk.target(), "test_data/state"),
        other => panic!("unexpected step {:?}", other),
    }
}

#[test]
fn next_directory_ends_after_the_last_directory() {
    assert_eq!(walk(next_directory("test_data/state/c")), None);
    assert_eq!(walk(next_directory("test_data/state/b/c")), Some("test_data/state/c".to_string()));
}

#[test]
fn prev_directory_of_a_first_child_is_the_directory_above() {
    assert_eq!(walk(prev_directory("test_data/state/a")), Some("test_data/state".to_string()));
    assert_eq!(walk(prev_directory("test_data/state")), Some("test_data".to_string()));
}

#[test]
fn prev_directory_ends_where_nothing_lies_above() {
    assert_eq!(walk(prev_directory("")), None);
    assert_eq!(walk(prev_directory("/")), None);
    // The directory above a bare name is the empty path, which cannot be read.
    assert_eq!(walk(prev_directory("test_data")), None);
}

#[test]
fn prev_directory_goes_down_into_the_last_subdirectories() {
    assert_eq!(walk(prev_directory("test_data/state/c")), Some("test_data/state/b/c".to_string()));
}

#[test]
fn prev_directory_undoes_next_directory_over_the_whole_tree() {
    let mut dir = "test_data/state".to_string();
    let mut visited = vec![dir.clone()];
    while let Some(next) = walk(next_directory(&dir)) {
        assert_eq!(walk(prev_directory(&next)), Some(dir.clone()));
        dir = next;
        visited.push(dir.clone());
    }
    assert_eq!(
        visited,
        vec![
            "test_data/state",
            "test_data/state/a",
            "test_data/state/a/a",
            "test_data/state/a/b",
            "test_data/state/a/c",
            "test_data/state/b",
            "test_data/state/b/a",
            "test_data/state/b/b",
            "test_data/state/b/c",
            "test_data/state/c",
        ]
    );
}

#[test]
fn a_directory_that_cannot_be_read_is_passed_over_on_the_way_up() {
    // "elsewhere/x" has no subdirectories to show and nothing above it can be read.
    assert_eq!(walk(next_directory("elsewhere/x")), None);
}

#[test]
fn sort_by_path_orders_by_characters() {
    let sorted = sort_by_path(vec![
        "p/b".to_string(),
        "p/a/z".to_string(),
        "p/a.b".to_string(),
        "p/a".to_string(),
        "p/B".to_string(),
        "p/a".to_string(),
    ]);
    assert_eq!(sorted, vec!["p/B", "p/a", "p/a", "p/a.b", "p/a/z", "p/b"]);
}

#[test]
fn listing_keeps_only_what_is_asked_for() {
    let found = vec![
        DirEntry { path: "d/x.txt".to_string(), kind: EntryKind::Directory },
        DirEntry { path: "d/b.TXT".to_string(), kind: EntryKind::File },
        DirEntry { path: "d/link.txt".to_string(), kind: EntryKind::Other },
        DirEntry { path: "d/a.txt".to_string(), kind: EntryKind::File },
        DirEntry { path: "d/c.png".to_string(), kind: EntryKind::File },
    ];
    assert_eq!(get_child_files(&found, &txt()), vec!["d/a.txt", "d/b.TXT"]);
    assert_eq!(get_child_directories(&found), vec!["d/x.txt"]);
    assert_eq!(
        get_child_files(&found, &FilterSpec::Glob("*".to_string())),
        vec!["d/a.txt", "d/b.TXT", "d/c.png"]
    );
}
