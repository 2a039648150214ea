use dir_cursor::filter::FilterSpec;
use dir_cursor::path::{next_directory, prev_directory, DirEntry, EntryKind, Reading, WalkStep};
use dir_cursor::state::{NavError, Step, ViewerState};
use dir_cursor::utils::{get_next_image, get_prev_image, resume_image, Fetch, Reply};

/*
 * The tree that the host pretends to read:
 * /r/ +- a/ +- x/ +- f.txt
 *     |
 *     +- a-b/ +- g.txt
 *     |
 *     +- b/ +- h.txt
 *
 * As strings, `/r/a-b` sorts before `/r/a/x`, which lies in the directory
 * before it: a `-` is less than a `/`.
 */
fn shown(dir: &str, directories: &[&str], files: &[&str]) -> Reading {
    let mut found = Vec::new();
    for name in files.iter().rev() {
        found.push(DirEntry { path: format!("{}/{}", dir, name), kind: EntryKind::File });
    }
    for name in directories.iter().rev() {
        found.push(DirEntry { path: format!("{}/{}", dir, name), kind: EntryKind::Directory });
    }
    Ok(found)
}

fn host(dir: &str) -> Reading {
    match dir {
        "/r" => shown(dir, &["a", "a-b", "b"], &[]),
        "/r/a" => shown(dir, &["x"], &[]),
        "/r/a/x" => shown(dir, &[], &["f.txt"]),
        "/r/a-b" => shown(dir, &[], &["g.txt"]),
        "/r/b" => shown(dir, &[], &["h.txt"]),
        _ => Err(format!("{}: no such directory", dir)),
    }
}

fn walk_on(mut step: WalkStep) -> Option<String> {
    loop {
        match step {
            WalkStep::Ask(walk) => {
                let reading = host(walk.target());
                step = walk.resume(&reading);
            }
            WalkStep::Found(dir) => return Some(dir),
            WalkStep::Exhausted => return None,
        }
    }
}

fn finish(state: &mut ViewerState, mut step: Step) -> Result<(), NavError> {
    loop {
        match step {
            Step::Read(dir) => step = state.resume(host(&dir)),
            Step::Done(result) => return result,
        }
    }
}

fn serve(state: &mut ViewerState, forward: bool, mut fetch: Fetch) -> Result<String, NavError> {
    loop {
        let reply = match fetch {
            Fetch::Read(dir) => Reply::Entries(host(&dir)),
            Fetch::Render(file) => Reply::Image(Ok(format!("image of {}", file))),
            Fetch::Done(result) => return result,
        };
        fetch = resume_image(state, forward, reply);
    }
}

fn opened(filename: &str) -> ViewerState {
    let mut state = ViewerState::new(filename, FilterSpec::Extensions(vec!["txt".to_string()]));
    let step = state.reload_files();
    assert_eq!(finish(&mut state, step), Ok(()));
    state
}

#[test]
fn a_climbing_walk_looks_behind_the_directory_it_climbed_from() {
    assert_eq!(walk_on(next_directory("/r/a/x")), Some("/r/a-b".to_string()));
    assert_eq!(walk_on(next_directory("/r/a-b")), Some("/r/b".to_string()));
    assert_eq!(walk_on(next_directory("/r/b")), None);
}

#[test]
fn a_climbing_walk_finds_the_last_directory_of_a_small_tree() {
    // root/ +- a/ +- x/
    //       +- a-b/
    let small = |dir: &str| match dir {
        "root" => shown(dir, &["a", "a-b"], &[]),
        "root/a" => shown(dir, &["x"], &[]),
        "root/a/x" => shown(dir, &[], &[]),
        "root/a-b" => shown(dir, &[], &[]),
        _ => Err(format!("{}: no such directory", dir)),
    };
    let mut step = next_directory("root/a/x");
    let mut asked = Vec::new();
    let found = loop {
        match step {
            WalkStep::Ask(walk) => {
                asked.push(walk.target().clone());
                let reading = small(walk.target().as_str());
                step = walk.resume(&reading);
            }
            WalkStep::Found(dir) => break Some(dir),
            WalkStep::Exhausted => break None,
        }
    };
    assert_eq!(asked, vec!["root/a/x", "root/a", "root"]);
    assert_eq!(found, Some("root/a-b".to_string()));
}

#[test]
fn the_walk_forward_follows_the_tree_and_not_the_order_of_all_paths() {
    let mut dir = "/r".to_string();
    let mut visited = vec![dir.clone()];
    while let Some(next) = walk_on(next_directory(&dir)) {
        dir = next;
        visited.push(dir.clone());
    }
    assert_eq!(visited, vec!["/r", "/r/a", "/r/a/x", "/r/a-b", "/r/b"]);
}

#[test]
fn the_walk_backward_follows_the_tree_too() {
    let mut dir = "/r/b".to_string();
    let mut visited = vec![dir.clone()];
    while let Some(before) = walk_on(prev_directory(&dir)) {
        dir = before;
        visited.push(dir.clone());
    }
    assert_eq!(visited, vec!["/r/b", "/r/a-b", "/r/a/x", "/r/a", "/r"]);
}

#[test]
fn each_walk_undoes_the_other_where_a_name_sorts_between() {
    for dir in ["/r", "/r/a", "/r/a/x", "/r/a-b"] {
        let next = walk_on(next_directory(dir)).unwrap();
        assert_eq!(walk_on(prev_directory(&next)), Some(dir.to_string()));
    }
    for dir in ["/r/a", "/r/a/x", "/r/a-b", "/r/b"] {
        let before = walk_on(prev_directory(dir)).unwrap();
        assert_eq!(walk_on(next_directory(&before)), Some(dir.to_string()));
    }
}

#[test]
fn the_cursor_goes_over_every_file_where_a_name_sorts_between() {
    let mut state = opened("/r/a/x/f.txt");
    let step = state.next_cursor();
    assert_eq!(finish(&mut state, step), Ok(()));
    assert_eq!(state.get(), Ok("/r/a-b/g.txt".to_string()));
    let step = state.prev_cursor();
    assert_eq!(finish(&mut state, step), Ok(()));
    assert_eq!(state.get(), Ok("/r/a/x/f.txt".to_string()));
    let step = state.move_by(2);
    assert_eq!(finish(&mut state, step), Ok(()));
    assert_eq!(state.get(), Ok("/r/b/h.txt".to_string()));
    let step = state.next_cursor();
    assert_eq!(finish(&mut state, step), Err(NavError::OutOfRange));
    assert_eq!(state.get(), Ok("/r/b/h.txt".to_string()));
    let step = state.move_by(-2);
    assert_eq!(finish(&mut state, step), Ok(()));
    assert_eq!(state.get(), Ok("/r/a/x/f.txt".to_string()));
    let step = state.prev_cursor();
    assert_eq!(finish(&mut state, step), Err(NavError::OutOfRange));
    assert_eq!(state.get(), Ok("/r/a/x/f.txt".to_string()));
}

#[test]
fn jumps_go_to_the_next_directory_of_the_tree() {
    let mut state = opened("/r/a/x/f.txt");
    let step = state.next_directory();
    assert_eq!(finish(&mut state, step), Ok(()));
    assert_eq!(state.get(), Ok("/r/a-b/g.txt".to_string()));
    assert_eq!(state.cursor(), 0);
    let step = state.next_directory();
    assert_eq!(finish(&mut state, step), Ok(()));
    assert_eq!(state.get(), Ok("/r/b/h.txt".to_string()));
    let step = state.prev_directory();
    assert_eq!(finish(&mut state, step), Ok(()));
    assert_eq!(state.get(), Ok("/r/a-b/g.txt".to_string()));
    let step = state.prev_directory();
    assert_eq!(finish(&mut state, step), Ok(()));
    assert_eq!(state.get(), Ok("/r/a/x/f.txt".to_string()));
}

#[test]
fn fetches_go_over_every_file_where_a_name_sorts_between() {
    let mut state = opened("/r/a/x/f.txt");
    let fetch = get_next_image(&mut state, 1);
    assert_eq!(serve(&mut state, true, fetch), Ok("image of /r/a-b/g.txt".to_string()));
    let fetch = get_next_image(&mut state, 1);
    assert_eq!(serve(&mut state, true, fetch), Ok("image of /r/b/h.txt".to_string()));
    let fetch = get_prev_image(&mut state, -1);
    assert_eq!(serve(&mut state, false, fetch), Ok("image of /r/a-b/g.txt".to_string()));
    let fetch = get_prev_image(&mut state, -1);
    assert_eq!(serve(&mut state, false, fetch), Ok("image of /r/a/x/f.txt".to_string()));
}
