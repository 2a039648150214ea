use dir_cursor::filter::FilterSpec;
use dir_cursor::path::{DirEntry, EntryKind, Reading};
use dir_cursor::state::{NavError, Step, ViewerState};
use dir_cursor::utils::{
    get_next_image, get_prev_image, move_image_offset, resume_image, Fetch, Reply,
};

/*
 * The tree that the host pretends to read, below `root`:
 * root/ +- a/ +- a/ +- a
 *       |     |     +- b
 *       |     |     +- c
 *       |     |
 *       |     +- b/ +- a
 *       |     |     +- b
 *       |     |     +- c
 *       |     +- c/
 *       |     +- d
 *       |
 *       +- b/ +- a/ +- a
 *       |     |
 *       |     +- b/ +- a
 *       |     |
 *       |     +- c/
 *       |
 *       +- c/ +- a
 *             +- b
 *             +- c
 * The files below `a` end in `low`, all others in `high`, and the
 * directory `locked` below the root cannot be read.
 */
struct Tree {
    root: &'static str,
    low: &'static str,
    high: &'static str,
    locked: &'static str,
}

const STATE: Tree = Tree { root: "test_data/state", low: ".txt", high: ".txt", locked: "-" };
const PLAIN: Tree = Tree { root: "root", low: "", high: "", locked: "-" };
const MIXED: Tree = Tree { root: "root", low: ".txt", high: ".png", locked: "-" };
const LOCKED: Tree = Tree { root: "root", low: "", high: "", locked: "/a/c" };
const BARRED: Tree = Tree { root: "root", low: "", high: "", locked: "/b" };
const ENDING: Tree = Tree { root: "root", low: "", high: "", locked: "/c" };

impl Tree {
    fn entries(&self, dir: &str, directories: &[&str], files: &[&str]) -> Reading {
        let end = if dir.starts_with(&format!("{}/a", self.root)) { self.low } else { self.high };
        let mut found = Vec::new();
        for name in directories.iter().rev() {
            found.push(DirEntry { path: format!("{}/{}", dir, name), kind: EntryKind::Directory });
        }
        for name in files.iter().rev() {
            found.push(DirEntry { path: format!("{}/{}{}", dir, name, end), kind: EntryKind::File });
        }
        Ok(found)
    }

    fn read(&self, dir: &str) -> Reading {
        let below = match dir.strip_prefix(self.root) {
            Some(below) => below,
            None => return Err(format!("{}: no such directory", dir)),
        };
        if below == self.locked {
            return Err(format!("{}: permission denied", dir));
        }
        match below {
            "" => self.entries(dir, &["a", "b", "c"], &[]),
            "/a" => self.entries(dir, &["a", "b", "c"], &["d"]),
            "/a/a" => self.entries(dir, &[], &["a", "b", "c"]),
            "/a/b" => self.entries(dir, &[], &["a", "b", "c"]),
            "/a/c" => self.entries(dir, &[], &[]),
            "/b" => self.entries(dir, &["a", "b", "c"], &[]),
            "/b/a" => self.entries(dir, &[], &["a"]),
            "/b/b" => self.entries(dir, &[], &["a"]),
            "/b/c" => self.entries(dir, &[], &[]),
            "/c" => self.entries(dir, &[], &["a", "b", "c"]),
            _ => Err(format!("{}: no such directory", dir)),
        }
    }

    fn run(&self, state: &mut ViewerState, mut step: Step) -> Result<(), NavError> {
        loop {
            match step {
                Step::Read(dir) => step = state.resume(self.read(&dir)),
                Step::Done(result) => return result,
            }
        }
    }

    fn open(&self, filename: &str, filter: FilterSpec) -> ViewerState {
        let mut state = ViewerState::new(filename, filter);
        let step = state.reload_files();
        assert_eq!(self.run(&mut state, step), Ok(()));
        state
    }

    fn move_by(&self, state: &mut ViewerState, offset: isize) -> Result<(), NavError> {
        let step = state.move_by(offset);
        self.run(state, step)
    }

    fn next_cursor(&self, state: &mut ViewerState) -> Result<(), NavError> {
        let step = state.next_cursor();
        self.run(state, step)
    }

    fn prev_cursor(&self, state: &mut ViewerState) -> Result<(), NavError> {
        let step = state.prev_cursor();
        self.run(state, step)
    }

    fn next_directory(&self, state: &mut ViewerState) -> Result<(), NavError> {
        let step = state.next_directory();
        self.run(state, step)
    }

    fn prev_directory(&self, state: &mut ViewerState) -> Result<(), NavError> {
        let step = state.prev_directory();
        self.run(state, step)
    }

    fn set_filter(&self, state: &mut ViewerState, filter: FilterSpec) -> Result<(), NavError> {
        let step = state.set_filter(filter);
        self.run(state, step)
    }

    /// Serves a fetch; the host fails to render the files named in `broken`.
    fn fetch(
        &self,
        state: &mut ViewerState,
        forward: bool,
        mut fetch: Fetch,
        broken: &[&str],
    ) -> Result<String, NavError> {
        loop {
            let reply = match fetch {
                Fetch::Read(dir) => Reply::Entries(self.read(&dir)),
                Fetch::Render(file) => {
                    if broken.contains(&file.as_str()) {
                        Reply::Image(Err(format!("{}: broken", file)))
                    } else {
                        Reply::Image(Ok(format!("image of {}", file)))
                    }
                }
                Fetch::Done(result) => return result,
            };
            fetch = resume_image(state, forward, reply);
        }
    }
}

fn extensions(names: &[&str]) -> FilterSpec {
    FilterSpec::Extensions(names.iter().map(|name| name.to_string()).collect())
}

fn all_files() -> FilterSpec {
    FilterSpec::Glob("*".to_string())
}

#[test]
fn test_viewer_state_init() {
    let expected_filenames = [
        "test_data/state/a/b/a.txt",
        "test_data/state/a/b/b.txt",
        "test_data/state/a/b/c.txt",
    ];

    let mut state1 = ViewerState::new("test_data/state/a/b/a.txt", extensions(&["txt"]));
    let step1 = state1.reload_files();
    assert_eq!(STATE.run(&mut state1, step1), Ok(()));
    assert_eq!(state1.cursor(), 0);
    assert_eq!(state1.paths().len(), 3);
    for (actual, expected) in state1.paths().iter().zip(expected_filenames) {
        assert!(actual.ends_with(expected));
    }

    let mut state2 = ViewerState::new("test_data/state/a/b/b.txt", extensions(&["txt"]));
    let step2 = state2.reload_files();
    assert_eq!(STATE.run(&mut state2, step2), Ok(()));
    assert_eq!(state2.cursor(), 1);
    assert_eq!(state2.paths().len(), 3);
    for (actual, expected) in state2.paths().iter().zip(expected_filenames) {
        assert!(actual.ends_with(expected));
    }
}

#[test]
fn test_viewer_state_change_directory() {
    let mut state = ViewerState::new("test_data/state/a/b/a.txt", extensions(&["txt"]));
    let step = state.reload_files();
    assert_eq!(STATE.run(&mut state, step), Ok(()));

    let prev_expected = [
        "test_data/state/a/a/a.txt",
        "test_data/state/a/a/b.txt",
        "test_data/state/a/a/c.txt",
    ];
    assert_eq!(STATE.prev_directory(&mut state), Ok(()));
    assert_eq!(state.paths().len(), 3);
    for (actual, expected) in state.paths().iter().zip(prev_expected) {
        assert!(actual.ends_with(expected));
    }

    let next_expected = [
        "test_data/state/a/b/a.txt",
        "test_data/state/a/b/b.txt",
        "test_data/state/a/b/c.txt",
    ];
    assert_eq!(STATE.next_directory(&mut state), Ok(()));
    assert_eq!(state.paths().len(), 3);
    for (actual, expected) in state.paths().iter().zip(next_expected) {
        assert!(actual.ends_with(expected));
    }
}

#[test]
fn test_viewer_state_next_cursor() {
    let mut state = ViewerState::new("test_data/state/a/a/b.txt", extensions(&["txt"]));
    let step = state.reload_files();
    assert_eq!(STATE.run(&mut state, step), Ok(()));

    assert!(STATE.next_cursor(&mut state).is_ok());
    assert_eq!(state.get().unwrap(), "test_data/state/a/a/c.txt".to_string());

    assert!(STATE.next_cursor(&mut state).is_ok());
    assert_eq!(state.get().unwrap(), "test_data/state/a/b/a.txt".to_string());

    assert!(STATE.next_cursor(&mut state).is_ok()); // a/b/b
    assert!(STATE.next_cursor(&mut state).is_ok()); // a/b/c
    assert!(STATE.next_cursor(&mut state).is_ok()); // b/a/a
    assert_eq!(state.get().unwrap(), "test_data/state/b/a/a.txt".to_string());
}

#[test]
fn test_viewer_state_prev_cursor() {
    let mut state = ViewerState::new("test_data/state/b/a/a.txt", extensions(&["txt"]));
    let step = state.reload_files();
    assert_eq!(STATE.run(&mut state, step), Ok(()));

    assert!(STATE.prev_cursor(&mut state).is_ok());
    assert_eq!(state.get().unwrap(), "test_data/state/a/b/c.txt".to_string());

    assert!(STATE.prev_cursor(&mut state).is_ok());
    assert_eq!(state.get().unwrap(), "test_data/state/a/b/b.txt".to_string());

    assert!(STATE.prev_cursor(&mut state).is_ok()); // a/b/a
    assert!(STATE.prev_cursor(&mut state).is_ok()); // a/a/c
    assert!(STATE.prev_cursor(&mut state).is_ok()); // a/a/b
    assert!(STATE.prev_cursor(&mut state).is_ok()); // a/a/a
    assert!(STATE.prev_cursor(&mut state).is_ok()); // a/d
    assert_eq!(state.get().unwrap(), "test_data/state/a/d.txt".to_string());
}

#[test]
fn test_viewer_state_move_first() {
    let mut state1 = ViewerState::new("test_data/state/a/b/a.txt", extensions(&["txt"]));
    let step1 = state1.reload_files();
    assert_eq!(STATE.run(&mut state1, step1), Ok(()));

    state1.move_first();
    assert_eq!(state1.get(), Ok("test_data/state/a/b/a.txt".to_string()));

    let mut state2 = ViewerState::new("test_data/state/a/b/b.txt", extensions(&["txt"]));
    let step2 = state2.reload_files();
    assert_eq!(STATE.run(&mut state2, step2), Ok(()));

    state2.move_first();
    assert_eq!(state2.get(), Ok("test_data/state/a/b/a.txt".to_string()));

    let mut state3 = ViewerState::new("test_data/state/a/b/c.txt", extensions(&["txt"]));
    let step3 = state3.reload_files();
    assert_eq!(STATE.run(&mut state3, step3), Ok(()));

    state3.move_first();
    assert_eq!(state3.get(), Ok("test_data/state/a/b/a.txt".to_string()));
}

#[test]
fn test_viewer_state_move_last() {
    let mut state1 = ViewerState::new("test_data/state/a/a/a.txt", extensions(&["txt"]));
    let step1 = state1.reload_files();
    assert_eq!(STATE.run(&mut state1, step1), Ok(()));

    state1.move_last();
    assert_eq!(state1.get(), Ok("test_data/state/a/a/c.txt".to_string()));

    let mut state2 = ViewerState::new("test_data/state/a/a/b.txt", extensions(&["txt"]));
    let step2 = state2.reload_files();
    assert_eq!(STATE.run(&mut state2, step2), Ok(()));

    state2.move_last();
    assert_eq!(state2.get(), Ok("test_data/state/a/a/c.txt".to_string()));

    let mut state3 = ViewerState::new("test_data/state/a/a/c.txt", extensions(&["txt"]));
    let step3 = state3.reload_files();
    assert_eq!(STATE.run(&mut state3, step3), Ok(()));

    state3.move_last();
    assert_eq!(state3.get(), Ok("test_data/state/a/a/c.txt".to_string()));
}

#[test]
fn a_new_cursor_stands_on_its_file() {
    let state = ViewerState::new("some/where/x.png", extensions(&["txt"]));
    assert_eq!(state.get(), Ok("some/where/x.png".to_string()));
    assert_eq!(state.parent_dir(), Ok("some/where".to_string()));
    assert_eq!(state.cursor(), 0);
    assert_eq!(state.paths(), &vec!["some/where/x.png".to_string()]);
    assert!(!state.pending());
}

#[test]
fn reload_asks_for_the_directory_of_the_file() {
    let mut state = ViewerState::new("root/a/b/b", all_files());
    assert_eq!(state.reload_files(), Step::Read("root/a/b".to_string()));
    assert!(state.pending());
    assert_eq!(state.resume(PLAIN.read("root/a/b")), Step::Done(Ok(())));
    assert!(!state.pending());
    assert_eq!(state.cursor(), 1);
}

#[test]
fn reload_enters_at_the_first_file_not_before_a_missing_one() {
    let state = PLAIN.open("root/a/b/bb", all_files());
    assert_eq!(state.get(), Ok("root/a/b/c".to_string()));
    let state = PLAIN.open("root/a/b/zz", all_files());
    assert_eq!(state.get(), Ok("root/a/b/a".to_string()));
}

#[test]
fn reload_of_an_empty_directory_falls_back_to_the_files_before() {
    let state = PLAIN.open("root/a/c/gone", all_files());
    assert_eq!(state.get(), Ok("root/a/b/c".to_string()));
}

#[test]
fn reload_fails_where_the_directory_cannot_be_read() {
    let mut state = ViewerState::new("nowhere/x", all_files());
    let step = state.reload_files();
    assert_eq!(
        PLAIN.run(&mut state, step),
        Err(NavError::Access {
            path: "nowhere".to_string(),
            message: "nowhere: no such directory".to_string()
        })
    );
    assert_eq!(state.get(), Ok("nowhere/x".to_string()));
}

#[test]
fn reload_fails_for_a_file_that_lies_in_no_directory() {
    let mut state = ViewerState::new("/", all_files());
    assert_eq!(state.reload_files(), Step::Done(Err(NavError::NoParentDirectory)));
    assert_eq!(state.parent_dir(), Err(NavError::NoParentDirectory));
}

#[test]
fn resume_without_an_operation_does_nothing() {
    let mut state = PLAIN.open("root/c/b", all_files());
    assert_eq!(state.resume(PLAIN.read("root/a/a")), Step::Done(Ok(())));
    assert_eq!(state.get(), Ok("root/c/b".to_string()));
}

#[test]
fn moves_cross_empty_directories_without_counting_them() {
    let mut state = PLAIN.open("root/a/b/a", all_files());
    assert_eq!(PLAIN.move_by(&mut state, 1), Ok(()));
    assert_eq!(state.get(), Ok("root/a/b/b".to_string()));
    // One more file in a/b, then a/c and b hold no file, then b/a.
    assert_eq!(PLAIN.move_by(&mut state, 2), Ok(()));
    assert_eq!(state.get(), Ok("root/b/a/a".to_string()));
    assert_eq!(PLAIN.move_by(&mut state, -1), Ok(()));
    assert_eq!(state.get(), Ok("root/a/b/c".to_string()));
}

#[test]
fn four_files_behind_the_second_of_a_b_comes_the_first_of_c() {
    let mut state = PLAIN.open("root/a/b/b", all_files());
    // a/b/c, b/a/a, b/b/a, c/a: the directories a/c, b and b/c hold no file.
    assert_eq!(PLAIN.move_by(&mut state, 4), Ok(()));
    assert_eq!(state.get(), Ok("root/c/a".to_string()));
    assert_eq!(PLAIN.move_by(&mut state, -4), Ok(()));
    assert_eq!(state.get(), Ok("root/a/b/b".to_string()));
}

#[test]
fn five_files_lie_between_the_second_of_a_a_and_the_first_of_b_a() {
    let mut state = PLAIN.open("root/a/a/b", all_files());
    assert_eq!(PLAIN.move_by(&mut state, 1), Ok(()));
    assert_eq!(state.get(), Ok("root/a/a/c".to_string()));
    assert_eq!(PLAIN.move_by(&mut state, 4), Ok(()));
    assert_eq!(state.get(), Ok("root/b/a/a".to_string()));
    assert_eq!(PLAIN.move_by(&mut state, -1), Ok(()));
    assert_eq!(state.get(), Ok("root/a/b/c".to_string()));
}

#[test]
fn move_by_visits_the_files_in_one_line() {
    let line = [
        "root/a/d",
        "root/a/a/a",
        "root/a/a/b",
        "root/a/a/c",
        "root/a/b/a",
        "root/a/b/b",
        "root/a/b/c",
        "root/b/a/a",
        "root/b/b/a",
        "root/c/a",
        "root/c/b",
        "root/c/c",
    ];
    for from in 0..line.len() {
        for to in 0..line.len() {
            let mut state = PLAIN.open(line[from], all_files());
            let offset = to as isize - from as isize;
            assert_eq!(PLAIN.move_by(&mut state, offset), Ok(()));
            assert_eq!(state.get(), Ok(line[to].to_string()));
            assert_eq!(PLAIN.move_by(&mut state, -offset), Ok(()));
            assert_eq!(state.get(), Ok(line[from].to_string()));
        }
        let mut state = PLAIN.open(line[from], all_files());
        let beyond = (line.len() - from) as isize;
        assert_eq!(PLAIN.move_by(&mut state, beyond), Err(NavError::OutOfRange));
        assert_eq!(state.get(), Ok(line[from].to_string()));
        let before = -(from as isize) - 1;
        assert_eq!(PLAIN.move_by(&mut state, before), Err(NavError::OutOfRange));
        assert_eq!(state.get(), Ok(line[from].to_string()));
    }
}

#[test]
fn move_by_nothing_stays() {
    let mut state = PLAIN.open("root/b/b/a", all_files());
    assert_eq!(state.move_by(0), Step::Done(Ok(())));
    assert_eq!(state.get(), Ok("root/b/b/a".to_string()));
    assert_eq!(state.cursor(), 0);
}

#[test]
fn an_offset_beyond_every_eligible_file_is_out_of_range() {
    let mut state = MIXED.open("root/a/a/b.txt", extensions(&["txt"]));
    assert_eq!(MIXED.move_by(&mut state, 100), Err(NavError::OutOfRange));
    assert_eq!(state.get(), Ok("root/a/a/b.txt".to_string()));
    assert_eq!(MIXED.move_by(&mut state, isize::MAX), Err(NavError::OutOfRange));
    assert_eq!(MIXED.move_by(&mut state, isize::MIN), Err(NavError::OutOfRange));
    assert_eq!(state.get(), Ok("root/a/a/b.txt".to_string()));
    // The last file that ends in txt is four files ahead.
    assert_eq!(MIXED.move_by(&mut state, 4), Ok(()));
    assert_eq!(state.get(), Ok("root/a/b/c.txt".to_string()));
    assert_eq!(MIXED.next_cursor(&mut state), Err(NavError::OutOfRange));
}

#[test]
fn a_filter_without_a_match_here_sends_the_cursor_backward() {
    let mut state = MIXED.open("root/b/a/a.png", extensions(&["txt", "png"]));
    assert_eq!(MIXED.set_filter(&mut state, extensions(&["txt"])), Ok(()));
    assert_eq!(state.get(), Ok("root/a/b/c.txt".to_string()));
    assert_eq!(state.paths().len(), 3);
    // The new filter is in force.
    assert_eq!(MIXED.next_cursor(&mut state), Err(NavError::OutOfRange));
}

#[test]
fn a_filter_with_a_match_here_keeps_the_place() {
    let mut state = MIXED.open("root/c/b.png", extensions(&["txt", "png"]));
    // Patterns tell capitals from small letters, so this one matches nothing.
    assert_eq!(
        MIXED.set_filter(&mut state, FilterSpec::Glob("?.PNG".to_string())),
        Err(NavError::OutOfRange)
    );
    assert_eq!(state.get(), Ok("root/c/b.png".to_string()));
    assert_eq!(MIXED.set_filter(&mut state, FilterSpec::Glob("[bc].p*".to_string())), Ok(()));
    assert_eq!(state.get(), Ok("root/c/b.png".to_string()));
    assert_eq!(state.paths(), &vec!["root/c/b.png".to_string(), "root/c/c.png".to_string()]);
    assert_eq!(MIXED.set_filter(&mut state, extensions(&["PNG"])), Ok(()));
    assert_eq!(state.get(), Ok("root/c/b.png".to_string()));
    assert_eq!(state.cursor(), 1);
    assert_eq!(state.paths().len(), 3);
}

#[test]
fn a_filter_without_a_match_anywhere_before_changes_nothing() {
    let mut state = MIXED.open("root/b/a/a.png", extensions(&["txt", "png"]));
    assert_eq!(MIXED.set_filter(&mut state, extensions(&["gif"])), Err(NavError::OutOfRange));
    assert_eq!(state.get(), Ok("root/b/a/a.png".to_string()));
    // The old filter is still in force.
    assert_eq!(MIXED.prev_cursor(&mut state), Ok(()));
    assert_eq!(state.get(), Ok("root/a/b/c.txt".to_string()));
}

#[test]
fn jumps_land_on_the_near_end_of_the_other_directory() {
    let mut state = PLAIN.open("root/a/b/b", all_files());
    assert_eq!(PLAIN.next_directory(&mut state), Ok(()));
    assert_eq!(state.get(), Ok("root/b/a/a".to_string()));
    assert_eq!(PLAIN.prev_directory(&mut state), Ok(()));
    assert_eq!(state.get(), Ok("root/a/b/c".to_string()));
    let step = state.change_directory(false);
    assert_eq!(PLAIN.run(&mut state, step), Ok(()));
    assert_eq!(state.get(), Ok("root/a/a/c".to_string()));
    let step = state.change_directory(true);
    assert_eq!(PLAIN.run(&mut state, step), Ok(()));
    assert_eq!(state.get(), Ok("root/a/b/a".to_string()));
}

#[test]
fn jumps_fail_at_the_ends_of_the_tree() {
    let mut state = PLAIN.open("root/c/a", all_files());
    assert_eq!(PLAIN.next_directory(&mut state), Err(NavError::OutOfRange));
    assert_eq!(state.get(), Ok("root/c/a".to_string()));
    let mut state = PLAIN.open("root/a/d", all_files());
    assert_eq!(PLAIN.prev_directory(&mut state), Err(NavError::OutOfRange));
    assert_eq!(state.get(), Ok("root/a/d".to_string()));
}

#[test]
fn a_fetch_skips_what_the_host_cannot_render() {
    let mut state = PLAIN.open("root/a/b/b", all_files());
    let fetch = get_next_image(&mut state, 1);
    assert_eq!(fetch, Fetch::Render("root/a/b/c".to_string()));
    let image = PLAIN.fetch(&mut state, true, fetch, &["root/a/b/c", "root/b/a/a"]);
    assert_eq!(image, Ok("image of root/b/b/a".to_string()));
    assert_eq!(state.get(), Ok("root/b/b/a".to_string()));

    let fetch = get_prev_image(&mut state, -1);
    assert_eq!(fetch, Fetch::Read("root/b".to_string()));
    let image = PLAIN.fetch(&mut state, false, fetch, &["root/a/b/c", "root/b/a/a"]);
    assert_eq!(image, Ok("image of root/a/b/b".to_string()));
    assert_eq!(state.get(), Ok("root/a/b/b".to_string()));
}

#[test]
fn a_fetch_at_an_offset_moves_either_way() {
    let mut state = PLAIN.open("root/a/b/b", all_files());
    assert_eq!(move_image_offset(&mut state, 1), Fetch::Render("root/a/b/c".to_string()));
    assert_eq!(move_image_offset(&mut state, -2), Fetch::Render("root/a/b/a".to_string()));
    let fetch = move_image_offset(&mut state, -4);
    assert_eq!(fetch, Fetch::Read("root/a".to_string()));
    assert_eq!(PLAIN.fetch(&mut state, false, fetch, &[]), Ok("image of root/a/d".to_string()));
    let fetch = move_image_offset(&mut state, -1);
    assert_eq!(PLAIN.fetch(&mut state, false, fetch, &[]), Err(NavError::OutOfRange));
}

#[test]
fn a_directory_that_cannot_be_read_is_passed_like_an_empty_one() {
    // The first directory that the move comes to cannot be read.
    let mut state = LOCKED.open("root/a/b/c", all_files());
    assert_eq!(LOCKED.next_cursor(&mut state), Ok(()));
    assert_eq!(state.get(), Ok("root/b/a/a".to_string()));
    assert!(!state.pending());
    // Backward the move has passed the empty `root/b` when the walk goes
    // down into it.
    assert_eq!(LOCKED.prev_cursor(&mut state), Ok(()));
    assert_eq!(state.get(), Ok("root/a/b/c".to_string()));
    assert_eq!(state.cursor(), 2);
    // Jumps pass it too.
    assert_eq!(LOCKED.next_directory(&mut state), Ok(()));
    assert_eq!(state.get(), Ok("root/b/a/a".to_string()));
    assert_eq!(LOCKED.prev_directory(&mut state), Ok(()));
    assert_eq!(state.get(), Ok("root/a/b/c".to_string()));
    // And so does a move over many files.
    assert_eq!(LOCKED.move_by(&mut state, 3), Ok(()));
    assert_eq!(state.get(), Ok("root/c/a".to_string()));
    assert_eq!(LOCKED.move_by(&mut state, -3), Ok(()));
    assert_eq!(state.get(), Ok("root/a/b/c".to_string()));
    let mut state = LOCKED.open("root/a/a/c", all_files());
    assert_eq!(LOCKED.move_by(&mut state, 4), Ok(()));
    assert_eq!(state.get(), Ok("root/b/a/a".to_string()));
    assert_eq!(LOCKED.move_by(&mut state, -4), Ok(()));
    assert_eq!(state.get(), Ok("root/a/a/c".to_string()));
}

#[test]
fn a_directory_that_cannot_be_read_hides_what_lies_below_it() {
    // The move has passed the empty `root/a/c` when it comes to `root/b`.
    let mut state = BARRED.open("root/a/b/c", all_files());
    assert_eq!(BARRED.next_cursor(&mut state), Ok(()));
    assert_eq!(state.get(), Ok("root/c/a".to_string()));
    // Backward it is the first directory that the move comes to.
    assert_eq!(BARRED.prev_cursor(&mut state), Ok(()));
    assert_eq!(state.get(), Ok("root/a/b/c".to_string()));
    let fetch = get_next_image(&mut state, 1);
    assert_eq!(fetch, Fetch::Read("root/a/b".to_string()));
    assert_eq!(BARRED.fetch(&mut state, true, fetch, &[]), Ok("image of root/c/a".to_string()));
    let fetch = get_prev_image(&mut state, -1);
    assert_eq!(BARRED.fetch(&mut state, false, fetch, &[]), Ok("image of root/a/b/c".to_string()));
}

#[test]
fn only_the_directory_to_list_again_must_be_read() {
    let denied = NavError::Access {
        path: "root/a/c".to_string(),
        message: "root/a/c: permission denied".to_string(),
    };
    let mut state = ViewerState::new("root/a/c/gone", all_files());
    let step = state.reload_files();
    assert_eq!(LOCKED.run(&mut state, step), Err(denied));
    assert_eq!(state.get(), Ok("root/a/c/gone".to_string()));
    assert!(!state.pending());
    let denied = NavError::Access {
        path: "root/a/c".to_string(),
        message: "root/a/c: permission denied".to_string(),
    };
    assert_eq!(LOCKED.set_filter(&mut state, extensions(&["txt"])), Err(denied));
    assert_eq!(state.get(), Ok("root/a/c/gone".to_string()));
}

#[test]
fn a_move_fails_at_the_end_of_the_tree_behind_a_directory_that_cannot_be_read() {
    let mut state = ENDING.open("root/b/b/a", all_files());
    assert_eq!(ENDING.next_cursor(&mut state), Err(NavError::OutOfRange));
    assert_eq!(state.get(), Ok("root/b/b/a".to_string()));
    assert!(!state.pending());
    assert_eq!(ENDING.next_directory(&mut state), Err(NavError::OutOfRange));
    assert_eq!(state.get(), Ok("root/b/b/a".to_string()));
}

#[test]
fn a_new_filter_goes_backward_past_a_directory_that_cannot_be_read() {
    let shut = Tree { root: "root", low: ".txt", high: ".png", locked: "/a/c" };
    let mut state = shut.open("root/b/a/a.png", all_files());
    assert_eq!(shut.set_filter(&mut state, extensions(&["txt"])), Ok(()));
    assert_eq!(state.get(), Ok("root/a/b/c.txt".to_string()));
    assert_eq!(state.cursor(), 2);
}

#[test]
fn a_listing_made_again_keeps_the_cursor_on_a_file() {
    // The file is gone and its directory is empty now: the cursor goes backward.
    let mut state = ViewerState::new("root/a/c/gone", all_files());
    let step = state.reload_files();
    assert_eq!(PLAIN.run(&mut state, step), Ok(()));
    assert_eq!(state.get(), Ok("root/a/b/c".to_string()));
    // Made again where files are, it keeps its place.
    let step = state.reload_files();
    assert_eq!(PLAIN.run(&mut state, step), Ok(()));
    assert_eq!(state.get(), Ok("root/a/b/c".to_string()));
    assert_eq!(state.cursor(), 2);
}

#[test]
fn a_cursor_without_a_listing_holds_no_file() {
    let mut state = ViewerState::default();
    assert_eq!(state.get(), Err(NavError::EmptyBuffer));
    assert_eq!(state.parent_dir(), Err(NavError::EmptyBuffer));
    assert_eq!(state.paths().len(), 0);
    assert_eq!(state.move_by(0), Step::Done(Err(NavError::EmptyBuffer)));
    assert_eq!(state.move_by(1), Step::Done(Err(NavError::EmptyBuffer)));
    assert_eq!(state.reload_files(), Step::Done(Err(NavError::EmptyBuffer)));
    assert_eq!(state.next_directory(), Step::Done(Err(NavError::EmptyBuffer)));
    assert_eq!(state.prev_directory(), Step::Done(Err(NavError::EmptyBuffer)));
    state.move_last();
    assert_eq!(state.cursor(), 0);
    state.move_first();
    assert_eq!(state.cursor(), 0);
    assert_eq!(get_next_image(&mut state, 0), Fetch::Done(Err(NavError::EmptyBuffer)));
}

#[test]
fn errors_tell_the_user_what_happened() {
    assert_eq!(NavError::OutOfRange.message(), "cannot move further");
    assert_eq!(NavError::NoParentDirectory.message(), "cannot move further");
    assert_eq!(NavError::EmptyBuffer.message(), "Files are not in buffer.");
    let access =
        NavError::Access { path: "a/b".to_string(), message: "permission denied".to_string() };
    assert_eq!(access.message(), "a/b: permission denied");
}

#[test]
fn a_new_operation_takes_the_place_of_an_unfinished_one() {
    let mut state = PLAIN.open("root/a/b/c", all_files());
    assert_eq!(state.next_cursor(), Step::Read("root/a/b".to_string()));
    assert!(state.pending());
    assert_eq!(state.prev_cursor(), Step::Done(Ok(())));
    assert!(!state.pending());
    assert_eq!(state.get(), Ok("root/a/b/b".to_string()));
    assert_eq!(state.next_directory(), Step::Read("root/a/b".to_string()));
    state.move_first();
    assert!(state.pending());
    assert_eq!(PLAIN.move_by(&mut state, 2), Ok(()));
    assert_eq!(state.get(), Ok("root/a/b/c".to_string()));
}

#[test]
fn a_fetch_of_no_moves_renders_the_current_file() {
    let mut state = PLAIN.open("root/c/b", all_files());
    assert_eq!(get_next_image(&mut state, 0), Fetch::Render("root/c/b".to_string()));
    assert_eq!(get_next_image(&mut state, -3), Fetch::Render("root/c/b".to_string()));
    assert_eq!(get_prev_image(&mut state, 0), Fetch::Render("root/c/b".to_string()));
    assert_eq!(get_prev_image(&mut state, 3), Fetch::Render("root/c/b".to_string()));
}

#[test]
fn a_fetch_ends_where_nothing_can_be_rendered() {
    let mut state = PLAIN.open("root/c/b", all_files());
    let fetch = get_next_image(&mut state, 0);
    let image = PLAIN.fetch(&mut state, true, fetch, &["root/c/b", "root/c/c"]);
    assert_eq!(image, Err(NavError::OutOfRange));
}
