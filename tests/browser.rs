use rmls::{BrowserError, Key, Listed, State, Visibility};

fn listing(names: &[(&str, bool)]) -> Vec<Listed> {
    names
        .iter()
        .map(|(n, f)| Listed { name: n.to_string(), is_file: *f })
        .collect()
}

fn five_files() -> State {
    let l = listing(&[("a", true), ("b", true), ("c", true), ("d", true), ("e", true)]);
    State::new("root".to_string(), &l).unwrap()
}

fn names(s: &State, nodes: &[usize]) -> Vec<String> {
    nodes.iter().map(|&i| s.tree.nodes[i].name.clone()).collect()
}

#[test]
fn range_delete_and_undo_of_middle_entries() {
    let mut s = five_files();
    assert_eq!(names(&s, &s.visible()), vec!["a", "b", "c", "d", "e"]);
    s.handle_key(Key::Down, 20).unwrap();
    s.handle_key(Key::Select, 20).unwrap();
    s.handle_key(Key::Down, 20).unwrap();
    s.handle_key(Key::Down, 20).unwrap();
    let before_cursor = s.cursor;
    let before_y = s.y;
    assert_eq!(s.tree.nodes[before_cursor].name, "d");
    s.handle_key(Key::Delete, 20).unwrap();
    assert_eq!(names(&s, &s.visible()), vec!["a", "e"]);
    assert_eq!(names(&s, &s.marked()), vec!["b", "c", "d"]);
    assert_eq!(s.tree.nodes[s.cursor].name, "e");
    assert_eq!(s.deletions.len(), 1);
    assert_eq!(names(&s, &s.deletions[0].nodes), vec!["b", "c", "d"]);
    s.handle_key(Key::Undo, 20).unwrap();
    assert_eq!(names(&s, &s.visible()), vec!["a", "b", "c", "d", "e"]);
    assert_eq!(s.cursor, before_cursor);
    assert_eq!(s.y, before_y);
    assert!(s.marked().is_empty());
}

#[test]
fn selection_upwards_deletes_the_same_span() {
    let mut s = five_files();
    s.handle_key(Key::Down, 20).unwrap();
    s.handle_key(Key::Down, 20).unwrap();
    s.handle_key(Key::Down, 20).unwrap();
    s.handle_key(Key::Select, 20).unwrap();
    s.handle_key(Key::Up, 20).unwrap();
    s.handle_key(Key::Up, 20).unwrap();
    s.handle_key(Key::Delete, 20).unwrap();
    assert_eq!(names(&s, &s.visible()), vec!["a", "e"]);
    assert_eq!(s.tree.nodes[s.cursor].name, "e");
}

#[test]
fn single_delete_moves_to_next_then_previous() {
    let mut s = five_files();
    for _ in 0..4 {
        s.handle_key(Key::Down, 20).unwrap();
    }
    assert_eq!(s.tree.nodes[s.cursor].name, "e");
    assert_eq!(s.y, 5);
    s.handle_key(Key::Delete, 20).unwrap();
    assert_eq!(s.tree.nodes[s.cursor].name, "d");
    assert_eq!(s.y, 4);
    s.handle_key(Key::Up, 20).unwrap();
    s.handle_key(Key::Up, 20).unwrap();
    s.handle_key(Key::Delete, 20).unwrap();
    assert_eq!(s.tree.nodes[s.cursor].name, "c");
}

#[test]
fn deleting_everything_is_reported() {
    let l = listing(&[("only", true)]);
    let mut s = State::new("root".to_string(), &l).unwrap();
    assert_eq!(s.handle_key(Key::Delete, 20), Err(BrowserError::AllDeleted));
    assert!(s.visible().is_empty());
    assert_eq!(s.handle_key(Key::Delete, 20), Err(BrowserError::AllDeleted));
    s.handle_key(Key::Undo, 20).unwrap();
    assert_eq!(names(&s, &s.visible()), vec!["only"]);
}

#[test]
fn undo_with_nothing_to_undo() {
    let mut s = five_files();
    assert_eq!(s.handle_key(Key::Undo, 20), Err(BrowserError::NothingToUndo));
    assert_eq!(names(&s, &s.visible()), vec!["a", "b", "c", "d", "e"]);
}

#[test]
fn empty_directory_is_refused() {
    let r = State::new("root".to_string(), &Vec::new());
    assert!(matches!(r, Err(BrowserError::EmptyDirectory)));
}

fn nested() -> State {
    // root: a, dir, z ; dir: x, y
    let l = listing(&[("a", true), ("dir", false), ("z", true)]);
    let mut s = State::new("root".to_string(), &l).unwrap();
    s.handle_key(Key::Down, 20).unwrap();
    assert_eq!(s.listing_needed(), Some(s.cursor));
    let d = s.cursor;
    s.load_listing(d, &listing(&[("x", true), ("y", true)]));
    assert_eq!(s.listing_needed(), None);
    s.handle_key(Key::Toggle, 20).unwrap();
    s
}

#[test]
fn opening_a_directory_shows_its_entries_in_order() {
    let s = nested();
    assert_eq!(names(&s, &s.visible()), vec!["a", "dir", "x", "y", "z"]);
    assert_eq!(names(&s, &s.tree.entries(Visibility::All)), vec!["a", "dir", "x", "y", "z"]);
    let x = s.visible()[2];
    assert_eq!(s.tree.nodes[x].id, vec![0, 1, 0]);
    assert_eq!(s.tree.get(&vec![0, 1, 1]), Some(s.visible()[3]));
    assert_eq!(s.tree.get(&vec![0, 7]), None);
}

#[test]
fn closing_keeps_the_cached_entries() {
    let mut s = nested();
    s.handle_key(Key::Toggle, 20).unwrap();
    assert_eq!(names(&s, &s.visible()), vec!["a", "dir", "z"]);
    assert_eq!(names(&s, &s.tree.entries(Visibility::All)), vec!["a", "dir", "x", "y", "z"]);
    s.handle_key(Key::Toggle, 20).unwrap();
    assert_eq!(names(&s, &s.visible()), vec!["a", "dir", "x", "y", "z"]);
}

#[test]
fn next_and_previous_walk_preorder_and_invert() {
    let s = nested();
    let v = s.visible();
    for w in v.windows(2) {
        assert_eq!(s.tree.next(w[0]), Some(w[1]));
        assert_eq!(s.tree.previous(w[1]), Some(w[0]));
        assert_eq!(s.tree.next(s.tree.previous(w[1]).unwrap()), Some(w[1]));
    }
    assert_eq!(s.tree.previous(v[0]), None);
    assert_eq!(s.tree.next(v[4]), None);
}

#[test]
fn deleted_subtree_stays_hidden_and_listed_once() {
    let mut s = nested();
    // cursor on dir (open): delete it with its entries
    s.handle_key(Key::Delete, 20).unwrap();
    assert_eq!(names(&s, &s.visible()), vec!["a", "z"]);
    assert_eq!(names(&s, &s.marked()), vec!["dir"]);
    for &i in &s.visible() {
        let mut a = i;
        loop {
            assert!(!s.tree.deleted[a]);
            if a == 0 {
                break;
            }
            a = s.tree.nodes[a].parent;
        }
    }
    s.tree.mark_subtree(s.visible()[0], true);
    s.tree.mark_subtree(2, false);
    assert_eq!(names(&s, &s.visible()), vec!["dir", "x", "y", "z"]);
}

#[test]
fn selection_does_not_step_onto_an_open_directory() {
    let mut s = nested();
    s.handle_key(Key::Up, 20).unwrap();
    s.handle_key(Key::Select, 20).unwrap();
    let at = s.cursor;
    s.handle_key(Key::Down, 20).unwrap();
    assert_eq!(s.cursor, at);
    s.handle_key(Key::Cancel, 20).unwrap();
    s.handle_key(Key::Down, 20).unwrap();
    assert_ne!(s.cursor, at);
}

#[test]
fn scrolling_keeps_the_cursor_in_the_window() {
    let mut s = five_files();
    for _ in 0..4 {
        s.handle_key(Key::Down, 2).unwrap();
    }
    assert_eq!(s.y, 2);
    assert_eq!(s.skip, 3);
    s.handle_key(Key::Up, 2).unwrap();
    assert_eq!(s.y, 1);
    assert_eq!(s.skip, 3);
    s.handle_key(Key::Up, 2).unwrap();
    assert_eq!(s.y, 1);
    assert_eq!(s.skip, 2);
    let mut t = five_files();
    for _ in 0..4 {
        t.handle_key(Key::Down, 20).unwrap();
    }
    t.fit(2);
    assert_eq!(t.y, 2);
    assert_eq!(t.tree.nodes[t.cursor].name, "b");
}

#[test]
fn quit_sets_the_flag() {
    let mut s = five_files();
    s.handle_key(Key::Quit, 20).unwrap();
    assert!(s.quit);
}

#[test]
fn undo_reports_a_deleted_ancestor() {
    let mut s = nested();
    s.handle_key(Key::Down, 20).unwrap();
    assert_eq!(s.tree.nodes[s.cursor].name, "x");
    s.handle_key(Key::Delete, 20).unwrap();
    let dir = s.tree.nodes[s.cursor].parent;
    assert_eq!(s.tree.nodes[dir].name, "dir");
    s.tree.mark_subtree(dir, true);
    assert_eq!(s.handle_key(Key::Undo, 20), Err(BrowserError::Inconsistent));
}

#[test]
fn undo_of_a_directory_brings_back_an_earlier_deleted_entry() {
    // Undo restores whole subtrees: an entry deleted before its directory
    // comes back with the directory.
    let mut s = nested();
    s.handle_key(Key::Down, 20).unwrap();
    s.handle_key(Key::Delete, 20).unwrap();
    assert_eq!(names(&s, &s.visible()), vec!["a", "dir", "y", "z"]);
    s.handle_key(Key::Up, 20).unwrap();
    assert_eq!(s.tree.nodes[s.cursor].name, "dir");
    s.handle_key(Key::Delete, 20).unwrap();
    s.handle_key(Key::Undo, 20).unwrap();
    assert_eq!(names(&s, &s.visible()), vec!["a", "dir", "x", "y", "z"]);
}

#[test]
fn previous_of_the_root_is_none() {
    let s = five_files();
    assert_eq!(s.tree.previous(0), None);
}

#[test]
fn swapping_anchor_and_cursor_gives_the_same_group() {
    let mut a = five_files();
    a.handle_key(Key::Down, 20).unwrap();
    a.handle_key(Key::Select, 20).unwrap();
    a.handle_key(Key::Down, 20).unwrap();
    a.handle_key(Key::Down, 20).unwrap();
    a.handle_key(Key::Delete, 20).unwrap();
    let mut b = five_files();
    for _ in 0..3 {
        b.handle_key(Key::Down, 20).unwrap();
    }
    b.handle_key(Key::Select, 20).unwrap();
    b.handle_key(Key::Up, 20).unwrap();
    b.handle_key(Key::Up, 20).unwrap();
    b.handle_key(Key::Delete, 20).unwrap();
    assert_eq!(a.deletions[0].nodes, b.deletions[0].nodes);
    assert_eq!(a.tree.deleted, b.tree.deleted);
    assert_eq!(a.y, 2);
    assert_eq!(b.y, 2);
}
