use tools::widgets::container::Container;
use tools::widgets::list::{List, ListState, Row};
use tools::widgets::path::{child, parent};

#[test]
fn test_list() {
    let items = vec!["foo".to_string(), "bar".to_string(), "baz".to_string()];
    let mut state = ListState::default();
    let list = List::new(items);
    assert_eq!(list.get_sel(&state), None);
    state.select(1);
    assert_eq!(list.get_sel(&state), Some(&"bar".to_string()));
    state.select(2);
    assert_eq!(list.get_sel(&state), Some(&"baz".to_string()));
    state.select(3);
    assert_eq!(list.get_sel(&state), None);
    assert_eq!(list.len(), 3);
    assert_eq!(list.get(0), Some(&"foo".to_string()));
    assert_eq!(list.get(4), None);
}

fn letters(n: usize) -> List {
    List::new((0..n).map(|i| format!("item {}", i)).collect())
}

#[test]
fn rows_start_at_the_top_when_nothing_is_selected() {
    let list = letters(5);
    let mut state = ListState::default();
    let rows = list.render_rows(3, &mut state);
    assert_eq!(
        rows,
        vec![
            Row { index: 0, selected: false },
            Row { index: 1, selected: false },
            Row { index: 2, selected: false },
        ]
    );
    assert_eq!(state.offset(), 0);
}

#[test]
fn rows_scroll_down_to_the_selection() {
    let list = letters(10);
    let mut state = ListState::default();
    state.select(7);
    let rows = list.render_rows(3, &mut state);
    assert_eq!(state.offset(), 5);
    assert_eq!(
        rows,
        vec![
            Row { index: 5, selected: false },
            Row { index: 6, selected: false },
            Row { index: 7, selected: true },
        ]
    );
}

#[test]
fn rows_scroll_up_to_the_selection() {
    let list = letters(10);
    let mut state = ListState::default();
    state.select(7);
    list.render_rows(3, &mut state);
    state.select(2);
    let rows = list.render_rows(3, &mut state);
    assert_eq!(state.offset(), 2);
    assert_eq!(rows[0], Row { index: 2, selected: true });
    assert_eq!(rows.len(), 3);
}

#[test]
fn rows_stay_when_the_selection_is_in_view() {
    let list = letters(10);
    let mut state = ListState::default();
    state.select(7);
    list.render_rows(3, &mut state);
    state.select(6);
    let rows = list.render_rows(3, &mut state);
    assert_eq!(state.offset(), 5);
    assert_eq!(rows[1], Row { index: 6, selected: true });
}

#[test]
fn rows_end_with_the_list() {
    let list = letters(4);
    let mut state = ListState::default();
    state.select(3);
    let rows = list.render_rows(10, &mut state);
    assert_eq!(rows.len(), 4);
    assert_eq!(rows[3], Row { index: 3, selected: true });
    state.select(9);
    let rows = list.render_rows(2, &mut state);
    assert_eq!(state.offset(), 8);
    assert_eq!(rows, vec![]);
}

#[test]
fn no_rows_without_height() {
    let list = letters(4);
    let mut state = ListState::default();
    state.select(1);
    let rows = list.render_rows(0, &mut state);
    assert_eq!(rows, vec![]);
    assert_eq!(state.offset(), 2);
    state.select(usize::MAX);
    list.render_rows(0, &mut state);
    assert_eq!(state.offset(), usize::MAX);
}

#[test]
fn selection_moves_up_and_down_within_the_list() {
    let mut state = ListState::default();
    state.down(3);
    assert_eq!(state.selected, Some(0));
    state.down(3);
    state.down(3);
    assert_eq!(state.selected, Some(2));
    state.down(3);
    assert_eq!(state.selected, Some(2));
    state.up(3);
    assert_eq!(state.selected, Some(1));
    state.up(3);
    state.up(3);
    assert_eq!(state.selected, Some(0));
    let mut state = ListState::default();
    state.up(3);
    assert_eq!(state.selected, Some(2));
}

#[test]
fn container_keeps_its_parts() {
    let c = Container::new("vcd".to_string(), 7u8);
    assert_eq!(c.name(), "vcd");
    assert_eq!(*c.widget(), 7);
    assert_eq!(c.into_parts(), ("vcd".to_string(), 7));
}

#[test]
fn parent_drops_the_last_name() {
    assert_eq!(parent("/home/user/src"), "/home/user");
    assert_eq!(parent("/home/user"), "/home");
    assert_eq!(parent("/home"), "/");
    assert_eq!(parent("/"), "/");
    assert_eq!(parent(""), "/");
    assert_eq!(parent("home"), "/");
    assert_eq!(parent("home/user"), "/");
    assert_eq!(parent("home/user/src"), "home/user");
    assert_eq!(parent("/home/user/"), "/home/user");
    assert_eq!(parent("//"), "/");
    assert_eq!(parent("/tmp/é/ü"), "/tmp/é");
}

#[test]
fn child_adds_a_name() {
    assert_eq!(child("/", "home"), "/home");
    assert_eq!(child("/home", "user"), "/home/user");
    assert_eq!(child("", "home"), "/home");
    assert_eq!(child("/tmp", "é"), "/tmp/é");
    assert_eq!(child("/home/", "user"), "/home//user");
    assert_eq!(parent(&child("/home", "user")), "/home");
}
