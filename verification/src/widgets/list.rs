use vstd::prelude::*;

verus! {

/// Which item of a list is selected, and which item is drawn in the first
/// row.
#[derive(Clone)]
pub struct ListState {
    pub selected: Option<usize>,
    offset: usize,
}

/// One row of a drawn list: the item shown in it and whether that item is the
/// selected one.
#[derive(Clone, Copy, Debug, PartialEq, Eq)]
pub struct Row {
    pub index: usize,
    pub selected: bool,
}

/// The first row's item after scrolling just far enough that `selected` lies
/// within `height` rows of it.
pub open spec fn scrolled(offset: int, selected: int, height: int) -> int {
    if selected < offset {
        selected
    } else if selected - offset >= height {
        selected - height + 1
    } else {
        offset
    }
}

/// With room for at least one row, the selected item is in view after
/// scrolling, and the first row has not moved if it was in view before.
pub proof fn lemma_scrolled_into_view(offset: int, selected: int, height: int)
    requires
        height > 0,
    ensures
        scrolled(offset, selected, height) <= selected < scrolled(offset, selected, height)
            + height,
        offset <= selected < offset + height ==> scrolled(offset, selected, height) == offset,
{
}

/// The first row's item after scrolling a list whose first row shows item
/// `first` so that the selected item, if there is one, is in view. A
/// position that does not fit in a `usize` stops at `usize::MAX`.
pub open spec fn first_row_for(first: usize, selection: Option<usize>, height: usize) -> usize {
    match selection {
        Some(s) => {
            let to = scrolled(first as int, s as int, height as int);
            if to > usize::MAX {
                usize::MAX
            } else {
                to as usize
            }
        },
        None => first,
    }
}

impl ListState {
    /// The selected item, if there is one.
    pub closed spec fn selection(&self) -> Option<usize> {
        self.selected
    }

    /// The item drawn in the first row.
    pub closed spec fn first_row(&self) -> usize {
        self.offset
    }

    pub fn select(&mut self, index: usize)
        ensures
            final(self).selection() == Some(index),
            final(self).first_row() == old(self).first_row(),
    {
        self.selected = Some(index);
    }

    /// The item drawn in the first row.
    pub fn offset(&self) -> (o: usize)
        ensures
            o == self.first_row(),
    {
        self.offset
    }

    /// Scrolls so that the selected item, if there is one, is among the
    /// `height` rows that start at the first row: the first row moves only
    /// if it has to, and then by as little as possible. A position that
    /// would not fit in a `usize` stops at `usize::MAX`.
    pub fn scroll_into_view(&mut self, height: usize)
        ensures
            final(self).selection() == old(self).selection(),
            final(self).first_row() == first_row_for(
                old(self).first_row(),
                old(self).selection(),
                height,
            ),
    {
        if let Some(selected) = self.selected {
            if selected < self.offset {
                self.offset = selected;
            } else if selected - self.offset >= height {
                self.offset = (selected - height).saturating_add(1);
            }
        }
    }

    /// Moves the selection one item up. With nothing selected, the last of
    /// `len` items becomes selected.
    pub fn up(&mut self, len: usize)
        requires
            old(self).selection() is None ==> len > 0,
        ensures
            final(self).first_row() == old(self).first_row(),
            final(self).selection() == match old(self).selection() {
                Some(s) => Some(if s > 0 {
                    (s - 1) as usize
                } else {
                    s
                }),
                None => Some((len - 1) as usize),
            },
    {
        match self.selected {
            Some(selected) => {
                if selected > 0 {
                    self.select(selected - 1);
                }
            },
            None => self.select(len - 1),
        }
    }

    /// Moves the selection one item down, but not past the last of `len`
    /// items. With nothing selected, the first item becomes selected.
    pub fn down(&mut self, len: usize)
        ensures
            final(self).first_row() == old(self).first_row(),
            final(self).selection() == match old(self).selection() {
                Some(s) => Some(if s + 1 < len {
                    (s + 1) as usize
                } else {
                    s
                }),
                None => Some(0usize),
            },
    {
        match self.selected {
            Some(selected) => {
                if selected < len && selected + 1 < len {
                    self.select(selected + 1);
                }
            },
            None => self.select(0),
        }
    }
}

impl Default for ListState {
    fn default() -> (s: Self)
        ensures
            s.selection() is None,
            s.first_row() == 0,
    {
        Self { selected: None, offset: 0 }
    }
}

/// A list of text items.
#[derive(Clone)]
pub struct List {
    items: Vec<String>,
}

impl View for List {
    type V = Seq<String>;

    closed spec fn view(&self) -> Seq<String> {
        self.items@
    }
}

impl List {
    pub fn new(items: Vec<String>) -> (l: Self)
        ensures
            l@ == items@,
    {
        Self { items }
    }

    pub fn len(&self) -> (n: usize)
        ensures
            n == self@.len(),
    {
        self.items.len()
    }

    pub fn get(&self, index: usize) -> (item: Option<&String>)
        ensures
            item == if index < self@.len() {
                Some(&self@[index as int])
            } else {
                None
            },
    {
        if index < self.items.len() {
            Some(&self.items[index])
        } else {
            None
        }
    }

    /// The selected item, if an item is selected and the list has it.
    pub fn get_sel(&self, state: &ListState) -> (item: Option<&String>)
        ensures
            item == match state.selection() {
                Some(i) if i < self@.len() => Some(&self@[i as int]),
                _ => None,
            },
    {
        match state.selected {
            Some(i) => self.get(i),
            None => None,
        }
    }

    /// Lays the list out in `height` rows: scrolls `state` so that the
    /// selected item is in view, then gives the rows from top to bottom.
    /// Row `k` shows item `first_row + k`, and there are as many rows as
    /// items remain from the first row on, at most `height`.
    pub fn render_rows(&self, height: usize, state: &mut ListState) -> (rows: Vec<Row>)
        ensures
            final(state).selection() == old(state).selection(),
            final(state).first_row() == first_row_for(
                old(state).first_row(),
                old(state).selection(),
                height,
            ),
            rows@.len() == shown(
                self@.len() as int,
                final(state).first_row() as int,
                height as int,
            ),
            forall|k: int|
                0 <= k < rows@.len() ==> {
                    &&& (#[trigger] rows@[k]).index == final(state).first_row() + k
                    &&& rows@[k].selected == (final(state).selection() == Some(rows@[k].index))
                },
    {
        state.scroll_into_view(height);
        let first: usize = state.offset;
        let len: usize = self.items.len();
        let mut rows: Vec<Row> = Vec::new();
        let mut k: usize = 0;
        while k < height && first < len && k < len - first
            invariant
                len == self@.len(),
                first == state.first_row(),
                k <= height,
                first < len ==> k <= len - first,
                first >= len ==> k == 0,
                rows@.len() == k,
                forall|j: int|
                    0 <= j < k ==> {
                        &&& (#[trigger] rows@[j]).index == first + j
                        &&& rows@[j].selected == (state.selection() == Some(rows@[j].index))
                    },
            decreases height - k,
        {
            let index: usize = first + k;
            let selected = match state.selected {
                Some(s) => s == index,
                None => false,
            };
            rows.push(Row { index, selected });
            k += 1;
        }
        rows
    }
}

/// How many rows a list of `len` items fills when its first row shows item
/// `first` and there is room for `height` rows.
pub open spec fn shown(len: int, first: int, height: int) -> int {
    if first >= len {
        0
    } else if len - first < height {
        len - first
    } else {
        height
    }
}

} // verus!
