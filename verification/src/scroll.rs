//! Scrolling a list that is longer than the pane that shows it.

use vstd::prelude::*;

verus! {

/// The first line to show after scrolling down by one line, where `first` is
/// the first line shown now, the pane is `height` lines high and the list has
/// `count` lines: one further down, as long as the list has a line beyond
/// those that the pane can hold from there.
pub open spec fn scrolled_down(first: int, height: int, count: int) -> int {
    if first + height + 1 <= count {
        first + 1
    } else {
        first
    }
}

/// The first line to show after scrolling up by one line: one further up,
/// unless the first line of the list is shown already.
pub open spec fn scrolled_up(first: int) -> int {
    if first > 0 {
        first - 1
    } else {
        0
    }
}

/// The first line to show after scrolling down by one line.
pub fn scroll_down(first: usize, height: usize, count: usize) -> (r: usize)
    ensures
        r == scrolled_down(first as int, height as int, count as int),
{
    let reach = match first.checked_add(height) {
        Some(sum) => sum.checked_add(1),
        None => None,
    };
    match reach {
        Some(new_last_visible) => {
            if new_last_visible <= count {
                first + 1
            } else {
                first
            }
        },
        None => first,
    }
}

/// The first line to show after scrolling up by one line.
pub fn scroll_up(first: usize) -> (r: usize)
    ensures
        r == scrolled_up(first as int),
{
    if first > 0 {
        first - 1
    } else {
        0
    }
}

} // verus!
