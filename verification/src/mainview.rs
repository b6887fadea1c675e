//! The main view's own logic: its light and dark modes, and the list of
//! compounder windows it keeps.

use vstd::prelude::*;
use crate::calendar::Date;
use crate::compounder::Compounder;

verus! {

/// The colour scheme of the interface.
#[derive(Clone, Copy, Debug, PartialEq, Eq, Structural)]
pub enum InterfaceMode {
    Dark,
    Light,
}

/// The other mode.
pub open spec fn other_mode(m: InterfaceMode) -> InterfaceMode {
    match m {
        InterfaceMode::Dark => InterfaceMode::Light,
        InterfaceMode::Light => InterfaceMode::Dark,
    }
}

/// Flipping the dark-mode switch twice returns to the mode one started
/// from, and a single flip always changes the mode.
pub proof fn lemma_toggle_twice(m: InterfaceMode)
    ensures
        other_mode(other_mode(m)) == m,
        other_mode(m) != m,
{
}

impl InterfaceMode {
    /// The other mode: what the dark-mode switch turns `self` into.
    pub fn toggled(self) -> (r: InterfaceMode)
        ensures
            r == other_mode(self),
    {
        match self {
            InterfaceMode::Dark => InterfaceMode::Light,
            InterfaceMode::Light => InterfaceMode::Dark,
        }
    }

    /// Whether `self` is the dark mode.
    pub fn is_dark(self) -> (r: bool)
        ensures
            r == (self == InterfaceMode::Dark),
    {
        match self {
            InterfaceMode::Dark => true,
            InterfaceMode::Light => false,
        }
    }
}

/// The open windows of `windows`, in their order.
pub open spec fn open_windows(windows: Seq<Compounder>) -> Seq<Compounder>
    decreases windows.len(),
{
    if windows.len() == 0 {
        Seq::empty()
    } else {
        (if windows[0].is_open { seq![windows[0]] } else { Seq::empty() }) + open_windows(
            windows.drop_first(),
        )
    }
}

/// Dropping the closed windows keeps exactly the open ones: every window
/// kept is open, each open window is kept, and a list of open windows is
/// left as it is.
pub proof fn lemma_open_windows(windows: Seq<Compounder>)
    ensures
        forall|i: int| 0 <= i < open_windows(windows).len() ==> (#[trigger] open_windows(windows)[i]).is_open,
        forall|i: int| 0 <= i < windows.len() && (#[trigger] windows[i]).is_open ==> open_windows(windows).contains(windows[i]),
        (forall|i: int| 0 <= i < windows.len() ==> (#[trigger] windows[i]).is_open) ==> open_windows(windows) == windows,
    decreases windows.len(),
{
    if windows.len() > 0 {
        let rest = windows.drop_first();
        lemma_open_windows(rest);
        let head: Seq<Compounder> = if windows[0].is_open { seq![windows[0]] } else { Seq::empty() };
        assert(open_windows(windows) == head + open_windows(rest));
        assert forall|i: int| 0 <= i < windows.len() && (#[trigger] windows[i]).is_open implies open_windows(windows).contains(windows[i]) by {
            if i == 0 {
                assert(open_windows(windows)[0] == windows[0]);
            } else {
                assert(windows[i] == rest[i - 1]);
                let j = choose|j: int| 0 <= j < open_windows(rest).len() && open_windows(rest)[j] == rest[i - 1];
                assert(open_windows(windows)[head.len() + j] == windows[i]);
            }
        }
        if forall|i: int| 0 <= i < windows.len() ==> (#[trigger] windows[i]).is_open {
            assert forall|i: int| 0 <= i < rest.len() implies (#[trigger] rest[i]).is_open by {
                assert(rest[i] == windows[i + 1]);
            }
            assert(open_windows(windows) =~= windows);
        }
    }
}

/// Whether a window is open.
pub open spec fn window_is_open() -> spec_fn(Compounder) -> bool {
    |w: Compounder| w.is_open
}

/// Dropping the closed windows is filtering the list by openness: each open
/// window is kept once, in its place in the order, and nothing else is kept.
pub proof fn lemma_open_windows_filter(windows: Seq<Compounder>)
    ensures
        open_windows(windows) == windows.filter(window_is_open()),
    decreases windows.len(),
{
    reveal_with_fuel(Seq::filter, 2);
    if windows.len() > 0 {
        let head = seq![windows[0]];
        let rest = windows.drop_first();
        lemma_open_windows_filter(rest);
        assert(windows == head + rest);
        Seq::filter_distributes_over_add(head, rest, window_is_open());
        assert(head.drop_last() == Seq::<Compounder>::empty());
    }
}

/// Drops the windows that were closed, keeping the open ones in order.
pub fn drop_closed(windows: &mut Vec<Compounder>)
    ensures
        final(windows)@ == open_windows(old(windows)@),
        final(windows)@ == old(windows)@.filter(window_is_open()),
{
    let mut rest: Vec<Compounder> = Vec::new();
    std::mem::swap(&mut rest, windows);
    let ghost all = rest@;
    while rest.len() > 0
        invariant
            open_windows(all) == windows@ + open_windows(rest@),
        decreases rest.len(),
    {
        let ghost before = rest@;
        let w = rest.remove(0);
        assert(before.drop_first() == rest@);
        if w.is_open {
            windows.push(w);
        }
    }
    proof {
        lemma_open_windows_filter(all);
    }
}

/// Opens a new compounder, with identifier `id` and opened on `today`,
/// when there is no window at all.
pub fn ensure_window(windows: &mut Vec<Compounder>, id: i64, today: Date)
    requires
        today.valid(),
    ensures
        old(windows)@.len() > 0 ==> final(windows)@ == old(windows)@,
        old(windows)@.len() == 0 ==> {
            &&& final(windows)@.len() == 1
            &&& final(windows)@[0].id == id
            &&& final(windows)@[0].fresh_on(today)
        },
{
    if windows.len() == 0 {
        windows.push(Compounder::new(id, today));
    }
}

} // verus!
