//! The picker's decisions: what a command does to the results list and the
//! selections, and whether the pick ends (accepted or aborted).
use vstd::prelude::*;

use crate::collections::{cycled, Selector};
use crate::results::{cursor_jumped, next_step, prev_step, ResultsUI};
use crate::tui::sat_sub;

verus! {

/// A command for the picker.
#[derive(Debug, Clone, Copy, PartialEq, Eq)]
pub enum PickerCommand {
    /// Select the current item.
    Select,
    /// Deselect the current item.
    Deselect,
    /// Select the current item, or deselect it when selected.
    ToggleSelection,
    /// Deselect everything.
    ClearSelections,
    /// Select all matched items, or deselect everything when all are.
    CycleSelections,
    /// End the pick with the selection.
    Accept,
    /// End the pick with an exit code.
    Quit(i32),
    /// Turn wrapping of the results on or off.
    ToggleWrap,
    /// Move the cursor up (down when the list is reversed).
    Up(u16),
    /// Move the cursor down (up when the list is reversed).
    Down(u16),
    /// Move up by half the height, rounded up.
    HalfPageUp,
    /// Move down by half the height, rounded up.
    HalfPageDown,
    /// Jump to an item; a negative position counts from the end.
    Pos(i32),
}

/// What a command leads to.
#[derive(Debug, Clone, PartialEq, Eq)]
pub enum StepOutcome {
    /// The pick goes on.
    Continue,
    /// The command was refused; nothing changed.
    Ignored,
    /// The pick ends with these items.
    Accept(Vec<u32>),
    /// The pick ends with this exit code.
    Abort(i32),
}

/// The picker's state that commands change.
pub struct PickerModel {
    pub results: ResultsUI,
    pub selector: Selector,
    /// Whether Accept may end the pick with nothing selected and no item.
    pub allow_empty: bool,
}

impl PickerModel {
    /// The results keep their row caches and the selections have no
    /// duplicate.
    pub open spec fn wf(&self) -> bool {
        self.results.wf() && self.selector.wf()
    }
}

/// The items Accept ends with: the selections in order, else the current
/// item, if any.
pub open spec fn accepted(sel: Seq<u32>, current: Option<u32>) -> Seq<u32> {
    if sel.len() > 0 {
        sel
    } else {
        match current {
            Some(c) => seq![c],
            None => Seq::empty(),
        }
    }
}

/// Whether Accept is refused: nothing selected, no current item, and an
/// empty pick not allowed.
pub open spec fn accept_refused(sel: Seq<u32>, current: Option<u32>, allow_empty: bool) -> bool {
    sel.len() == 0 && current is None && !allow_empty
}

/// The item a position names: itself when not negative, else counted back
/// from the number of matched items (0 at the least).
pub open spec fn pos_index(pos: i32, matched: u32) -> u32 {
    if pos >= 0 {
        pos as u32
    } else {
        sat_sub(matched as int, -(pos as int)) as u32
    }
}

/// Whether the cursor can take a step without leaving the item indices.
pub open spec fn can_step(r: ResultsUI) -> bool {
    r.cursor + r.bottom <= u32::MAX && r.bottom + r.height <= u32::MAX
}

/// One step of the cursor, down when `down`.
pub open spec fn stepped(o: ResultsUI, f: ResultsUI, down: bool) -> bool {
    exists|w: bool| if down {
        next_step(o, f, w)
    } else {
        prev_step(o, f, w)
    }
}

/// Whether `states` are the results after each step, down when `down`, and
/// all `n` steps were taken unless the cursor could take no more.
pub open spec fn steps(states: Seq<ResultsUI>, down: bool, n: nat) -> bool {
    &&& 1 <= states.len() <= n + 1
    &&& forall|i: int| 0 <= i < states.len() - 1 ==> #[trigger] stepped(states[i], states[i + 1], down)
    &&& states.len() == n + 1 || !can_step(states.last())
}

/// Whether the results went from `o` to `f` by `n` steps of the cursor
/// (fewer when it could take no more), down when `down`.
pub open spec fn moved_by(o: ResultsUI, f: ResultsUI, down: bool, n: nat) -> bool {
    exists|states: Seq<ResultsUI>|
        #[trigger] steps(states, down, n) && states[0] == o && states.last() == f
}

/// The steps a command moves the cursor, and whether down (before the
/// list's direction is taken into account).
pub open spec fn move_of(cmd: PickerCommand, height: u16) -> Option<(nat, bool)> {
    match cmd {
        PickerCommand::Up(n) => Some((n as nat, false)),
        PickerCommand::Down(n) => Some((n as nat, true)),
        PickerCommand::HalfPageUp => Some((((height + 1) / 2) as nat, false)),
        PickerCommand::HalfPageDown => Some((((height + 1) / 2) as nat, true)),
        _ => None,
    }
}

/// What a selection command does to the selections, given the current
/// item and the matched items.
pub open spec fn selection_after(cmd: PickerCommand, sel: Seq<u32>, current: Option<u32>, matched: Seq<u32>) -> Seq<u32> {
    match cmd {
        PickerCommand::Select => match current {
            Some(c) => if sel.contains(c) {
                sel
            } else {
                sel.push(c)
            },
            None => sel,
        },
        PickerCommand::Deselect => match current {
            Some(c) => sel.filter(|y: u32| y != c),
            None => sel,
        },
        PickerCommand::ToggleSelection => match current {
            Some(c) => if sel.contains(c) {
                sel.filter(|y: u32| y != c)
            } else {
                sel.push(c)
            },
            None => sel,
        },
        PickerCommand::ClearSelections => Seq::empty(),
        PickerCommand::CycleSelections => cycled(sel, matched),
        _ => sel,
    }
}

/// Whether the command changes the selections (and so drops the rows built).
pub open spec fn touches_selection(cmd: PickerCommand, current: Option<u32>) -> bool {
    match cmd {
        PickerCommand::Select | PickerCommand::Deselect | PickerCommand::ToggleSelection => current is Some,
        PickerCommand::ClearSelections | PickerCommand::CycleSelections => true,
        _ => false,
    }
}

/// What Accept gives (see [`accepted`] and [`accept_refused`]).
fn accept_outcome(selector: &Selector, allow_empty: bool, current: Option<u32>) -> (r: StepOutcome)
    ensures
        if accept_refused(selector@, current, allow_empty) {
            r == StepOutcome::Ignored
        } else {
            r matches StepOutcome::Accept(v) && v@ == accepted(selector@, current)
        },
{
    if selector.len() == 0 && current.is_none() && !allow_empty {
        return StepOutcome::Ignored;
    }
    let mut v = selector.items();
    if v.len() == 0 {
        match current {
            Some(c) => {
                v.push(c);
                proof {
                    assert(v@ =~= seq![c]);
                }
            },
            None => {},
        }
    }
    StepOutcome::Accept(v)
}

/// Carries out one command: `current` is the item under the cursor (as the
/// matcher finds it) and `matched` the matched items.
/// - Accept ends the pick with the selections, or the current item when
///   nothing is selected, unless nothing is selected, there is no current
///   item and an empty pick is not allowed: then it is ignored.
/// - Quit ends the pick with its code.
/// - Up and Down (and half pages) move the cursor step by step, the other
///   way when the list is reversed.
/// - Pos jumps to an item, a negative one counted from the end.
/// - The selection commands change the selections and drop the rows built.
/// - ToggleWrap turns wrapping over.
pub fn picker_step(state: &mut PickerModel, cmd: &PickerCommand, current: Option<u32>, matched: &Vec<u32>) -> (r: StepOutcome)
    requires
        old(state).wf(),
    ensures
        final(state).wf(),
        final(state).allow_empty == old(state).allow_empty,
        match *cmd {
            PickerCommand::Accept => if accept_refused(old(state).selector@, current, old(state).allow_empty) {
                r == StepOutcome::Ignored
            } else {
                r matches StepOutcome::Accept(v) && v@ == accepted(old(state).selector@, current)
            },
            PickerCommand::Quit(c) => r == StepOutcome::Abort(c),
            _ => r == StepOutcome::Continue,
        },
        match *cmd {
            PickerCommand::Accept => final(state).selector@ == old(state).selector@ && final(state).results
                == old(state).results,
            PickerCommand::Quit(_) => final(state).selector@ == old(state).selector@ && final(state).results
                == old(state).results,
            PickerCommand::Pos(p) => final(state).selector@ == old(state).selector@
                && (old(state).results.bottom + old(state).results.height <= u32::MAX ==> cursor_jumped(
                old(state).results,
                final(state).results,
                pos_index(p, old(state).results.status.matched_count),
            )) && (old(state).results.bottom + old(state).results.height > u32::MAX ==> final(state).results
                == old(state).results),
            PickerCommand::ToggleWrap => final(state).selector@ == old(state).selector@
                && final(state).results.config.wrap == !old(state).results.config.wrap,
            _ => match move_of(*cmd, old(state).results.height) {
                Some((n, down)) => final(state).selector@ == old(state).selector@ && moved_by(
                    old(state).results,
                    final(state).results,
                    down != old(state).results.spec_reverse(),
                    n,
                ),
                None => final(state).selector@ == selection_after(
                    *cmd,
                    old(state).selector@,
                    current,
                    matched@,
                ) && (touches_selection(*cmd, current) ==> final(state).results.rows().len() == 0
                    && final(state).results.cursor == old(state).results.cursor && final(state).results.bottom
                    == old(state).results.bottom) && (!touches_selection(*cmd, current) ==> final(state).results
                    == old(state).results),
            },
        },
{
    match *cmd {
        PickerCommand::Accept => {
            accept_outcome(&state.selector, state.allow_empty, current)
        },
        PickerCommand::Quit(c) => StepOutcome::Abort(c),
        PickerCommand::ToggleWrap => {
            let w = state.results.is_wrap();
            state.results.wrap(!w);
            StepOutcome::Continue
        },
        PickerCommand::Pos(p) => {
            let idx: u32 = if p >= 0 {
                p as u32
            } else {
                let back: u32 = (0i64 - p as i64) as u32;
                state.results.status.matched_count.saturating_sub(back)
            };
            if (state.results.bottom as u64) + (state.results.height as u64) <= 4294967295u64 {
                state.results.cursor_jump(idx);
            }
            StepOutcome::Continue
        },
        PickerCommand::Up(_) | PickerCommand::Down(_) | PickerCommand::HalfPageUp | PickerCommand::HalfPageDown => {
            let h = state.results.height();
            let (n, down): (u32, bool) = match *cmd {
                PickerCommand::Up(n) => (n as u32, false),
                PickerCommand::Down(n) => (n as u32, true),
                PickerCommand::HalfPageUp => ((h as u32 + 1) / 2, false),
                _ => ((h as u32 + 1) / 2, true),
            };
            let next = down != state.results.reverse();
            let ghost first = state.results;
            let ghost mut states: Seq<ResultsUI> = seq![state.results];
            let mut k: u32 = 0;
            let mut movable = (state.results.cursor as u64) + (state.results.bottom as u64) <= 4294967295u64
                && (state.results.bottom as u64) + (state.results.height as u64) <= 4294967295u64;
            while k < n && movable
                invariant
                    k <= n,
                    states.len() == k + 1,
                    states[0] == first,
                    states.last() == state.results,
                    forall|i: int| 0 <= i < states.len() - 1 ==> #[trigger] stepped(states[i], states[i + 1], next),
                    movable == can_step(state.results),
                    state.selector@ == old(state).selector@,
                    state.selector.wf(),
                    state.allow_empty == old(state).allow_empty,
                    state.results.row_cache@.len() == 2,
                    state.results.config == first.config,
                decreases n - k,
            {
                let ghost before = state.results;
                if next {
                    let w = state.results.cursor_next();
                    proof {
                        assert(stepped(before, state.results, next)) by {
                            assert(next_step(before, state.results, w));
                        }
                    }
                } else {
                    let w = state.results.cursor_prev();
                    proof {
                        assert(stepped(before, state.results, next)) by {
                            assert(prev_step(before, state.results, w));
                        }
                    }
                }
                proof {
                    let old_states = states;
                    states = states.push(state.results);
                    assert forall|i: int| 0 <= i < states.len() - 1 implies #[trigger] stepped(
                        states[i],
                        states[i + 1],
                        next,
                    ) by {
                        if i < old_states.len() - 1 {
                            assert(states[i] == old_states[i] && states[i + 1] == old_states[i + 1]);
                        }
                    }
                }
                k = k + 1;
                movable = (state.results.cursor as u64) + (state.results.bottom as u64) <= 4294967295u64
                    && (state.results.bottom as u64) + (state.results.height as u64) <= 4294967295u64;
            }
            proof {
                assert(steps(states, next, n as nat));
                assert(moved_by(first, state.results, next, n as nat));
            }
            StepOutcome::Continue
        },
        _ => {
            match *cmd {
                PickerCommand::Select => {
                    match current {
                        Some(c) => {
                            state.selector.insert(c);
                            state.results.set_dirty();
                        },
                        None => {},
                    }
                },
                PickerCommand::Deselect => {
                    match current {
                        Some(c) => {
                            state.selector.shift_remove(c);
                            state.results.set_dirty();
                        },
                        None => {},
                    }
                },
                PickerCommand::ToggleSelection => {
                    match current {
                        Some(c) => {
                            if state.selector.contains(c) {
                                state.selector.shift_remove(c);
                            } else {
                                state.selector.insert(c);
                            }
                            state.results.set_dirty();
                        },
                        None => {},
                    }
                },
                PickerCommand::ClearSelections => {
                    state.selector.clear();
                    state.results.set_dirty();
                },
                _ => {
                    state.selector.cycle_all_bg(matched);
                    state.results.set_dirty();
                },
            }
            StepOutcome::Continue
        },
    }
}

/// Accept ends the pick with the selections, in order, whenever there are
/// any; with none, with the current item alone; it is refused only when
/// there is neither and an empty pick is not allowed.
pub proof fn law_accept_gives_the_selection(sel: Seq<u32>, current: Option<u32>, allow_empty: bool)
    ensures
        sel.len() > 0 ==> !accept_refused(sel, current, allow_empty) && accepted(sel, current) == sel,
        sel.len() == 0 && current is Some ==> !accept_refused(sel, current, allow_empty) && accepted(sel, current)
            == seq![current.unwrap()],
        allow_empty ==> !accept_refused(sel, current, allow_empty),
        accept_refused(sel, current, allow_empty) <==> (sel.len() == 0 && current is None && !allow_empty),
        !accept_refused(sel, current, allow_empty) ==> forall|x: u32| #[trigger]
            accepted(sel, current).contains(x) ==> sel.contains(x) || current == Some(x),
{
    if sel.len() == 0 && current is Some {
        assert(seq![current.unwrap()][0] == current.unwrap());
    }
    assert forall|x: u32| #[trigger] accepted(sel, current).contains(x) implies sel.contains(x) || current == Some(
        x,
    ) by {
        if sel.len() == 0 && current is Some {
            let k = choose|k: int| 0 <= k < accepted(sel, current).len() && accepted(sel, current)[k] == x;
            assert(k == 0);
        }
    }
}

/// A position that is not negative names that item; a negative one counts
/// back from the number of matched items (`-1` the last), stopping at the
/// first item.
pub proof fn law_positions_count_from_either_end(pos: i32, matched: u32)
    ensures
        pos >= 0 ==> pos_index(pos, matched) == pos,
        pos < 0 && -pos <= matched ==> pos_index(pos, matched) == matched + pos,
        pos < 0 && -pos > matched ==> pos_index(pos, matched) == 0,
        pos < 0 ==> pos_index(pos, matched) < matched || matched == 0,
{
}

/// The selection commands: Select makes the current item selected (last,
/// when it was not), Deselect makes it unselected keeping the others in
/// order, Toggle flips it, Clear empties the selection; no other item
/// changes, and without a current item nothing changes.
pub proof fn law_selection_commands(sel: Seq<u32>, c: u32, x: u32, matched: Seq<u32>)
    requires
        sel.no_duplicates(),
    ensures
        selection_after(PickerCommand::Select, sel, Some(c), matched).contains(c),
        !sel.contains(c) ==> selection_after(PickerCommand::Select, sel, Some(c), matched) == sel.push(c),
        !selection_after(PickerCommand::Deselect, sel, Some(c), matched).contains(c),
        selection_after(PickerCommand::ToggleSelection, sel, Some(c), matched).contains(c) == !sel.contains(c),
        x != c ==> (selection_after(PickerCommand::Select, sel, Some(c), matched).contains(x) == sel.contains(x)),
        x != c ==> (selection_after(PickerCommand::Deselect, sel, Some(c), matched).contains(x) == sel.contains(x)),
        x != c ==> (selection_after(PickerCommand::ToggleSelection, sel, Some(c), matched).contains(x)
            == sel.contains(x)),
        selection_after(PickerCommand::ClearSelections, sel, Some(c), matched).len() == 0,
        selection_after(PickerCommand::Select, sel, None, matched) == sel,
        selection_after(PickerCommand::Deselect, sel, None, matched) == sel,
        selection_after(PickerCommand::ToggleSelection, sel, None, matched) == sel,
{
    let pred = |y: u32| y != c;
    let f = sel.filter(pred);
    sel.filter_lemma(pred);
    crate::collections::lemma_filter_contains_iff(sel, pred, x);
    crate::collections::lemma_filter_contains_iff(sel, pred, c);
    assert(sel.push(c)[sel.len() as int] == c);
    if f.contains(c) {
        let k = choose|k: int| 0 <= k < f.len() && f[k] == c;
        assert(pred(f[k]));
    }
    if x != c {
        if sel.contains(x) {
            let k = choose|k: int| 0 <= k < sel.len() && sel[k] == x;
            assert(sel.push(c)[k] == x);
            sel.lemma_filter_contains_rev(pred, x);
        }
        if sel.push(c).contains(x) {
            let k = choose|k: int| 0 <= k < sel.push(c).len() && sel.push(c)[k] == x;
            assert(sel[k] == x);
        }
    }
}

/// A step down moves the cursor to the next item (unless at the last one,
/// or the row count would overflow), a step up to the previous one (unless
/// at the first); Down and half pages down step down, Up and half pages up
/// step up, the other way round on a reversed list.
pub proof fn law_steps_move_one_item(o: ResultsUI, f: ResultsUI, cmd: PickerCommand, h: u16)
    ensures
        (stepped(o, f, true) && o.cursor + o.bottom < o.spec_end() && o.cursor < u16::MAX) ==> f.cursor + f.bottom
            == o.cursor + o.bottom + 1,
        (stepped(o, f, false) && (o.cursor > 0 || o.bottom > 0)) ==> f.cursor + f.bottom == o.cursor + o.bottom - 1,
        (stepped(o, f, true) || stepped(o, f, false)) ==> !f.cursor_disabled && f.status == o.status,
        cmd matches PickerCommand::Down(n) ==> move_of(cmd, h) == Some((n as nat, true)),
        cmd matches PickerCommand::Up(n) ==> move_of(cmd, h) == Some((n as nat, false)),
        cmd == PickerCommand::HalfPageDown ==> move_of(cmd, h) == Some((((h + 1) / 2) as nat, true)),
        cmd == PickerCommand::HalfPageUp ==> move_of(cmd, h) == Some((((h + 1) / 2) as nat, false)),
{
}

} // verus!
