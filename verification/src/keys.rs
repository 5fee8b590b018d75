//! What a key press does in the interactive view: while a query is typed,
//! keys edit it; while an overlay is shown, a few keys close it; otherwise
//! keys move, expand, collapse, search and open overlays.
use vstd::prelude::*;

use crate::state::{with_path, without_path, AppState};

verus! {

/// A key, as the interactive view tells keys apart.
#[derive(Debug, Clone, Copy, PartialEq, Eq, Structural)]
pub enum Key {
    Up,
    Down,
    Left,
    Right,
    Enter,
    Esc,
    Backspace,
    Char(char),
    Other,
}

/// What the view does in answer to a key.
#[derive(Debug, Clone, Copy, PartialEq, Eq, Structural)]
pub enum Command {
    Quit,
    MoveUp,
    MoveDown,
    Expand,
    Collapse,
    StartSearch,
    CancelSearch,
    FinishSearch,
    SearchInput(char),
    SearchBackspace,
    NextMatch,
    PrevMatch,
    ShowEntities,
    ShowAttributes,
    CloseOverlay,
    Ignore,
}

/// The command for `key`: while typing a query, while an overlay is shown,
/// or otherwise.
pub open spec fn command_of(search_mode: bool, overlay_open: bool, key: Key) -> Command {
    if search_mode {
        match key {
            Key::Esc => Command::CancelSearch,
            Key::Enter => Command::FinishSearch,
            Key::Backspace => Command::SearchBackspace,
            Key::Char(c) => Command::SearchInput(c),
            _ => Command::Ignore,
        }
    } else if overlay_open {
        match key {
            Key::Esc => Command::CloseOverlay,
            Key::Char(c) => if c == 'q' || c == 'e' || c == 'a' {
                Command::CloseOverlay
            } else {
                Command::Ignore
            },
            _ => Command::Ignore,
        }
    } else {
        match key {
            Key::Up => Command::MoveUp,
            Key::Down => Command::MoveDown,
            Key::Enter => Command::Expand,
            Key::Right => Command::Expand,
            Key::Left => Command::Collapse,
            Key::Char(c) => if c == 'q' {
                Command::Quit
            } else if c == 'k' {
                Command::MoveUp
            } else if c == 'j' {
                Command::MoveDown
            } else if c == '/' {
                Command::StartSearch
            } else if c == 'e' {
                Command::ShowEntities
            } else if c == 'a' {
                Command::ShowAttributes
            } else if c == 'n' {
                Command::NextMatch
            } else if c == 'N' {
                Command::PrevMatch
            } else {
                Command::Ignore
            },
            _ => Command::Ignore,
        }
    }
}

impl AppState {
    /// No expanded path is listed twice, the selected search match is one of
    /// the matches, and nothing is selected while a query is typed.
    pub open spec fn consistent(&self) -> bool {
        &&& self.exp().no_duplicates()
        &&& self.search_mode ==> self.search_match_idx is None
        &&& self.search_match_idx matches Some(i) ==> i < self.search_matches@.len()
    }

    /// `fin` is the state after carrying out `c` from this one.
    pub open spec fn step_command(&self, fin: &Self, c: Command) -> bool {
        match c {
            Command::Quit => *fin == *self,
            Command::Ignore => *fin == *self,
            Command::MoveUp => self.step_move_up(fin),
            Command::MoveDown => self.step_move_down(fin),
            Command::Expand => self.step_expand(fin),
            Command::Collapse => self.step_collapse(fin),
            Command::StartSearch => self.step_start_search(fin),
            Command::CancelSearch => self.step_cancel_search(fin),
            Command::FinishSearch => self.step_finish_search(fin),
            Command::SearchInput(ch) => self.step_search_input(fin, ch),
            Command::SearchBackspace => self.step_search_backspace(fin),
            Command::NextMatch => self.step_next_match(fin),
            Command::PrevMatch => self.step_prev_match(fin),
            Command::ShowEntities => self.step_show_entities(fin),
            Command::ShowAttributes => self.step_show_attributes(fin),
            Command::CloseOverlay => self.step_close_overlay(fin),
        }
    }

    /// The command for a key event; a release or repeat does nothing.
    pub fn command_for(&self, key: Key, pressed: bool) -> (c: Command)
        ensures
            c == if pressed {
                command_of(self.search_mode, self.overlay is Some, key)
            } else {
                Command::Ignore
            },
    {
        if !pressed {
            return Command::Ignore;
        }
        if self.search_mode {
            match key {
                Key::Esc => Command::CancelSearch,
                Key::Enter => Command::FinishSearch,
                Key::Backspace => Command::SearchBackspace,
                Key::Char(c) => Command::SearchInput(c),
                _ => Command::Ignore,
            }
        } else if self.overlay.is_some() {
            match key {
                Key::Esc => Command::CloseOverlay,
                Key::Char(c) => if c == 'q' || c == 'e' || c == 'a' {
                    Command::CloseOverlay
                } else {
                    Command::Ignore
                },
                _ => Command::Ignore,
            }
        } else {
            match key {
                Key::Up => Command::MoveUp,
                Key::Down => Command::MoveDown,
                Key::Enter => Command::Expand,
                Key::Right => Command::Expand,
                Key::Left => Command::Collapse,
                Key::Char(c) => if c == 'q' {
                    Command::Quit
                } else if c == 'k' {
                    Command::MoveUp
                } else if c == 'j' {
                    Command::MoveDown
                } else if c == '/' {
                    Command::StartSearch
                } else if c == 'e' {
                    Command::ShowEntities
                } else if c == 'a' {
                    Command::ShowAttributes
                } else if c == 'n' {
                    Command::NextMatch
                } else if c == 'N' {
                    Command::PrevMatch
                } else {
                    Command::Ignore
                },
                _ => Command::Ignore,
            }
        }
    }

    /// Carries out `c`.
    pub fn apply(&mut self, c: Command)
        requires
            c is PrevMatch ==> (old(self).search_match_idx matches Some(i) ==> i
                <= old(self).search_matches@.len()),
        ensures
            old(self).step_command(final(self), c),
    {
        match c {
            Command::Quit => {},
            Command::Ignore => {},
            Command::MoveUp => self.move_up(),
            Command::MoveDown => self.move_down(),
            Command::Expand => self.expand(),
            Command::Collapse => self.collapse(),
            Command::StartSearch => self.start_search(),
            Command::CancelSearch => self.cancel_search(),
            Command::FinishSearch => self.finish_search(),
            Command::SearchInput(ch) => self.search_input(ch),
            Command::SearchBackspace => self.search_backspace(),
            Command::NextMatch => self.next_search_match(),
            Command::PrevMatch => self.prev_search_match(),
            Command::ShowEntities => self.show_entities(),
            Command::ShowAttributes => self.show_attributes(),
            Command::CloseOverlay => self.close_overlay(),
        }
    }

    /// Answers a key event; says whether the view is to close.
    pub fn handle_key(&mut self, key: Key, pressed: bool) -> (quit: bool)
        requires
            old(self).consistent(),
        ensures
            quit == (pressed && command_of(old(self).search_mode, old(self).overlay is Some, key)
                == Command::Quit),
            old(self).step_command(
                final(self),
                if pressed {
                    command_of(old(self).search_mode, old(self).overlay is Some, key)
                } else {
                    Command::Ignore
                },
            ),
            final(self).consistent(),
    {
        let c = self.command_for(key, pressed);
        let ghost before = *self;
        self.apply(c);
        proof {
            if pressed {
                law_keys_keep_consistent(before, *self, key);
            }
        }
        match c {
            Command::Quit => true,
            _ => false,
        }
    }
}

/// Whatever key is pressed, no expanded path comes to be listed twice, the
/// selected search match stays one of the matches, and nothing is selected
/// while a query is typed.
pub proof fn law_keys_keep_consistent(o: AppState, f: AppState, key: Key)
    requires
        o.consistent(),
        o.step_command(&f, command_of(o.search_mode, o.overlay is Some, key)),
    ensures
        f.consistent(),
{
    let c = command_of(o.search_mode, o.overlay is Some, key);
    if c is Expand && o.cursor < o.rows@.len() && o.rows@[o.cursor as int].has_children {
        lemma_with_path_distinct(o.exp(), o.rows@[o.cursor as int].path@);
    }
    if c is Collapse && o.cursor < o.rows@.len() && o.rows@[o.cursor as int].is_expanded {
        lemma_without_path_distinct(o.exp(), o.rows@[o.cursor as int].path@);
    }
}

proof fn lemma_with_path_distinct(exp: Seq<Seq<char>>, p: Seq<char>)
    requires
        exp.no_duplicates(),
    ensures
        with_path(exp, p).no_duplicates(),
{
}

proof fn lemma_without_path_distinct(exp: Seq<Seq<char>>, p: Seq<char>)
    requires
        exp.no_duplicates(),
    ensures
        without_path(exp, p).no_duplicates(),
        forall|x: Seq<char>| #[trigger] without_path(exp, p).contains(x) ==> exp.contains(x),
    decreases exp.len(),
{
    if exp.len() > 0 {
        let init = exp.drop_last();
        assert(init.no_duplicates());
        lemma_without_path_distinct(init, p);
        let rest = without_path(init, p);
        if exp.last() != p {
            assert forall|x: Seq<char>| #[trigger] rest.push(exp.last()).contains(x) implies exp.contains(x) by {
                if rest.contains(x) {
                    let k = choose|k: int| 0 <= k < init.len() && init[k] == x;
                    assert(exp[k] == x);
                }
            }
            assert(!rest.contains(exp.last())) by {
                if rest.contains(exp.last()) {
                    assert(init.contains(exp.last()));
                    let k = choose|k: int| 0 <= k < init.len() && init[k] == exp.last();
                    assert(exp[k] == exp[exp.len() - 1]);
                }
            }
        } else {
            assert forall|x: Seq<char>| #[trigger] rest.contains(x) implies exp.contains(x) by {
                let k = choose|k: int| 0 <= k < init.len() && init[k] == x;
                assert(exp[k] == x);
            }
        }
    }
}

} // verus!
