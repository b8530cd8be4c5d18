//! Keys to actions: a fixed table per focused pane, a few keys that work
//! everywhere, and two-key sequences such as `]c` that start with a prefix.
use vstd::prelude::*;
use crate::state::{Focus, Mode, Overlay};

verus! {

/// What a key asks the application to do.
#[derive(Copy, Clone, PartialEq, Eq, Debug, Structural)]
pub enum Action {
    /// Nothing to do.
    Noop,
    Quit,
    Escape,
    ToggleHelp,
    ToggleMode,
    SetMode(Mode),
    CycleFocus(i8),
    Reload,
    ResizeTree(i16),
    TreeMove(isize),
    TreeHalfPage(i8),
    TreeFirst,
    TreeLast,
    TreeOpen,
    TreeCollapse,
    TreeToggle,
    ToggleIgnored,
    ToggleHierarchy,
    /// Orders the changes by path or by kind, in turn.
    CycleSort,
    /// Shows diffs side by side or in one column, in turn.
    ToggleUnified,
    /// Wraps long lines, or not, in turn.
    ToggleWrap,
    /// Opens the input line that filters the tree by file name.
    StartFilter,
    /// Opens the input line that searches the content pane.
    StartSearch,
    /// Shows the next hit of the search.
    NextMatch,
    /// Shows the previous hit of the search.
    PrevMatch,
    /// Adds a character to the open input line.
    InputChar(char),
    /// Takes the last character off the open input line.
    InputBackspace,
    /// Closes the input line and keeps what it did.
    InputSubmit,
    /// Closes the input line and undoes what it did.
    InputCancel,
    ContentScroll(isize),
    ContentHalfPage(i8),
    ContentPage(i8),
    ContentFirst,
    ContentLast,
    ContentHScroll(isize),
    NextHunk,
    PrevHunk,
    NextFile,
    PrevFile,
    ToggleFold,
    ExpandGap,
}

/// The keys the application tells apart.
#[derive(Copy, Clone, PartialEq, Eq, Debug, Structural)]
pub enum KeyCode {
    Char(char),
    Esc,
    Backspace,
    Tab,
    BackTab,
    Enter,
    Up,
    Down,
    Left,
    Right,
    Other,
}

/// A key event: the key, whether Ctrl was held, and whether it was released.
#[derive(Copy, Clone, PartialEq, Eq, Debug, Structural)]
pub struct KeyInput {
    pub code: KeyCode,
    pub ctrl: bool,
    pub release: bool,
}

/// The second key of a two-key sequence.
pub open spec fn prefixed_action(prefix: char, c: char) -> Action {
    if prefix == ']' && c == 'c' {
        Action::NextHunk
    } else if prefix == '[' && c == 'c' {
        Action::PrevHunk
    } else if prefix == ']' && c == 'f' {
        Action::NextFile
    } else if prefix == '[' && c == 'f' {
        Action::PrevFile
    } else {
        Action::Noop
    }
}

/// Keys while an overlay is open: only closing it.
pub open spec fn overlay_action(code: KeyCode) -> Action {
    if code == KeyCode::Char('q') || code == KeyCode::Esc || code == KeyCode::Char('?') {
        Action::Escape
    } else {
        Action::Noop
    }
}

/// Keys while the input line is open: they edit it.
pub open spec fn input_action(code: KeyCode, ctrl: bool) -> Action {
    match code {
        KeyCode::Esc => Action::InputCancel,
        KeyCode::Enter => Action::InputSubmit,
        KeyCode::Backspace => Action::InputBackspace,
        KeyCode::Char(c) => if ctrl { Action::Noop } else { Action::InputChar(c) },
        _ => Action::Noop,
    }
}

/// Keys that act whatever pane has the focus.
pub open spec fn global_action(code: KeyCode, ctrl: bool) -> Option<Action> {
    if code == KeyCode::Char('q') {
        Some(Action::Quit)
    } else if code == KeyCode::Esc {
        Some(Action::Escape)
    } else if code == KeyCode::Char('?') {
        Some(Action::ToggleHelp)
    } else if code == KeyCode::Char('m') {
        Some(Action::ToggleMode)
    } else if code == KeyCode::Char('t') {
        Some(Action::SetMode(Mode::Tree))
    } else if code == KeyCode::Char('d') && !ctrl {
        Some(Action::SetMode(Mode::Diff))
    } else if code == KeyCode::Char('r') {
        Some(Action::Reload)
    } else if code == KeyCode::Char('u') && !ctrl {
        Some(Action::ToggleUnified)
    } else if code == KeyCode::Char('w') {
        Some(Action::ToggleWrap)
    } else if code == KeyCode::Tab {
        Some(Action::CycleFocus(1i8))
    } else if code == KeyCode::BackTab {
        Some(Action::CycleFocus(-1i8))
    } else if code == KeyCode::Char('<') {
        Some(Action::ResizeTree(-1i16))
    } else if code == KeyCode::Char('>') {
        Some(Action::ResizeTree(1i16))
    } else if is_prefix(code) {
        Some(Action::Noop)
    } else {
        None
    }
}

/// `]` and `[` start a two-key sequence.
pub open spec fn is_prefix(code: KeyCode) -> bool {
    code == KeyCode::Char(']') || code == KeyCode::Char('[')
}

/// Keys of the tree pane.
pub open spec fn tree_action(code: KeyCode, ctrl: bool) -> Action {
    if code == KeyCode::Char('j') || code == KeyCode::Down {
        Action::TreeMove(1isize)
    } else if code == KeyCode::Char('k') || code == KeyCode::Up {
        Action::TreeMove(-1isize)
    } else if code == KeyCode::Char('d') && ctrl {
        Action::TreeHalfPage(1i8)
    } else if code == KeyCode::Char('u') && ctrl {
        Action::TreeHalfPage(-1i8)
    } else if code == KeyCode::Char('n') && ctrl {
        Action::NextFile
    } else if code == KeyCode::Char('p') && ctrl {
        Action::PrevFile
    } else if code == KeyCode::Char('g') {
        Action::TreeFirst
    } else if code == KeyCode::Char('G') {
        Action::TreeLast
    } else if code == KeyCode::Char('l') || code == KeyCode::Right || code == KeyCode::Enter {
        Action::TreeOpen
    } else if code == KeyCode::Char('h') || code == KeyCode::Left {
        Action::TreeCollapse
    } else if code == KeyCode::Char('z') {
        Action::TreeToggle
    } else if code == KeyCode::Char('I') {
        Action::ToggleIgnored
    } else if code == KeyCode::Char('T') {
        Action::ToggleHierarchy
    } else if code == KeyCode::Char('S') {
        Action::CycleSort
    } else if code == KeyCode::Char('/') {
        Action::StartFilter
    } else {
        Action::Noop
    }
}

/// Keys of the content pane.
pub open spec fn content_action(code: KeyCode, ctrl: bool) -> Action {
    if code == KeyCode::Char('j') || code == KeyCode::Down {
        Action::ContentScroll(1isize)
    } else if code == KeyCode::Char('k') || code == KeyCode::Up {
        Action::ContentScroll(-1isize)
    } else if code == KeyCode::Char('d') && ctrl {
        Action::ContentHalfPage(1i8)
    } else if code == KeyCode::Char('u') && ctrl {
        Action::ContentHalfPage(-1i8)
    } else if code == KeyCode::Char('f') && ctrl {
        Action::ContentPage(1i8)
    } else if code == KeyCode::Char('b') && ctrl {
        Action::ContentPage(-1i8)
    } else if code == KeyCode::Char('n') && ctrl {
        Action::NextHunk
    } else if code == KeyCode::Char('p') && ctrl {
        Action::PrevHunk
    } else if code == KeyCode::Char('g') {
        Action::ContentFirst
    } else if code == KeyCode::Char('G') {
        Action::ContentLast
    } else if code == KeyCode::Char('h') || code == KeyCode::Left {
        Action::ContentHScroll(-4isize)
    } else if code == KeyCode::Char('l') || code == KeyCode::Right {
        Action::ContentHScroll(4isize)
    } else if code == KeyCode::Char('z') {
        Action::ToggleFold
    } else if code == KeyCode::Char('/') {
        Action::StartSearch
    } else if code == KeyCode::Char('n') && !ctrl {
        Action::NextMatch
    } else if code == KeyCode::Char('N') {
        Action::PrevMatch
    } else if code == KeyCode::Enter {
        Action::ExpandGap
    } else {
        Action::Noop
    }
}

/// The action of a pressed key that does not complete a two-key sequence.
pub open spec fn plain_action(key: KeyInput, focus: Focus, overlay_open: bool, input_open: bool) -> Action {
    if key.ctrl && key.code == KeyCode::Char('c') {
        Action::Quit
    } else if input_open {
        input_action(key.code, key.ctrl)
    } else if overlay_open {
        overlay_action(key.code)
    } else if global_action(key.code, key.ctrl) is Some {
        global_action(key.code, key.ctrl)->0
    } else {
        match focus {
            Focus::Tree => tree_action(key.code, key.ctrl),
            Focus::Content => content_action(key.code, key.ctrl),
        }
    }
}

/// Whether a pressed key that does not complete a sequence starts one.
pub open spec fn starts_sequence(key: KeyInput, overlay_open: bool) -> bool {
    !(key.ctrl && key.code == KeyCode::Char('c')) && !overlay_open && is_prefix(key.code)
}

/// A key pressed alone, without Ctrl.
pub open spec fn bare(c: char) -> KeyInput {
    KeyInput { code: KeyCode::Char(c), ctrl: false, release: false }
}

/// The key table, with no overlay open: `m` `t` `d` switch the mode, `Tab`
/// moves the focus, `j` `k` move down and up, `g` `G` go to the first and
/// last line, `l` and `Enter` open, `/` filters the tree and searches the
/// content, `n` `N` go to the next and previous hit, `z` folds, `u` `w`
/// toggle the layout and wrapping, `I` `T` `S` toggle ignored files, the
/// hierarchy and the order, `r` reloads, `?` shows help and `q` quits.
pub proof fn lemma_key_table()
    ensures
        plain_action(bare('m'), Focus::Tree, false, false) == Action::ToggleMode,
        plain_action(bare('t'), Focus::Content, false, false) == Action::SetMode(Mode::Tree),
        plain_action(bare('d'), Focus::Content, false, false) == Action::SetMode(Mode::Diff),
        plain_action(KeyInput { code: KeyCode::Tab, ctrl: false, release: false }, Focus::Tree, false, false)
            == Action::CycleFocus(1i8),
        plain_action(bare('j'), Focus::Tree, false, false) == Action::TreeMove(1isize),
        plain_action(bare('k'), Focus::Tree, false, false) == Action::TreeMove(-1isize),
        plain_action(bare('j'), Focus::Content, false, false) == Action::ContentScroll(1isize),
        plain_action(bare('k'), Focus::Content, false, false) == Action::ContentScroll(-1isize),
        plain_action(KeyInput { code: KeyCode::Char('d'), ctrl: true, release: false }, Focus::Content, false, false)
            == Action::ContentHalfPage(1i8),
        plain_action(KeyInput { code: KeyCode::Char('u'), ctrl: true, release: false }, Focus::Content, false, false)
            == Action::ContentHalfPage(-1i8),
        plain_action(bare('g'), Focus::Tree, false, false) == Action::TreeFirst,
        plain_action(bare('G'), Focus::Tree, false, false) == Action::TreeLast,
        plain_action(bare('g'), Focus::Content, false, false) == Action::ContentFirst,
        plain_action(bare('G'), Focus::Content, false, false) == Action::ContentLast,
        plain_action(bare('l'), Focus::Tree, false, false) == Action::TreeOpen,
        plain_action(KeyInput { code: KeyCode::Enter, ctrl: false, release: false }, Focus::Tree, false, false)
            == Action::TreeOpen,
        plain_action(KeyInput { code: KeyCode::Enter, ctrl: false, release: false }, Focus::Content, false, false)
            == Action::ExpandGap,
        plain_action(bare('/'), Focus::Tree, false, false) == Action::StartFilter,
        plain_action(bare('/'), Focus::Content, false, false) == Action::StartSearch,
        plain_action(bare('n'), Focus::Content, false, false) == Action::NextMatch,
        plain_action(bare('N'), Focus::Content, false, false) == Action::PrevMatch,
        plain_action(bare('z'), Focus::Tree, false, false) == Action::TreeToggle,
        plain_action(bare('z'), Focus::Content, false, false) == Action::ToggleFold,
        plain_action(bare('u'), Focus::Content, false, false) == Action::ToggleUnified,
        plain_action(bare('w'), Focus::Content, false, false) == Action::ToggleWrap,
        plain_action(bare('I'), Focus::Tree, false, false) == Action::ToggleIgnored,
        plain_action(bare('T'), Focus::Tree, false, false) == Action::ToggleHierarchy,
        plain_action(bare('S'), Focus::Tree, false, false) == Action::CycleSort,
        plain_action(bare('r'), Focus::Content, false, false) == Action::Reload,
        plain_action(bare('?'), Focus::Content, false, false) == Action::ToggleHelp,
        plain_action(bare('q'), Focus::Tree, false, false) == Action::Quit,
        starts_sequence(bare(']'), false) && starts_sequence(bare('['), false),
{
}

/// Maps keys to actions, remembering the prefix key of a two-key sequence.
#[derive(Debug, Default)]
pub struct KeyMap {
    pub pending: Option<char>,
}

fn global_key(code: KeyCode, ctrl: bool) -> (a: Option<Action>)
    ensures
        a == global_action(code, ctrl),
{
    match code {
        KeyCode::Char('q') => Some(Action::Quit),
        KeyCode::Esc => Some(Action::Escape),
        KeyCode::Char('?') => Some(Action::ToggleHelp),
        KeyCode::Char('m') => Some(Action::ToggleMode),
        KeyCode::Char('t') => Some(Action::SetMode(Mode::Tree)),
        KeyCode::Char('d') => if !ctrl { Some(Action::SetMode(Mode::Diff)) } else { None },
        KeyCode::Char('r') => Some(Action::Reload),
        KeyCode::Char('u') => if !ctrl { Some(Action::ToggleUnified) } else { None },
        KeyCode::Char('w') => Some(Action::ToggleWrap),
        KeyCode::Tab => Some(Action::CycleFocus(1)),
        KeyCode::BackTab => Some(Action::CycleFocus(-1)),
        KeyCode::Char('<') => Some(Action::ResizeTree(-1)),
        KeyCode::Char('>') => Some(Action::ResizeTree(1)),
        KeyCode::Char(']') => Some(Action::Noop),
        KeyCode::Char('[') => Some(Action::Noop),
        _ => None,
    }
}

impl KeyMap {
    pub fn new() -> (k: KeyMap)
        ensures
            k.pending is None,
    {
        KeyMap { pending: None }
    }

    /// The action of `key`, given the focused pane and whether an overlay is open.
    pub fn map(&mut self, key: KeyInput, focus: Focus, overlay: &Overlay) -> (a: Action)
        ensures
            key.release ==> a == Action::Noop && final(self).pending == old(self).pending,
            !key.release && old(self).pending is Some && key.code is Char ==> {
                &&& a == prefixed_action(old(self).pending->0, key.code->0)
                &&& final(self).pending is None
            },
            !key.release && !(old(self).pending is Some && key.code is Char) ==> {
                &&& a == plain_action(key, focus, !(*overlay is Closed), *overlay is Input)
                &&& final(self).pending == if starts_sequence(key, !(*overlay is Closed)) {
                    Some(key.code->0)
                } else {
                    None::<char>
                }
            },
            !key.release && old(self).pending == Some(']') && key.code == KeyCode::Char('c') ==> a == Action::NextHunk,
            !key.release && old(self).pending == Some('[') && key.code == KeyCode::Char('c') ==> a == Action::PrevHunk,
            !key.release && old(self).pending == Some(']') && key.code == KeyCode::Char('f') ==> a == Action::NextFile,
            !key.release && old(self).pending == Some('[') && key.code == KeyCode::Char('f') ==> a == Action::PrevFile,
    {
        if key.release {
            return Action::Noop;
        }
        let prev = self.pending;
        self.pending = None;
        match (prev, key.code) {
            (Some(prefix), KeyCode::Char(c)) => {
                return if prefix == ']' && c == 'c' {
                    Action::NextHunk
                } else if prefix == '[' && c == 'c' {
                    Action::PrevHunk
                } else if prefix == ']' && c == 'f' {
                    Action::NextFile
                } else if prefix == '[' && c == 'f' {
                    Action::PrevFile
                } else {
                    Action::Noop
                };
            },
            _ => {},
        }
        if key.ctrl && key.code == KeyCode::Char('c') {
            return Action::Quit;
        }
        match overlay {
            Overlay::Closed => {},
            Overlay::Input { .. } => {
                return match key.code {
                    KeyCode::Esc => Action::InputCancel,
                    KeyCode::Enter => Action::InputSubmit,
                    KeyCode::Backspace => Action::InputBackspace,
                    KeyCode::Char(c) => if key.ctrl { Action::Noop } else { Action::InputChar(c) },
                    _ => Action::Noop,
                };
            },
            _ => {
                return if key.code == KeyCode::Char('q') || key.code == KeyCode::Esc || key.code == KeyCode::Char('?') {
                    Action::Escape
                } else {
                    Action::Noop
                };
            },
        }
        match global_key(key.code, key.ctrl) {
            Some(a) => {
                match key.code {
                    KeyCode::Char(c) => {
                        if c == ']' || c == '[' {
                            self.pending = Some(c);
                        }
                    },
                    _ => {},
                }
                return a;
            },
            None => {},
        }
        match focus {
            Focus::Tree => self.map_tree(key, key.ctrl),
            Focus::Content => self.map_content(key, key.ctrl),
        }
    }

    pub fn map_tree(&mut self, key: KeyInput, ctrl: bool) -> (a: Action)
        ensures
            a == tree_action(key.code, ctrl),
            final(self).pending == old(self).pending,
    {
        match key.code {
            KeyCode::Char('j') | KeyCode::Down => Action::TreeMove(1),
            KeyCode::Char('k') | KeyCode::Up => Action::TreeMove(-1),
            KeyCode::Char('d') if ctrl => Action::TreeHalfPage(1),
            KeyCode::Char('u') if ctrl => Action::TreeHalfPage(-1),
            KeyCode::Char('n') if ctrl => Action::NextFile,
            KeyCode::Char('p') if ctrl => Action::PrevFile,
            KeyCode::Char('g') => Action::TreeFirst,
            KeyCode::Char('G') => Action::TreeLast,
            KeyCode::Char('l') | KeyCode::Right | KeyCode::Enter => Action::TreeOpen,
            KeyCode::Char('h') | KeyCode::Left => Action::TreeCollapse,
            KeyCode::Char('z') => Action::TreeToggle,
            KeyCode::Char('I') => Action::ToggleIgnored,
            KeyCode::Char('T') => Action::ToggleHierarchy,
            KeyCode::Char('S') => Action::CycleSort,
            KeyCode::Char('/') => Action::StartFilter,
            _ => Action::Noop,
        }
    }

    pub fn map_content(&mut self, key: KeyInput, ctrl: bool) -> (a: Action)
        ensures
            a == content_action(key.code, ctrl),
            final(self).pending == old(self).pending,
    {
        match key.code {
            KeyCode::Char('j') | KeyCode::Down => Action::ContentScroll(1),
            KeyCode::Char('k') | KeyCode::Up => Action::ContentScroll(-1),
            KeyCode::Char('d') if ctrl => Action::ContentHalfPage(1),
            KeyCode::Char('u') if ctrl => Action::ContentHalfPage(-1),
            KeyCode::Char('f') if ctrl => Action::ContentPage(1),
            KeyCode::Char('b') if ctrl => Action::ContentPage(-1),
            KeyCode::Char('n') if ctrl => Action::NextHunk,
            KeyCode::Char('p') if ctrl => Action::PrevHunk,
            KeyCode::Char('g') => Action::ContentFirst,
            KeyCode::Char('G') => Action::ContentLast,
            KeyCode::Char('h') | KeyCode::Left => Action::ContentHScroll(-4),
            KeyCode::Char('l') | KeyCode::Right => Action::ContentHScroll(4),
            KeyCode::Char('z') => Action::ToggleFold,
            KeyCode::Char('/') => Action::StartSearch,
            KeyCode::Char('n') => Action::NextMatch,
            KeyCode::Char('N') => Action::PrevMatch,
            KeyCode::Enter => Action::ExpandGap,
            _ => Action::Noop,
        }
    }
}

} // verus!
