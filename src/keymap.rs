//! Key events, editor actions and the bindings between them.
use vstd::prelude::*;

verus! {

/// Which modifier keys are held.
#[derive(Debug, Clone, Copy, PartialEq, Eq, Hash, Default, Structural)]
pub struct Modifier {
    pub ctrl: bool,
    pub alt: bool,
    pub shift: bool,
}

impl Modifier {
    pub fn none() -> (r: Modifier)
        ensures
            r == (Modifier { ctrl: false, alt: false, shift: false }),
    {
        Modifier { ctrl: false, alt: false, shift: false }
    }

    pub fn ctrl() -> (r: Modifier)
        ensures
            r == (Modifier { ctrl: true, alt: false, shift: false }),
    {
        Modifier { ctrl: true, alt: false, shift: false }
    }

    pub fn alt() -> (r: Modifier)
        ensures
            r == (Modifier { ctrl: false, alt: true, shift: false }),
    {
        Modifier { ctrl: false, alt: true, shift: false }
    }

    pub fn shift() -> (r: Modifier)
        ensures
            r == (Modifier { ctrl: false, alt: false, shift: true }),
    {
        Modifier { ctrl: false, alt: false, shift: true }
    }

    pub fn ctrl_shift() -> (r: Modifier)
        ensures
            r == (Modifier { ctrl: true, alt: false, shift: true }),
    {
        Modifier { ctrl: true, alt: false, shift: true }
    }

    pub fn ctrl_alt() -> (r: Modifier)
        ensures
            r == (Modifier { ctrl: true, alt: true, shift: false }),
    {
        Modifier { ctrl: true, alt: true, shift: false }
    }

    pub fn alt_shift() -> (r: Modifier)
        ensures
            r == (Modifier { ctrl: false, alt: true, shift: true }),
    {
        Modifier { ctrl: false, alt: true, shift: true }
    }
}

/// A key press with its modifiers.
#[derive(Debug, Clone, Copy, PartialEq, Eq, Hash, Structural)]
pub struct KeyEvent {
    pub key: Key,
    pub modifiers: Modifier,
}

impl KeyEvent {
    pub fn new(key: Key, modifiers: Modifier) -> (r: KeyEvent)
        ensures
            r == (KeyEvent { key, modifiers }),
    {
        KeyEvent { key, modifiers }
    }

    /// `c` with no modifier.
    pub fn char(c: char) -> (r: KeyEvent)
        ensures
            r == (KeyEvent { key: Key::Char(c), modifiers: Modifier { ctrl: false, alt: false, shift: false } }),
    {
        KeyEvent::new(Key::Char(c), Modifier::none())
    }

    /// `c` with Ctrl.
    pub fn ctrl(c: char) -> (r: KeyEvent)
        ensures
            r == (KeyEvent { key: Key::Char(c), modifiers: Modifier { ctrl: true, alt: false, shift: false } }),
    {
        KeyEvent::new(Key::Char(c), Modifier::ctrl())
    }

    /// `c` with Ctrl and Shift.
    pub fn ctrl_shift(c: char) -> (r: KeyEvent)
        ensures
            r == (KeyEvent { key: Key::Char(c), modifiers: Modifier { ctrl: true, alt: false, shift: true } }),
    {
        KeyEvent::new(Key::Char(c), Modifier::ctrl_shift())
    }

    /// `c` with Alt.
    pub fn alt(c: char) -> (r: KeyEvent)
        ensures
            r == (KeyEvent { key: Key::Char(c), modifiers: Modifier { ctrl: false, alt: true, shift: false } }),
    {
        KeyEvent::new(Key::Char(c), Modifier::alt())
    }
}

/// Key codes.
#[derive(Debug, Clone, Copy, PartialEq, Eq, Hash, Structural)]
pub enum Key {
    Char(char),
    F(u8),
    Backspace,
    Enter,
    Tab,
    Escape,
    Up,
    Down,
    Left,
    Right,
    Home,
    End,
    PageUp,
    PageDown,
    Insert,
    Delete,
}

/// Editor actions.
#[derive(Debug, Clone, Copy, PartialEq, Eq, Structural)]
pub enum Action {
    // File operations
    Save,
    SaveAs,
    Open,
    QuickOpen,
    CloseBuffer,
    CloseWindow,
    Quit,

    // Navigation
    MoveUp,
    MoveDown,
    MoveLeft,
    MoveRight,
    MoveWordLeft,
    MoveWordRight,
    MoveLineStart,
    MoveLineEnd,
    MoveFileStart,
    MoveFileEnd,
    PageUp,
    PageDown,
    GotoLine,
    GotoSymbol,
    JumpBack,
    JumpForward,

    // Editing
    InsertChar(char),
    InsertNewline,
    InsertNewlineBelow,
    InsertNewlineAbove,
    Backspace,
    Delete,
    DeleteLine,
    DuplicateLine,
    MoveLineUp,
    MoveLineDown,
    Indent,
    Unindent,
    ToggleComment,

    // Selection
    SelectAll,
    SelectLine,
    SelectWord,
    SelectNextOccurrence,
    SelectAllOccurrences,
    SplitSelectionLines,
    AddCursorAbove,
    AddCursorBelow,
    ClearSelection,

    // Clipboard
    Copy,
    Cut,
    Paste,

    // Undo/Redo
    Undo,
    Redo,

    // Search
    Find,
    FindNext,
    FindPrevious,
    Replace,
    FindInFiles,
    UseSelectionForFind,

    // Buffer/Tab management
    NextBuffer,
    PreviousBuffer,
    SwitchToBuffer(usize),

    // Splits
    SplitVertical,
    SplitHorizontal,
    FocusNextSplit,
    FocusPreviousSplit,

    // LSP
    Autocomplete,
    GotoDefinition,
    FindReferences,
    RenameSymbol,
    QuickFix,
    SignatureHelp,
    Hover,

    // Code folding
    Fold,
    Unfold,

    // UI
    CommandPalette,
    ToggleFileTree,

    // Misc
    Noop,
}
/// The action bound to each key event; each event is bound at most once.
#[derive(Debug, Clone)]
pub struct Keymap {
    bindings: Vec<(KeyEvent, Action)>,
}

impl Keymap {
    /// The bindings, in the order they were first made.
    pub closed spec fn entries(&self) -> Seq<(KeyEvent, Action)> {
        self.bindings@
    }

    /// No event is bound twice.
    pub open spec fn wf(&self) -> bool {
        unique_keys(self.entries())
    }

    /// The action bound to `event`, if any.
    pub open spec fn lookup(&self, event: KeyEvent) -> Option<Action> {
        lookup_in(self.entries(), event)
    }

    /// No bindings.
    pub fn new() -> (r: Keymap)
        ensures
            r.wf(),
            forall|e: KeyEvent| r.lookup(e) is None,
    {
        Keymap { bindings: Vec::new() }
    }

    /// The action bound to `event`.
    pub fn get(&self, event: &KeyEvent) -> (r: Option<&Action>)
        requires
            self.wf(),
        ensures
            match r {
                Some(a) => self.lookup(*event) == Some(*a),
                None => self.lookup(*event) is None,
            },
    {
        let mut i: usize = 0;
        while i < self.bindings.len()
            invariant
                i <= self.entries().len(),
                self.wf(),
                forall|j: int| 0 <= j < i ==> (#[trigger] self.entries()[j]).0 != *event,
            decreases self.entries().len() - i,
        {
            if self.bindings[i].0 == *event {
                proof {
                    let k = choose|k: int| 0 <= k < self.entries().len() && (#[trigger] self.entries()[k]).0 == *event;
                    if k != i {
                        if k < i {
                            assert(self.entries()[k].0 != *event);
                        } else {
                            assert(self.entries()[i as int].0 != self.entries()[k].0);
                        }
                    }
                }
                return Some(&self.bindings[i].1);
            }
            i += 1;
        }
        None
    }

    /// Binds `event` to `action`, replacing what it was bound to.
    pub fn insert(&mut self, event: KeyEvent, action: Action)
        requires
            old(self).wf(),
        ensures
            final(self).wf(),
            final(self).lookup(event) == Some(action),
            forall|e: KeyEvent| e != event ==> #[trigger] final(self).lookup(e) == old(self).lookup(e),
    {
        let ghost before = self.entries();
        let mut i: usize = 0;
        while i < self.bindings.len()
            invariant
                i <= self.entries().len(),
                self.entries() == before,
                before == old(self).entries(),
                unique_keys(before),
                forall|j: int| 0 <= j < i ==> (#[trigger] self.entries()[j]).0 != event,
            decreases self.entries().len() - i,
        {
            if self.bindings[i].0 == event {
                self.bindings.set(i, (event, action));
                proof {
                    lemma_lookup_after_set(before, self.entries(), i as int, event, action);
                    assert forall|e: KeyEvent| e != event implies #[trigger] self.lookup(e) == lookup_in(before, e) by {
                        assert(lookup_in(self.entries(), e) == lookup_in(before, e));
                    }
                }
                return;
            }
            i += 1;
        }
        self.bindings.push((event, action));
        proof { lemma_lookup_after_push(before, self.entries(), event, action); }
    }
}

/// The action of the entry for `event`, if there is one.
pub open spec fn lookup_in(s: Seq<(KeyEvent, Action)>, event: KeyEvent) -> Option<Action> {
    if exists|i: int| 0 <= i < s.len() && (#[trigger] s[i]).0 == event {
        Some(s[choose|i: int| 0 <= i < s.len() && (#[trigger] s[i]).0 == event].1)
    } else {
        None
    }
}

/// No two entries have the same event.
pub open spec fn unique_keys(s: Seq<(KeyEvent, Action)>) -> bool {
    forall|i: int, j: int| 0 <= i < j < s.len() ==> (#[trigger] s[i]).0 != (#[trigger] s[j]).0
}

proof fn lemma_lookup_unique(s: Seq<(KeyEvent, Action)>, k: int)
    requires
        unique_keys(s),
        0 <= k < s.len(),
    ensures
        lookup_in(s, s[k].0) == Some(s[k].1),
{
    let e = s[k].0;
    let c = choose|i: int| 0 <= i < s.len() && (#[trigger] s[i]).0 == e;
    if c < k {
        assert(s[c].0 != s[k].0);
    } else if k < c {
        assert(s[k].0 != s[c].0);
    }
}

proof fn lemma_lookup_after_set(before: Seq<(KeyEvent, Action)>, after: Seq<(KeyEvent, Action)>, i: int, event: KeyEvent, action: Action)
    requires
        unique_keys(before),
        0 <= i < before.len(),
        before[i].0 == event,
        after == before.update(i, (event, action)),
    ensures
        unique_keys(after),
        lookup_in(after, event) == Some(action),
        forall|e: KeyEvent| e != event ==> #[trigger] lookup_in(after, e) == lookup_in(before, e),
{
    assert forall|a: int, b: int| 0 <= a < b < after.len() implies (#[trigger] after[a]).0 != (#[trigger] after[b]).0 by {
        assert(before[a].0 != before[b].0);
    }
    lemma_lookup_unique(after, i);
    assert forall|e: KeyEvent| e != event implies lookup_in(after, e) == lookup_in(before, e) by {
        if exists|j: int| 0 <= j < before.len() && (#[trigger] before[j]).0 == e {
            let j = choose|j: int| 0 <= j < before.len() && (#[trigger] before[j]).0 == e;
            lemma_lookup_unique(before, j);
            lemma_lookup_unique(after, j);
        } else {
            assert forall|j: int| 0 <= j < after.len() implies (#[trigger] after[j]).0 != e by {
                if j != i {
                    assert(before[j].0 != e);
                }
            }
        }
    }
}

proof fn lemma_lookup_after_push(before: Seq<(KeyEvent, Action)>, after: Seq<(KeyEvent, Action)>, event: KeyEvent, action: Action)
    requires
        unique_keys(before),
        forall|j: int| 0 <= j < before.len() ==> (#[trigger] before[j]).0 != event,
        after == before.push((event, action)),
    ensures
        unique_keys(after),
        lookup_in(after, event) == Some(action),
        forall|e: KeyEvent| e != event ==> #[trigger] lookup_in(after, e) == lookup_in(before, e),
{
    assert forall|a: int, b: int| 0 <= a < b < after.len() implies (#[trigger] after[a]).0 != (#[trigger] after[b]).0 by {
        if b < before.len() {
            assert(before[a].0 != before[b].0);
        } else {
            assert(before[a].0 != event);
        }
    }
    lemma_lookup_unique(after, before.len() as int);
    assert forall|e: KeyEvent| e != event implies lookup_in(after, e) == lookup_in(before, e) by {
        if exists|j: int| 0 <= j < before.len() && (#[trigger] before[j]).0 == e {
            let j = choose|j: int| 0 <= j < before.len() && (#[trigger] before[j]).0 == e;
            lemma_lookup_unique(before, j);
            assert(after[j] == before[j]);
            lemma_lookup_unique(after, j);
        } else {
            assert forall|j: int| 0 <= j < after.len() implies (#[trigger] after[j]).0 != e by {
                if j < before.len() {
                    assert(before[j].0 != e);
                }
            }
        }
    }
}

impl Default for Keymap {
    /// The editor's standard bindings.
    fn default() -> (r: Keymap)
        ensures
            r.wf(),
    {
        let mut keymap = Keymap::new();

        // File operations
        keymap.insert(KeyEvent::ctrl('s'), Action::Save);
        keymap.insert(KeyEvent::ctrl_shift('s'), Action::SaveAs);
        keymap.insert(KeyEvent::ctrl('o'), Action::Open);
        keymap.insert(KeyEvent::ctrl('p'), Action::QuickOpen);
        keymap.insert(KeyEvent::ctrl('w'), Action::CloseBuffer);
        keymap.insert(KeyEvent::ctrl_shift('w'), Action::CloseWindow);
        keymap.insert(KeyEvent::ctrl('q'), Action::Quit);

        // Navigation
        keymap.insert(
            KeyEvent::new(Key::Up, Modifier::none()),
            Action::MoveUp,
        );
        keymap.insert(
            KeyEvent::new(Key::Down, Modifier::none()),
            Action::MoveDown,
        );
        keymap.insert(
            KeyEvent::new(Key::Left, Modifier::none()),
            Action::MoveLeft,
        );
        keymap.insert(
            KeyEvent::new(Key::Right, Modifier::none()),
            Action::MoveRight,
        );
        keymap.insert(
            KeyEvent::new(Key::Left, Modifier::ctrl()),
            Action::MoveWordLeft,
        );
        keymap.insert(
            KeyEvent::new(Key::Right, Modifier::ctrl()),
            Action::MoveWordRight,
        );
        keymap.insert(
            KeyEvent::new(Key::Home, Modifier::none()),
            Action::MoveLineStart,
        );
        keymap.insert(
            KeyEvent::new(Key::End, Modifier::none()),
            Action::MoveLineEnd,
        );
        keymap.insert(
            KeyEvent::new(Key::Home, Modifier::ctrl()),
            Action::MoveFileStart,
        );
        keymap.insert(
            KeyEvent::new(Key::End, Modifier::ctrl()),
            Action::MoveFileEnd,
        );
        keymap.insert(
            KeyEvent::new(Key::PageUp, Modifier::none()),
            Action::PageUp,
        );
        keymap.insert(
            KeyEvent::new(Key::PageDown, Modifier::none()),
            Action::PageDown,
        );
        keymap.insert(KeyEvent::ctrl('g'), Action::GotoLine);
        keymap.insert(KeyEvent::ctrl('r'), Action::GotoSymbol);
        keymap.insert(
            KeyEvent::new(Key::Left, Modifier::alt()),
            Action::JumpBack,
        );
        keymap.insert(
            KeyEvent::new(Key::Right, Modifier::alt()),
            Action::JumpForward,
        );

        // Editing
        keymap.insert(
            KeyEvent::new(Key::Enter, Modifier::none()),
            Action::InsertNewline,
        );
        keymap.insert(
            KeyEvent::new(Key::Enter, Modifier::ctrl()),
            Action::InsertNewlineBelow,
        );
        keymap.insert(
            KeyEvent::new(Key::Enter, Modifier::ctrl_shift()),
            Action::InsertNewlineAbove,
        );
        keymap.insert(
            KeyEvent::new(Key::Backspace, Modifier::none()),
            Action::Backspace,
        );
        keymap.insert(
            KeyEvent::new(Key::Delete, Modifier::none()),
            Action::Delete,
        );
        keymap.insert(KeyEvent::ctrl_shift('k'), Action::DeleteLine);
        keymap.insert(KeyEvent::ctrl_shift('d'), Action::DuplicateLine);
        keymap.insert(
            KeyEvent::new(Key::Up, Modifier::ctrl_shift()),
            Action::MoveLineUp,
        );
        keymap.insert(
            KeyEvent::new(Key::Down, Modifier::ctrl_shift()),
            Action::MoveLineDown,
        );
        keymap.insert(
            KeyEvent::new(Key::Tab, Modifier::none()),
            Action::Indent,
        );
        keymap.insert(
            KeyEvent::new(Key::Tab, Modifier::shift()),
            Action::Unindent,
        );
        keymap.insert(KeyEvent::ctrl('/'), Action::ToggleComment);

        // Selection
        keymap.insert(KeyEvent::ctrl('a'), Action::SelectAll);
        keymap.insert(KeyEvent::ctrl('l'), Action::SelectLine);
        keymap.insert(KeyEvent::ctrl('d'), Action::SelectNextOccurrence);
        keymap.insert(KeyEvent::ctrl_shift('a'), Action::SelectAllOccurrences);
        keymap.insert(KeyEvent::ctrl_shift('l'), Action::SplitSelectionLines);
        keymap.insert(
            KeyEvent::new(Key::Up, Modifier::alt_shift()),
            Action::AddCursorAbove,
        );
        keymap.insert(
            KeyEvent::new(Key::Down, Modifier::alt_shift()),
            Action::AddCursorBelow,
        );
        keymap.insert(
            KeyEvent::new(Key::Escape, Modifier::none()),
            Action::ClearSelection,
        );

        // Clipboard
        keymap.insert(KeyEvent::ctrl('c'), Action::Copy);
        keymap.insert(KeyEvent::ctrl('x'), Action::Cut);
        keymap.insert(KeyEvent::ctrl('v'), Action::Paste);

        // Undo/Redo
        keymap.insert(KeyEvent::ctrl('z'), Action::Undo);
        keymap.insert(KeyEvent::ctrl_shift('z'), Action::Redo);
        keymap.insert(KeyEvent::ctrl('y'), Action::Redo);

        // Search
        keymap.insert(KeyEvent::ctrl('f'), Action::Find);
        keymap.insert(KeyEvent::new(Key::F(3), Modifier::none()), Action::FindNext);
        keymap.insert(
            KeyEvent::new(Key::F(3), Modifier::shift()),
            Action::FindPrevious,
        );
        keymap.insert(KeyEvent::ctrl('h'), Action::Replace);
        keymap.insert(KeyEvent::ctrl_shift('f'), Action::FindInFiles);
        keymap.insert(KeyEvent::ctrl('e'), Action::UseSelectionForFind);

        // Buffer/Tab management
        keymap.insert(
            KeyEvent::new(Key::Tab, Modifier::ctrl()),
            Action::NextBuffer,
        );
        keymap.insert(
            KeyEvent::new(Key::Tab, Modifier::ctrl_shift()),
            Action::PreviousBuffer,
        );
        let mut i: u8 = 1;
        while i <= 9
            invariant
                1 <= i <= 10,
                keymap.wf(),
            decreases 10 - i,
        {
            keymap.insert(KeyEvent::ctrl((48u8 + i) as char), Action::SwitchToBuffer(i as usize));
            i = i + 1;
        }

        // Splits
        keymap.insert(KeyEvent::ctrl('\\'), Action::SplitVertical);
        keymap.insert(KeyEvent::ctrl_shift('\\'), Action::SplitHorizontal);

        // LSP
        keymap.insert(KeyEvent::ctrl(' '), Action::Autocomplete);
        keymap.insert(
            KeyEvent::new(Key::F(12), Modifier::none()),
            Action::GotoDefinition,
        );
        keymap.insert(
            KeyEvent::new(Key::F(12), Modifier::shift()),
            Action::FindReferences,
        );
        keymap.insert(KeyEvent::new(Key::F(2), Modifier::none()), Action::RenameSymbol);
        keymap.insert(KeyEvent::ctrl('.'), Action::QuickFix);
        keymap.insert(KeyEvent::ctrl_shift(' '), Action::SignatureHelp);

        // Code folding
        keymap.insert(KeyEvent::ctrl_shift('['), Action::Fold);
        keymap.insert(KeyEvent::ctrl_shift(']'), Action::Unfold);

        // UI
        keymap.insert(KeyEvent::ctrl_shift('p'), Action::CommandPalette);
        keymap.insert(KeyEvent::ctrl('b'), Action::ToggleFileTree);
        keymap
    }
}

} // verus!
