//! A line of text that can be edited: the text, the cursor, the selection,
//! and what each key does to them.

use vstd::prelude::*;
use crate::units::Vec2;
use crate::windowing::events::{EventCtx, EventKind, Key, Modifiers, NamedKey, Phase};

verus! {

/// The text, the cursor and the selection, as the contracts see them.
pub struct Line {
    pub text: Seq<char>,
    /// The cursor stands before the character with this index.
    pub cursor: int,
    /// Where the selection began; it reaches from there to the cursor.
    pub anchor: int,
}

/// What the widget hands to the clipboard, or asks of it.
#[derive(Debug)]
pub enum Clip {
    /// Nothing.
    Nothing,
    /// Put this text on the clipboard.
    Copy(Vec<char>),
    /// Take the text off the clipboard and hand it to `paste`.
    Paste,
}

/// `ch` is a control character.
pub open spec fn spec_is_control(ch: char) -> bool {
    (ch as u32) < 0x20 || (0x7f <= (ch as u32) && (ch as u32) <= 0x9f)
}

#[verifier::when_used_as_spec(spec_is_control)]
pub fn is_control(ch: char) -> (control: bool)
    ensures
        control == spec_is_control(ch),
{
    let code = ch as u32;
    code < 0x20 || (0x7f <= code && code <= 0x9f)
}

/// Text as it is pasted into one line: carriage returns are left out and
/// line feeds become spaces.
pub open spec fn one_line(text: Seq<char>) -> Seq<char>
    decreases text.len(),
{
    if text.len() == 0 {
        Seq::empty()
    } else if text.last() == '\r' {
        one_line(text.drop_last())
    } else if text.last() == '\n' {
        one_line(text.drop_last()).push(' ')
    } else {
        one_line(text.drop_last()).push(text.last())
    }
}

/// Text made fit for one line.
pub fn sanitized(text: &Vec<char>) -> (line: Vec<char>)
    ensures
        line@ == one_line(text@),
{
    let mut line: Vec<char> = Vec::new();
    let mut i: usize = 0;
    while i < text.len()
        invariant
            i <= text.len(),
            line@ == one_line(text@.take(i as int)),
        decreases text.len() - i,
    {
        proof {
            assert(text@.take(i + 1).drop_last() == text@.take(i as int));
            assert(text@.take(i + 1).last() == text@[i as int]);
        }
        let ch = text[i];
        if ch == '\n' {
            line.push(' ');
        } else if ch != '\r' {
            line.push(ch);
        }
        i += 1;
    }
    proof {
        assert(text@.take(text.len() as int) == text@);
    }
    line
}

impl Line {
    /// The cursor and the anchor stand inside the text or at its end.
    pub open spec fn well_formed(self) -> bool {
        0 <= self.cursor <= self.text.len() && 0 <= self.anchor <= self.text.len()
    }

    /// Some text is selected.
    pub open spec fn has_selection(self) -> bool {
        self.cursor != self.anchor
    }

    /// Where the selection begins.
    pub open spec fn start(self) -> int {
        if self.cursor <= self.anchor {
            self.cursor
        } else {
            self.anchor
        }
    }

    /// Where the selection ends.
    pub open spec fn end(self) -> int {
        if self.cursor <= self.anchor {
            self.anchor
        } else {
            self.cursor
        }
    }

    /// The selected text.
    pub open spec fn selected(self) -> Seq<char> {
        self.text.subrange(self.start(), self.end())
    }

    /// The line with the cursor at `to`, or at the nearest place in the
    /// text where `to` is beyond its end. The selection is kept, and so
    /// reaches to the new place, or given up.
    pub open spec fn moved(self, to: int, keep_selection: bool) -> Line {
        let cursor = if to < 0 {
            0
        } else if to > self.text.len() {
            self.text.len() as int
        } else {
            to
        };
        Line {
            text: self.text,
            cursor,
            anchor: if keep_selection {
                self.anchor
            } else {
                cursor
            },
        }
    }

    /// The line without the selected text, the cursor where it was.
    pub open spec fn without_selection(self) -> Line {
        if self.has_selection() {
            Line {
                text: self.text.subrange(0, self.start()) + self.text.subrange(
                    self.end(),
                    self.text.len() as int,
                ),
                cursor: self.start(),
                anchor: self.start(),
            }
        } else {
            self
        }
    }

    /// The line with `added` in place of the selection, the cursor behind
    /// it.
    pub open spec fn with_inserted(self, added: Seq<char>) -> Line {
        let cut = self.without_selection();
        Line {
            text: cut.text.subrange(0, cut.cursor) + added + cut.text.subrange(
                cut.cursor,
                cut.text.len() as int,
            ),
            cursor: cut.cursor + added.len(),
            anchor: cut.cursor + added.len(),
        }
    }

    /// The line after the backspace key: without the selection, or, with
    /// nothing selected, without the character before the cursor.
    pub open spec fn backspaced(self) -> Line {
        if self.has_selection() {
            self.without_selection()
        } else if self.cursor > 0 {
            Line {
                text: self.text.remove(self.cursor - 1),
                cursor: self.cursor - 1,
                anchor: self.cursor - 1,
            }
        } else {
            self
        }
    }

    /// The line after the delete key: without the selection, or, with
    /// nothing selected, without the character behind the cursor.
    pub open spec fn deleted(self) -> Line {
        if self.has_selection() {
            self.without_selection()
        } else if self.cursor < self.text.len() {
            Line { text: self.text.remove(self.cursor), cursor: self.cursor, anchor: self.cursor }
        } else {
            self
        }
    }

    /// The line with all of its text selected.
    pub open spec fn all_selected(self) -> Line {
        Line { text: self.text, cursor: self.text.len() as int, anchor: 0 }
    }

    /// The line after a key that moves the cursor or edits the text, with
    /// no command modifier held. Another key leaves it as it is.
    pub open spec fn after_key(self, key: Key, keep_selection: bool) -> Line {
        match key {
            Key::Named(NamedKey::Backspace) => self.backspaced(),
            Key::Named(NamedKey::Delete) => self.deleted(),
            Key::Named(NamedKey::ArrowLeft) => self.moved(self.cursor - 1, keep_selection),
            Key::Named(NamedKey::ArrowRight) => self.moved(self.cursor + 1, keep_selection),
            Key::Named(NamedKey::Home) => self.moved(0, keep_selection),
            Key::Named(NamedKey::End) => self.moved(self.text.len() as int, keep_selection),
            _ => self,
        }
    }

    /// Every edit leaves the cursor and the anchor inside the text.
    pub proof fn lemma_edits_keep_well_formed(self, added: Seq<char>, to: int, keep: bool, key: Key)
        requires
            self.well_formed(),
        ensures
            self.moved(to, keep).well_formed(),
            self.without_selection().well_formed(),
            self.with_inserted(added).well_formed(),
            self.backspaced().well_formed(),
            self.deleted().well_formed(),
            self.all_selected().well_formed(),
            self.after_key(key, keep).well_formed(),
    {
    }

    /// What was typed can be taken back: a character typed with nothing
    /// selected and then removed by the backspace key leaves the line as it
    /// was.
    pub proof fn lemma_backspace_undoes_typing(self, ch: char)
        requires
            self.well_formed(),
            !self.has_selection(),
        ensures
            self.with_inserted(seq![ch]).backspaced().text == self.text,
            self.with_inserted(seq![ch]).backspaced().cursor == self.cursor,
    {
        let typed = self.with_inserted(seq![ch]);
        assert(typed.backspaced().text =~= self.text);
    }
}

/// What a text input knows of itself besides its line.
#[derive(Copy, Clone, Debug, PartialEq, Eq, Structural)]
pub struct InputState {
    /// The widget has the keyboard focus.
    pub focused: bool,
    /// The pointer is held down to select.
    pub is_dragging: bool,
    /// Where the pointer was last seen.
    pub last_pos: Vec2,
    /// A position of the pointer that waits to be turned into a place in
    /// the text, when the text is next painted.
    pub click: Option<Vec2>,
}

/// The key is the letter `letter`.
pub open spec fn is_letter(key: Key, letter: char) -> bool {
    key == Key::Character(letter)
}

/// The key is one of those that move the cursor or edit the text.
pub open spec fn is_edit_key(key: Key) -> bool {
    key matches Key::Named(named) && (named is Backspace || named is Delete || named is ArrowLeft
        || named is ArrowRight || named is Home || named is End)
}

/// A character is typed into the line: it is no control character and
/// neither the command modifier nor the alt key is held.
pub open spec fn is_typed(ch: char, command: bool, modifiers: Modifiers) -> bool {
    !spec_is_control(ch) && !command && !modifiers.alt
}

/// The widget acts on events in the target pass while it has the focus;
/// otherwise it only takes the focus or a press.
pub open spec fn is_active(state: InputState, phase: Phase) -> bool {
    state.focused && phase == Phase::Target
}

/// The line after `ev`, for a widget in the state `state`.
pub open spec fn line_after(
    line: Line,
    state: InputState,
    ev: EventKind,
    phase: Phase,
    command: bool,
    modifiers: Modifiers,
) -> Line {
    if !is_active(state, phase) {
        line
    } else {
        match ev {
            EventKind::CharInput { ch } => if is_typed(ch, command, modifiers) {
                line.with_inserted(seq![ch])
            } else {
                line
            },
            EventKind::KeyDown { key } => if command {
                if is_letter(key, 'a') {
                    line.all_selected()
                } else if is_letter(key, 'x') {
                    line.without_selection()
                } else {
                    line
                }
            } else {
                line.after_key(key, modifiers.shift)
            },
            _ => line,
        }
    }
}

/// The state of the widget after `ev`.
pub open spec fn state_after(state: InputState, ev: EventKind, phase: Phase) -> InputState {
    if !is_active(state, phase) {
        if phase == Phase::Target && ev is FocusIn {
            InputState { focused: true, ..state }
        } else if phase == Phase::Target && ev is PointerDown {
            InputState { click: Some(state.last_pos), is_dragging: true, ..state }
        } else {
            state
        }
    } else {
        match ev {
            EventKind::FocusOut => InputState { focused: false, is_dragging: false, ..state },
            EventKind::PointerMove { pos } => InputState {
                last_pos: pos,
                click: if state.is_dragging {
                    Some(pos)
                } else {
                    state.click
                },
                ..state
            },
            EventKind::PointerUp { .. } => InputState { is_dragging: false, ..state },
            _ => state,
        }
    }
}

/// The widget asks for a new layout after `ev`.
pub open spec fn asks_layout(
    state: InputState,
    ev: EventKind,
    phase: Phase,
    command: bool,
    modifiers: Modifiers,
) -> bool {
    if !is_active(state, phase) {
        phase == Phase::Target && (ev is FocusIn || ev is PointerDown)
    } else {
        match ev {
            EventKind::FocusOut => true,
            EventKind::PointerMove { .. } => state.is_dragging,
            EventKind::CharInput { ch } => is_typed(ch, command, modifiers),
            EventKind::KeyDown { key } => command || is_edit_key(key),
            _ => false,
        }
    }
}

/// The widget asks for the focus on `ev`: on a press of a button in the
/// target pass while it is not active.
pub open spec fn asks_focus(state: InputState, ev: EventKind, phase: Phase) -> bool {
    !is_active(state, phase) && phase == Phase::Target && ev is PointerDown
}

/// One line of text that can be edited.
pub struct TextInput {
    value: Vec<char>,
    placeholder: Vec<char>,
    cursor: usize,
    selection_anchor: usize,
    focused: bool,
    is_dragging: bool,
    last_pos: Vec2,
    click_to_process: Option<Vec2>,
    command_is_meta: bool,
}

impl Clone for TextInput {
    fn clone(&self) -> (copy: Self)
        ensures
            copy@ == self@,
            copy.state() == self.state(),
            copy.spec_placeholder() == self.spec_placeholder(),
            copy.command_is_meta() == self.command_is_meta(),
    {
        proof {
            use_type_invariant(self);
        }
        let value = self.value.clone();
        let placeholder = self.placeholder.clone();
        assert(value@ =~= self.value@);
        assert(placeholder@ =~= self.placeholder@);
        TextInput {
            value,
            placeholder,
            cursor: self.cursor,
            selection_anchor: self.selection_anchor,
            focused: self.focused,
            is_dragging: self.is_dragging,
            last_pos: self.last_pos,
            click_to_process: self.click_to_process,
            command_is_meta: self.command_is_meta,
        }
    }
}

impl View for TextInput {
    type V = Line;

    closed spec fn view(&self) -> Line {
        Line {
            text: self.value@,
            cursor: self.cursor as int,
            anchor: self.selection_anchor as int,
        }
    }
}

impl TextInput {
    #[verifier::type_invariant]
    spec fn cursor_in_text(self) -> bool {
        self.cursor <= self.value@.len() && self.selection_anchor <= self.value@.len()
    }

    /// What the widget knows of itself besides its line.
    pub closed spec fn state(self) -> InputState {
        InputState {
            focused: self.focused,
            is_dragging: self.is_dragging,
            last_pos: self.last_pos,
            click: self.click_to_process,
        }
    }

    /// What is shown while there is no text and no focus.
    pub closed spec fn spec_placeholder(&self) -> Seq<char> {
        self.placeholder@
    }

    /// The command modifier is the meta key, not the control key.
    pub closed spec fn command_is_meta(self) -> bool {
        self.command_is_meta
    }

    /// The widget is the same but for its line.
    pub open spec fn same_but_line(self, other: TextInput) -> bool {
        &&& self.state() == other.state()
        &&& self.spec_placeholder() == other.spec_placeholder()
        &&& self.command_is_meta() == other.command_is_meta()
    }

    /// The command modifier is held.
    pub open spec fn spec_command_held(&self, modifiers: Modifiers) -> bool {
        if self.command_is_meta() {
            modifiers.meta
        } else {
            modifiers.control
        }
    }

    /// An empty line that shows `placeholder`. The command modifier is the
    /// meta key where `command_is_meta`, the control key otherwise.
    pub fn new(placeholder: Vec<char>, command_is_meta: bool) -> (input: Self)
        ensures
            input@ == (Line { text: Seq::empty(), cursor: 0, anchor: 0 }),
            input.spec_placeholder() == placeholder@,
            input.state() == (InputState {
                focused: false,
                is_dragging: false,
                last_pos: Vec2::spec_zero(),
                click: None,
            }),
            input.command_is_meta() == command_is_meta,
    {
        TextInput {
            value: Vec::new(),
            placeholder,
            cursor: 0,
            selection_anchor: 0,
            focused: false,
            is_dragging: false,
            last_pos: Vec2::zero(),
            click_to_process: None,
            command_is_meta,
        }
    }

    /// The text.
    pub fn value(&self) -> (text: &Vec<char>)
        ensures
            text@ == self@.text,
    {
        &self.value
    }

    /// What is shown while there is no text and no focus.
    pub fn placeholder(&self) -> (text: &Vec<char>)
        ensures
            text@ == self.spec_placeholder(),
    {
        &self.placeholder
    }

    /// Whether the widget has the keyboard focus.
    pub fn is_focused(&self) -> (focused: bool)
        ensures
            focused == self.state().focused,
    {
        self.focused
    }

    /// Whether the pointer is held down to select.
    pub fn is_dragging(&self) -> (dragging: bool)
        ensures
            dragging == self.state().is_dragging,
    {
        self.is_dragging
    }

    /// Takes the position of the pointer that waits to be turned into a
    /// place in the text, if one waits.
    pub fn take_click(&mut self) -> (click: Option<Vec2>)
        ensures
            click == old(self).state().click,
            final(self).state() == (InputState { click: None, ..old(self).state() }),
            final(self)@ == old(self)@,
            final(self).spec_placeholder() == old(self).spec_placeholder(),
            final(self).command_is_meta() == old(self).command_is_meta(),
    {
        proof {
            use_type_invariant(&*self);
        }
        let click = self.click_to_process;
        self.click_to_process = None;
        click
    }

    /// Where the cursor stands.
    pub fn cursor(&self) -> (at: usize)
        ensures
            at == self@.cursor,
            at <= self@.text.len(),
    {
        proof {
            use_type_invariant(self);
        }
        self.cursor
    }

    /// Where the selection began.
    pub fn selection_anchor(&self) -> (at: usize)
        ensures
            at == self@.anchor,
            at <= self@.text.len(),
    {
        proof {
            use_type_invariant(self);
        }
        self.selection_anchor
    }

    #[verifier::when_used_as_spec(spec_command_held)]
    pub fn command_held(&self, modifiers: Modifiers) -> (held: bool)
        ensures
            held == self.spec_command_held(modifiers),
    {
        if self.command_is_meta {
            modifiers.meta
        } else {
            modifiers.control
        }
    }

    /// Whether some text is selected.
    pub fn has_selection(&self) -> (has: bool)
        ensures
            has == self@.has_selection(),
    {
        self.cursor != self.selection_anchor
    }

    /// Where the selection begins and where it ends.
    pub fn selection_range(&self) -> (range: (usize, usize))
        ensures
            range.0 == self@.start(),
            range.1 == self@.end(),
            range.0 <= range.1 <= self@.text.len(),
    {
        proof {
            use_type_invariant(self);
        }
        if self.cursor <= self.selection_anchor {
            (self.cursor, self.selection_anchor)
        } else {
            (self.selection_anchor, self.cursor)
        }
    }

    /// The selected text.
    pub fn selected_text(&self) -> (text: Vec<char>)
        ensures
            text@ == self@.selected(),
    {
        let (start, end) = self.selection_range();
        let mut text: Vec<char> = Vec::new();
        let mut i: usize = start;
        while i < end
            invariant
                start <= i <= end,
                end <= self.value@.len(),
                text@ == self.value@.subrange(start as int, i as int),
            decreases end - i,
        {
            text.push(self.value[i]);
            assert(self.value@.subrange(start as int, i + 1) == self.value@.subrange(
                start as int,
                i as int,
            ).push(self.value@[i as int]));
            i += 1;
        }
        text
    }

    /// Puts the cursor at `new_pos`, or at the end of the text where
    /// `new_pos` is beyond it.
    pub fn move_cursor(&mut self, new_pos: usize, keep_selection: bool)
        ensures
            final(self)@ == old(self)@.moved(new_pos as int, keep_selection),
            final(self).same_but_line(*old(self)),
    {
        proof {
            use_type_invariant(&*self);
        }
        let count = self.value.len();
        let cursor = if new_pos > count {
            count
        } else {
            new_pos
        };
        self.cursor = cursor;
        if !keep_selection {
            self.selection_anchor = cursor;
        }
    }

    /// Puts `added` in place of the text from `start` to `end`.
    fn splice(&mut self, start: usize, end: usize, added: &Vec<char>)
        requires
            start <= end <= old(self)@.text.len(),
        ensures
            final(self)@.text == old(self)@.text.subrange(0, start as int) + added@ + old(
                self,
            )@.text.subrange(end as int, old(self)@.text.len() as int),
            final(self)@.cursor == start + added@.len(),
            final(self)@.anchor == start + added@.len(),
            final(self).same_but_line(*old(self)),
    {
        proof {
            use_type_invariant(&*self);
        }
        let n = self.value.len();
        let mut text: Vec<char> = Vec::new();
        let mut i: usize = 0;
        while i < start
            invariant
                i <= start <= end <= n,
                n == self.value@.len(),
                text@ == self.value@.subrange(0, i as int),
            decreases start - i,
        {
            text.push(self.value[i]);
            assert(self.value@.subrange(0, i + 1) == self.value@.subrange(0, i as int).push(
                self.value@[i as int],
            ));
            i += 1;
        }
        let mut j: usize = 0;
        while j < added.len()
            invariant
                j <= added@.len(),
                start <= end <= n,
                n == self.value@.len(),
                text@ == self.value@.subrange(0, start as int) + added@.subrange(0, j as int),
            decreases added@.len() - j,
        {
            text.push(added[j]);
            assert(added@.subrange(0, j + 1) == added@.subrange(0, j as int).push(added@[j as int]));
            j += 1;
        }
        assert(added@.subrange(0, added@.len() as int) == added@);
        let mut k: usize = end;
        while k < n
            invariant
                start <= end <= k <= n,
                n == self.value@.len(),
                text@ == self.value@.subrange(0, start as int) + added@ + self.value@.subrange(
                    end as int,
                    k as int,
                ),
            decreases n - k,
        {
            text.push(self.value[k]);
            assert(self.value@.subrange(end as int, k + 1) == self.value@.subrange(
                end as int,
                k as int,
            ).push(self.value@[k as int]));
            k += 1;
        }
        let at = text.len() - (n - end);
        self.cursor = 0;
        self.selection_anchor = 0;
        self.value = text;
        self.cursor = at;
        self.selection_anchor = at;
    }

    /// Takes the selected text out of the line. Tells whether there was
    /// any.
    pub fn delete_selection(&mut self) -> (deleted: bool)
        ensures
            deleted == old(self)@.has_selection(),
            final(self)@ == old(self)@.without_selection(),
            final(self).same_but_line(*old(self)),
    {
        if !self.has_selection() {
            return false;
        }
        let (start, end) = self.selection_range();
        let nothing: Vec<char> = Vec::new();
        self.splice(start, end, &nothing);
        proof {
            assert(self.value@ =~= old(self)@.without_selection().text);
        }
        true
    }

    /// Puts `added` in place of the selection, or at the cursor where
    /// nothing is selected, and the cursor behind it.
    pub fn insert(&mut self, added: &Vec<char>)
        ensures
            final(self)@ == old(self)@.with_inserted(added@),
            final(self).same_but_line(*old(self)),
    {
        let (start, end) = self.selection_range();
        self.splice(start, end, added);
        proof {
            let cut = old(self)@.without_selection();
            assert(cut.text.subrange(0, cut.cursor) =~= old(self)@.text.subrange(0, start as int));
            assert(cut.text.subrange(cut.cursor, cut.text.len() as int) =~= old(
                self,
            )@.text.subrange(end as int, old(self)@.text.len() as int));
        }
    }

    /// Pastes `text`, made fit for one line, in place of the selection.
    pub fn paste(&mut self, text: &Vec<char>)
        ensures
            final(self)@ == old(self)@.with_inserted(one_line(text@)),
            final(self).same_but_line(*old(self)),
    {
        let line = sanitized(text);
        self.insert(&line);
    }

    /// Selects all of the text.
    pub fn select_all(&mut self)
        ensures
            final(self)@ == old(self)@.all_selected(),
            final(self).same_but_line(*old(self)),
    {
        proof {
            use_type_invariant(&*self);
        }
        self.selection_anchor = 0;
        self.cursor = self.value.len();
    }

    /// What a key does to the line while no command modifier is held. Tells
    /// whether the key is one of those that the line knows.
    pub fn press(&mut self, key: Key, keep_selection: bool) -> (known: bool)
        ensures
            final(self)@ == old(self)@.after_key(key, keep_selection),
            known == is_edit_key(key),
            final(self).same_but_line(*old(self)),
    {
        proof {
            use_type_invariant(&*self);
        }
        let nothing: Vec<char> = Vec::new();
        match key {
            Key::Named(NamedKey::Backspace) => {
                if !self.delete_selection() && self.cursor > 0 {
                    let at = self.cursor - 1;
                    self.splice(at, at + 1, &nothing);
                    proof {
                        assert(self.value@ =~= old(self)@.text.remove(at as int));
                    }
                }
                true
            },
            Key::Named(NamedKey::Delete) => {
                if !self.delete_selection() && self.cursor < self.value.len() {
                    let at = self.cursor;
                    self.splice(at, at + 1, &nothing);
                    proof {
                        assert(self.value@ =~= old(self)@.text.remove(at as int));
                    }
                }
                true
            },
            Key::Named(NamedKey::ArrowLeft) => {
                let to = if self.cursor > 0 {
                    self.cursor - 1
                } else {
                    0
                };
                self.move_cursor(to, keep_selection);
                true
            },
            Key::Named(NamedKey::ArrowRight) => {
                let to = if self.cursor < self.value.len() {
                    self.cursor + 1
                } else {
                    self.value.len()
                };
                self.move_cursor(to, keep_selection);
                true
            },
            Key::Named(NamedKey::Home) => {
                self.move_cursor(0, keep_selection);
                true
            },
            Key::Named(NamedKey::End) => {
                let to = self.value.len();
                self.move_cursor(to, keep_selection);
                true
            },
            _ => false,
        }
    }

    /// The widget's part in the delivery of `ev`.
    ///
    /// While the widget does not have the focus, or outside the target
    /// pass, it only takes the focus when it is given, and on a press asks
    /// for the focus and begins to select. With the focus, in the target
    /// pass, a character is typed in place of the selection, the edit keys
    /// move the cursor and remove text, and with the command modifier
    /// `a` selects all, `c` copies, `x` cuts and `v` pastes. What is
    /// copied, or the request to paste, is handed to the caller, who owns
    /// the clipboard.
    pub fn event(&mut self, ctx: &mut EventCtx, ev: &EventKind) -> (clip: Clip)
        ensures
            final(self)@ == line_after(
                old(self)@,
                old(self).state(),
                *ev,
                old(ctx).phase,
                old(self).spec_command_held(old(ctx).modifiers),
                old(ctx).modifiers,
            ),
            final(self).state() == state_after(old(self).state(), *ev, old(ctx).phase),
            final(self).spec_placeholder() == old(self).spec_placeholder(),
            final(self).command_is_meta() == old(self).command_is_meta(),
            final(ctx).layout_requested == (old(ctx).layout_requested || asks_layout(
                old(self).state(),
                *ev,
                old(ctx).phase,
                old(self).spec_command_held(old(ctx).modifiers),
                old(ctx).modifiers,
            )),
            final(ctx).focus.requested() == if asks_focus(old(self).state(), *ev, old(ctx).phase) {
                Some(old(ctx).path@)
            } else {
                old(ctx).focus.requested()
            },
            final(ctx).focus.focused() == old(ctx).focus.focused(),
            final(ctx).focus.held() == old(ctx).focus.held(),
            final(ctx).stopped == old(ctx).stopped,
            final(ctx).phase == old(ctx).phase,
            final(ctx).path == old(ctx).path,
            final(ctx).node_layout == old(ctx).node_layout,
            final(ctx).default_prevented == old(ctx).default_prevented,
            final(ctx).modifiers == old(ctx).modifiers,
            match clip {
                Clip::Nothing => !(is_active(old(self).state(), old(ctx).phase) && old(
                    self,
                ).spec_command_held(old(ctx).modifiers) && (*ev matches EventKind::KeyDown { key }
                    && (is_letter(key, 'c') || is_letter(key, 'x') || is_letter(key, 'v')))),
                Clip::Copy(text) => {
                    &&& is_active(old(self).state(), old(ctx).phase)
                    &&& old(self).spec_command_held(old(ctx).modifiers)
                    &&& *ev matches EventKind::KeyDown { key } && (is_letter(key, 'c') || is_letter(
                        key,
                        'x',
                    ))
                    &&& text@ == old(self)@.selected()
                },
                Clip::Paste => {
                    &&& is_active(old(self).state(), old(ctx).phase)
                    &&& old(self).spec_command_held(old(ctx).modifiers)
                    &&& *ev matches EventKind::KeyDown { key } && is_letter(key, 'v')
                },
            },
    {
        proof {
            use_type_invariant(&*self);
        }
        let at_target = ctx.phase == Phase::Target;
        if !self.focused || !at_target {
            if at_target {
                match *ev {
                    EventKind::FocusIn => {
                        self.focused = true;
                        ctx.request_layout();
                    },
                    EventKind::PointerDown { button, pos } => {
                        ctx.focus.request_focus(ctx.path);
                        self.click_to_process = Some(self.last_pos);
                        self.is_dragging = true;
                        ctx.request_layout();
                    },
                    _ => {},
                }
            }
            return Clip::Nothing;
        }
        let modifiers = ctx.modifiers;
        let command = self.command_held(modifiers);
        match *ev {
            EventKind::FocusOut => {
                self.focused = false;
                self.is_dragging = false;
                ctx.request_layout();
                Clip::Nothing
            },
            EventKind::PointerMove { pos } => {
                self.last_pos = pos;
                if self.is_dragging {
                    self.click_to_process = Some(pos);
                    ctx.request_layout();
                }
                Clip::Nothing
            },
            EventKind::PointerUp { button, pos } => {
                self.is_dragging = false;
                Clip::Nothing
            },
            EventKind::CharInput { ch } => {
                if !is_control(ch) && !command && !modifiers.alt {
                    let mut typed: Vec<char> = Vec::new();
                    typed.push(ch);
                    assert(typed@ =~= seq![ch]);
                    self.insert(&typed);
                    ctx.request_layout();
                }
                Clip::Nothing
            },
            EventKind::KeyDown { key } => {
                if command {
                    let clip = match key {
                        Key::Character(letter) => {
                            if letter == 'a' {
                                self.select_all();
                                Clip::Nothing
                            } else if letter == 'c' {
                                Clip::Copy(self.selected_text())
                            } else if letter == 'x' {
                                let text = self.selected_text();
                                let _ = self.delete_selection();
                                Clip::Copy(text)
                            } else if letter == 'v' {
                                Clip::Paste
                            } else {
                                Clip::Nothing
                            }
                        },
                        _ => Clip::Nothing,
                    };
                    ctx.request_layout();
                    clip
                } else {
                    if self.press(key, modifiers.shift) {
                        ctx.request_layout();
                    }
                    Clip::Nothing
                }
            },
            _ => Clip::Nothing,
        }
    }
}

} // verus!
