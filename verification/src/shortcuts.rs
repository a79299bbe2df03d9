//! Keyboard shortcuts: the actions, their key bindings and how they are shown.
use vstd::prelude::*;
use crate::text::{chars_of, push_all, string_of};

verus! {

/// What a shortcut does.
#[derive(Clone, Copy, Debug, PartialEq, Eq, Structural)]
pub enum AppAction {
    SaveFile,
    BuildProject,
    CloseWindowOrFile,
    ZoomIn,
    ZoomOut,
    ToggleSearch,
    SendToAi,
    ToggleVerticalEdit,
    AbortOrClose,
}

/// The keys shortcuts are bound to.
#[derive(Clone, Copy, Debug, PartialEq, Eq, Structural)]
pub enum Key {
    S,
    B,
    W,
    Plus,
    Equals,
    Minus,
    F,
    I,
    V,
    Escape,
}

impl Key {
    /// The key's name as shown to the user.
    pub open spec fn spec_name(self) -> Seq<char> {
        match self {
            Key::S => "S"@,
            Key::B => "B"@,
            Key::W => "W"@,
            Key::Plus => "Plus"@,
            Key::Equals => "Equals"@,
            Key::Minus => "Minus"@,
            Key::F => "F"@,
            Key::I => "I"@,
            Key::V => "V"@,
            Key::Escape => "Escape"@,
        }
    }

    pub fn name(&self) -> (r: &'static str)
        ensures
            r@ == self.spec_name(),
    {
        match self {
            Key::S => "S",
            Key::B => "B",
            Key::W => "W",
            Key::Plus => "Plus",
            Key::Equals => "Equals",
            Key::Minus => "Minus",
            Key::F => "F",
            Key::I => "I",
            Key::V => "V",
            Key::Escape => "Escape",
        }
    }
}

/// Modifier keys; `command` is Ctrl, or Cmd on macOS.
#[derive(Clone, Copy, Debug, PartialEq, Eq, Structural)]
pub struct Modifiers {
    pub command: bool,
    pub alt: bool,
    pub shift: bool,
}

/// A key with its modifiers.
#[derive(Clone, Copy, Debug, PartialEq, Eq, Structural)]
pub struct KeyboardShortcut {
    pub modifiers: Modifiers,
    pub logical_key: Key,
}

pub open spec fn command_only() -> Modifiers {
    Modifiers { command: true, alt: false, shift: false }
}

pub open spec fn alt_only() -> Modifiers {
    Modifiers { command: false, alt: true, shift: false }
}

pub open spec fn no_modifiers() -> Modifiers {
    Modifiers { command: false, alt: false, shift: false }
}

/// A binding: its key, an optional second key, its action and its help line.
#[derive(Clone, Debug)]
pub struct ShortcutDef {
    pub trigger: KeyboardShortcut,
    pub secondary_trigger: Option<KeyboardShortcut>,
    pub action: AppAction,
    pub help: String,
}

/// How a shortcut is written: its modifiers, then the key's name.
pub open spec fn shortcut_text(t: KeyboardShortcut) -> Seq<char> {
    (if t.modifiers.command { "Ctrl/Cmd + "@ } else { Seq::empty() }) + (if t.modifiers.alt {
        "Alt + "@
    } else {
        Seq::empty()
    }) + (if t.modifiers.shift { "Shift + "@ } else { Seq::empty() }) + t.logical_key.spec_name()
}

/// `k` is the first binding of `action` in `all`.
pub open spec fn is_first_binding(all: Seq<ShortcutDef>, action: AppAction, k: int) -> bool {
    &&& 0 <= k < all.len()
    &&& all[k].action == action
    &&& forall|j: int| 0 <= j < k ==> (#[trigger] all[j]).action != action
}

impl ShortcutDef {
    pub open spec fn trigger_pair(self) -> (KeyboardShortcut, Option<KeyboardShortcut>) {
        (self.trigger, self.secondary_trigger)
    }

    /// The primary binding written out, e.g. `Ctrl/Cmd + S`.
    pub fn display_string(&self) -> (s: String)
        ensures
            s@ == shortcut_text(self.trigger),
    {
        let mut v: Vec<char> = Vec::new();
        let ghost e = Seq::<char>::empty();
        if self.trigger.modifiers.command {
            push_all(&mut v, &chars_of("Ctrl/Cmd + "));
        }
        if self.trigger.modifiers.alt {
            push_all(&mut v, &chars_of("Alt + "));
        }
        if self.trigger.modifiers.shift {
            push_all(&mut v, &chars_of("Shift + "));
        }
        push_all(&mut v, &chars_of(self.trigger.logical_key.name()));
        proof {
            let t = self.trigger;
            let a = if t.modifiers.command { "Ctrl/Cmd + "@ } else { e };
            let b = if t.modifiers.alt { "Alt + "@ } else { e };
            let c = if t.modifiers.shift { "Shift + "@ } else { e };
            assert(a + e == a);
            assert(a + b + e == a + b);
            assert(e + a == a);
            assert(v@ == a + b + c + t.logical_key.spec_name());
        }
        string_of(&v)
    }
}

fn def(modifiers: Modifiers, key: Key, second: Option<KeyboardShortcut>, action: AppAction, help: &str) -> (d: ShortcutDef)
    ensures
        d.trigger == (KeyboardShortcut { modifiers, logical_key: key }),
        d.secondary_trigger == second,
        d.action == action,
        d.help@ == help@,
{
    ShortcutDef {
        trigger: KeyboardShortcut { modifiers, logical_key: key },
        secondary_trigger: second,
        action,
        help: string_of(&chars_of(help)),
    }
}

/// The bindings: global ones, and those of the editor.
pub struct ShortcutRegistry {
    pub global: Vec<ShortcutDef>,
    pub editor: Vec<ShortcutDef>,
}

pub open spec fn binding(d: ShortcutDef) -> (KeyboardShortcut, Option<KeyboardShortcut>, AppAction) {
    (d.trigger, d.secondary_trigger, d.action)
}

impl ShortcutRegistry {
    /// The standard bindings: Ctrl+S save, Ctrl+B build, Ctrl+W close, Ctrl+Plus (or
    /// Ctrl+Equals) zoom in, Ctrl+Minus zoom out, Ctrl+F find; in the editor Ctrl+I send
    /// to the assistant, Alt+V vertical edit, Escape abort.
    pub fn new() -> (r: ShortcutRegistry)
        ensures
            r.global@.len() == 6,
            binding(r.global@[0]) == (KeyboardShortcut { modifiers: command_only(), logical_key: Key::S }, None::<KeyboardShortcut>, AppAction::SaveFile),
            binding(r.global@[1]) == (KeyboardShortcut { modifiers: command_only(), logical_key: Key::B }, None::<KeyboardShortcut>, AppAction::BuildProject),
            binding(r.global@[2]) == (KeyboardShortcut { modifiers: command_only(), logical_key: Key::W }, None::<KeyboardShortcut>, AppAction::CloseWindowOrFile),
            binding(r.global@[3]) == (
                KeyboardShortcut { modifiers: command_only(), logical_key: Key::Plus },
                Some(KeyboardShortcut { modifiers: command_only(), logical_key: Key::Equals }),
                AppAction::ZoomIn,
            ),
            binding(r.global@[4]) == (KeyboardShortcut { modifiers: command_only(), logical_key: Key::Minus }, None::<KeyboardShortcut>, AppAction::ZoomOut),
            binding(r.global@[5]) == (KeyboardShortcut { modifiers: command_only(), logical_key: Key::F }, None::<KeyboardShortcut>, AppAction::ToggleSearch),
            r.editor@.len() == 3,
            binding(r.editor@[0]) == (KeyboardShortcut { modifiers: command_only(), logical_key: Key::I }, None::<KeyboardShortcut>, AppAction::SendToAi),
            binding(r.editor@[1]) == (KeyboardShortcut { modifiers: alt_only(), logical_key: Key::V }, None::<KeyboardShortcut>, AppAction::ToggleVerticalEdit),
            binding(r.editor@[2]) == (KeyboardShortcut { modifiers: no_modifiers(), logical_key: Key::Escape }, None::<KeyboardShortcut>, AppAction::AbortOrClose),
            r.global@[0].help@ == "Save the current file"@,
            r.global@[1].help@ == "Execute the build pipeline"@,
            r.global@[2].help@ == "Close current file, or exit app if none open"@,
            r.global@[3].help@ == "Increase editor font size"@,
            r.global@[4].help@ == "Decrease editor font size"@,
            r.global@[5].help@ == "Open Find/Replace panel"@,
            r.editor@[0].help@ == "Send highlighted text to AI"@,
            r.editor@[1].help@ == "Toggle Vim-style Vertical Edit mode"@,
            r.editor@[2].help@ == "Cancel current operation / Close panels"@,
    {
        let cmd = Modifiers { command: true, alt: false, shift: false };
        let alt = Modifiers { command: false, alt: true, shift: false };
        let none = Modifiers { command: false, alt: false, shift: false };
        let mut global: Vec<ShortcutDef> = Vec::new();
        global.push(def(cmd, Key::S, None, AppAction::SaveFile, "Save the current file"));
        global.push(def(cmd, Key::B, None, AppAction::BuildProject, "Execute the build pipeline"));
        global.push(def(cmd, Key::W, None, AppAction::CloseWindowOrFile, "Close current file, or exit app if none open"));
        global.push(
            def(
                cmd,
                Key::Plus,
                Some(KeyboardShortcut { modifiers: cmd, logical_key: Key::Equals }),
                AppAction::ZoomIn,
                "Increase editor font size",
            ),
        );
        global.push(def(cmd, Key::Minus, None, AppAction::ZoomOut, "Decrease editor font size"));
        global.push(def(cmd, Key::F, None, AppAction::ToggleSearch, "Open Find/Replace panel"));
        let mut editor: Vec<ShortcutDef> = Vec::new();
        editor.push(def(cmd, Key::I, None, AppAction::SendToAi, "Send highlighted text to AI"));
        editor.push(def(alt, Key::V, None, AppAction::ToggleVerticalEdit, "Toggle Vim-style Vertical Edit mode"));
        editor.push(def(none, Key::Escape, None, AppAction::AbortOrClose, "Cancel current operation / Close panels"));
        ShortcutRegistry { global, editor }
    }

    /// The bindings of the first definition of `action`, global ones first.
    pub fn triggers_for(&self, action: AppAction) -> (r: Option<(KeyboardShortcut, Option<KeyboardShortcut>)>)
        ensures
            r is None <==> (forall|k: int| 0 <= k < self.global@.len() ==> (#[trigger] self.global@[k]).action != action)
                && (forall|k: int| 0 <= k < self.editor@.len() ==> (#[trigger] self.editor@[k]).action != action),
            r matches Some(t) ==> exists|k: int|
                is_first_binding(self.global@ + self.editor@, action, k)
                    && t == (#[trigger] (self.global@ + self.editor@)[k]).trigger_pair(),
    {
        let ghost all = self.global@ + self.editor@;
        let mut i: usize = 0;
        while i < self.global.len()
            invariant
                i <= self.global@.len(),
                all == self.global@ + self.editor@,
                forall|j: int| 0 <= j < i ==> (#[trigger] self.global@[j]).action != action,
            decreases self.global@.len() - i,
        {
            if self.global[i].action == action {
                let d = &self.global[i];
                assert(all[i as int] == self.global@[i as int]);
                assert forall|j: int| 0 <= j < i implies (#[trigger] all[j]).action != action by {
                    assert(all[j] == self.global@[j]);
                }
                return Some((d.trigger, d.secondary_trigger));
            }
            i = i + 1;
        }
        let mut k: usize = 0;
        let n = self.global.len();
        while k < self.editor.len()
            invariant
                k <= self.editor@.len(),
                n == self.global@.len(),
                all == self.global@ + self.editor@,
                forall|j: int| 0 <= j < n ==> (#[trigger] self.global@[j]).action != action,
                forall|j: int| 0 <= j < k ==> (#[trigger] self.editor@[j]).action != action,
            decreases self.editor@.len() - k,
        {
            if self.editor[k].action == action {
                let d = &self.editor[k];
                assert(all[n + k] == self.editor@[k as int]);
                assert forall|j: int| 0 <= j < n + k implies (#[trigger] all[j]).action != action by {
                    if j < n {
                        assert(all[j] == self.global@[j]);
                    } else {
                        assert(all[j] == self.editor@[j - n]);
                    }
                }
                return Some((d.trigger, d.secondary_trigger));
            }
            k = k + 1;
        }
        None
    }
}

impl Default for ShortcutRegistry {
    fn default() -> (r: ShortcutRegistry)
        ensures
            r.global@.len() == 6,
            r.editor@.len() == 3,
    {
        ShortcutRegistry::new()
    }
}

} // verus!
