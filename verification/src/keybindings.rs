//! Keyboard bindings that the user can change.
//!
//! A binding is a combination such as `Ctrl+Shift+Z`. An action whose binding
//! is missing or malformed keeps its default.

use vstd::prelude::*;
use vstd::string::*;
use crate::text::{characters, text_of, is_text_in_any_case, split, trim};
use crate::text::{lowered, pieces, texts, trimmed};

verus! {

/// Everything that a key can do.
#[derive(Clone, Copy, PartialEq, Eq, Debug, Hash, Structural)]
pub enum KeyAction {
    TogglePlay,
    Stop,
    AddSplit,
    ToggleSnap,
    ToggleReduction,
    ToggleGuideLine,
    ToggleMonoFold,
    PrevCorrDip,
    NextCorrDip,
    CycleFft,
    ZoomIn,
    ZoomOut,
    ZoomReset,
    PrevZone,
    NextZone,
    DeleteSplit,
    Undo,
    Redo,
}

impl KeyAction {
    pub open spec fn name(self) -> Seq<char> {
        match self {
            KeyAction::TogglePlay => "Play / pause"@,
            KeyAction::Stop => "Rewind to start"@,
            KeyAction::AddSplit => "Add split at playhead"@,
            KeyAction::ToggleSnap => "Toggle zero-crossing snap"@,
            KeyAction::ToggleReduction => "Toggle reduction overlay"@,
            KeyAction::ToggleGuideLine => "Toggle guide line"@,
            KeyAction::ToggleMonoFold => "Monitor mono sum"@,
            KeyAction::PrevCorrDip => "Previous correlation dip"@,
            KeyAction::NextCorrDip => "Next correlation dip"@,
            KeyAction::CycleFft => "Cycle FFT view"@,
            KeyAction::ZoomIn => "Zoom in"@,
            KeyAction::ZoomOut => "Zoom out"@,
            KeyAction::ZoomReset => "Reset zoom"@,
            KeyAction::PrevZone => "Previous zone"@,
            KeyAction::NextZone => "Next zone"@,
            KeyAction::DeleteSplit => "Delete selected split"@,
            KeyAction::Undo => "Undo"@,
            KeyAction::Redo => "Redo"@,
        }
    }

    /// The combination in force unless the user sets another.
    pub open spec fn usual(self) -> Seq<char> {
        match self {
            KeyAction::TogglePlay => "Space"@,
            KeyAction::Stop => "Shift+Space"@,
            KeyAction::AddSplit => "S"@,
            KeyAction::ToggleSnap => "Z"@,
            KeyAction::ToggleReduction => "R"@,
            KeyAction::ToggleGuideLine => "G"@,
            KeyAction::ToggleMonoFold => "M"@,
            KeyAction::PrevCorrDip => "["@,
            KeyAction::NextCorrDip => "]"@,
            KeyAction::CycleFft => "F"@,
            KeyAction::ZoomIn => "="@,
            KeyAction::ZoomOut => "-"@,
            KeyAction::ZoomReset => "0"@,
            KeyAction::PrevZone => "ArrowLeft"@,
            KeyAction::NextZone => "ArrowRight"@,
            KeyAction::DeleteSplit => "Delete"@,
            KeyAction::Undo => "Ctrl+Z"@,
            KeyAction::Redo => "Ctrl+Shift+Z"@,
        }
    }

    /// Every action, in the order of the settings page.
    pub open spec fn list() -> Seq<KeyAction> {
        seq![
            KeyAction::TogglePlay,
            KeyAction::Stop,
            KeyAction::AddSplit,
            KeyAction::ToggleSnap,
            KeyAction::ToggleReduction,
            KeyAction::ToggleGuideLine,
            KeyAction::ToggleMonoFold,
            KeyAction::PrevCorrDip,
            KeyAction::NextCorrDip,
            KeyAction::CycleFft,
            KeyAction::ZoomIn,
            KeyAction::ZoomOut,
            KeyAction::ZoomReset,
            KeyAction::PrevZone,
            KeyAction::NextZone,
            KeyAction::DeleteSplit,
            KeyAction::Undo,
            KeyAction::Redo,
        ]
    }

    /// Every action, in the order of the settings page.
    pub fn all() -> (list: [KeyAction; 18])
        ensures
            list@ == KeyAction::list(),
    {
        let list: [KeyAction; 18] = [
            KeyAction::TogglePlay,
            KeyAction::Stop,
            KeyAction::AddSplit,
            KeyAction::ToggleSnap,
            KeyAction::ToggleReduction,
            KeyAction::ToggleGuideLine,
            KeyAction::ToggleMonoFold,
            KeyAction::PrevCorrDip,
            KeyAction::NextCorrDip,
            KeyAction::CycleFft,
            KeyAction::ZoomIn,
            KeyAction::ZoomOut,
            KeyAction::ZoomReset,
            KeyAction::PrevZone,
            KeyAction::NextZone,
            KeyAction::DeleteSplit,
            KeyAction::Undo,
            KeyAction::Redo,
        ];
        list
    }

    /// What the settings page calls the action.
    pub fn label(self) -> (s: &'static str)
        ensures
            s@ == self.name(),
    {
        match self {
            KeyAction::TogglePlay => "Play / pause",
            KeyAction::Stop => "Rewind to start",
            KeyAction::AddSplit => "Add split at playhead",
            KeyAction::ToggleSnap => "Toggle zero-crossing snap",
            KeyAction::ToggleReduction => "Toggle reduction overlay",
            KeyAction::ToggleGuideLine => "Toggle guide line",
            KeyAction::ToggleMonoFold => "Monitor mono sum",
            KeyAction::PrevCorrDip => "Previous correlation dip",
            KeyAction::NextCorrDip => "Next correlation dip",
            KeyAction::CycleFft => "Cycle FFT view",
            KeyAction::ZoomIn => "Zoom in",
            KeyAction::ZoomOut => "Zoom out",
            KeyAction::ZoomReset => "Reset zoom",
            KeyAction::PrevZone => "Previous zone",
            KeyAction::NextZone => "Next zone",
            KeyAction::DeleteSplit => "Delete selected split",
            KeyAction::Undo => "Undo",
            KeyAction::Redo => "Redo",
        }
    }

    /// The combination in force unless the user sets another.
    pub fn default_combo(self) -> (s: &'static str)
        ensures
            s@ == self.usual(),
    {
        match self {
            KeyAction::TogglePlay => "Space",
            KeyAction::Stop => "Shift+Space",
            KeyAction::AddSplit => "S",
            KeyAction::ToggleSnap => "Z",
            KeyAction::ToggleReduction => "R",
            KeyAction::ToggleGuideLine => "G",
            KeyAction::ToggleMonoFold => "M",
            KeyAction::PrevCorrDip => "[",
            KeyAction::NextCorrDip => "]",
            KeyAction::CycleFft => "F",
            KeyAction::ZoomIn => "=",
            KeyAction::ZoomOut => "-",
            KeyAction::ZoomReset => "0",
            KeyAction::PrevZone => "ArrowLeft",
            KeyAction::NextZone => "ArrowRight",
            KeyAction::DeleteSplit => "Delete",
            KeyAction::Undo => "Ctrl+Z",
            KeyAction::Redo => "Ctrl+Shift+Z",
        }
    }
}

/// The modifiers that count. Lock keys do not.
#[derive(Clone, Copy, PartialEq, Eq, Debug, Structural)]
pub struct Modifiers {
    pub shift: bool,
    pub command: bool,
    pub alt: bool,
}

/// A key that has a name instead of a character.
#[derive(Clone, Copy, PartialEq, Eq, Debug, Structural)]
pub enum Named {
    Space,
    Enter,
    Escape,
    Tab,
    Backspace,
    Delete,
    Home,
    End,
    PageUp,
    PageDown,
    ArrowLeft,
    ArrowRight,
    ArrowUp,
    ArrowDown,
    /// A named key that no combination can mean.
    Unbindable,
}

/// A key, of a combination or of the keyboard.
#[derive(Debug)]
pub enum Key {
    Named(Named),
    Character(String),
    Unidentified,
}

/// What a key stands for.
pub enum KeyModel {
    Named(Named),
    Character(Seq<char>),
    Unidentified,
}

impl View for Key {
    type V = KeyModel;

    open spec fn view(&self) -> KeyModel {
        match self {
            Key::Named(n) => KeyModel::Named(*n),
            Key::Character(s) => KeyModel::Character(s@),
            Key::Unidentified => KeyModel::Unidentified,
        }
    }
}

// ---- Combinations -----------------------------------------------------------

/// A modifier in a combination.
#[derive(Clone, Copy, PartialEq, Eq, Debug, Structural)]
pub enum Modifier {
    Command,
    Shift,
    Alt,
}

/// The modifier that a piece of a combination means, if it means one.
pub open spec fn modifier_of(piece: Seq<char>) -> Option<Modifier> {
    let p = lowered(piece);
    if p == lowered("ctrl"@) || p == lowered("control"@) || p == lowered("cmd"@) || p == lowered(
        "command"@,
    ) {
        Some(Modifier::Command)
    } else if p == lowered("shift"@) {
        Some(Modifier::Shift)
    } else if p == lowered("alt"@) || p == lowered("option"@) {
        Some(Modifier::Alt)
    } else {
        None
    }
}

pub open spec fn with_modifier(m: Modifiers, x: Modifier) -> Modifiers {
    match x {
        Modifier::Command => Modifiers { command: true, ..m },
        Modifier::Shift => Modifiers { shift: true, ..m },
        Modifier::Alt => Modifiers { alt: true, ..m },
    }
}

/// The key that a piece of a combination means: a named key, or the characters
/// themselves.
pub open spec fn key_of(piece: Seq<char>) -> KeyModel {
    let p = lowered(piece);

    if p == lowered("space"@) {
        KeyModel::Named(Named::Space)
    } else if p == lowered("enter"@) || p == lowered("return"@) {
        KeyModel::Named(Named::Enter)
    } else if p == lowered("escape"@) || p == lowered("esc"@) {
        KeyModel::Named(Named::Escape)
    } else if p == lowered("tab"@) {
        KeyModel::Named(Named::Tab)
    } else if p == lowered("backspace"@) {
        KeyModel::Named(Named::Backspace)
    } else if p == lowered("delete"@) || p == lowered("del"@) {
        KeyModel::Named(Named::Delete)
    } else if p == lowered("home"@) {
        KeyModel::Named(Named::Home)
    } else if p == lowered("end"@) {
        KeyModel::Named(Named::End)
    } else if p == lowered("pageup"@) {
        KeyModel::Named(Named::PageUp)
    } else if p == lowered("pagedown"@) {
        KeyModel::Named(Named::PageDown)
    } else if p == lowered("arrowleft"@) || p == lowered("left"@) {
        KeyModel::Named(Named::ArrowLeft)
    } else if p == lowered("arrowright"@) || p == lowered("right"@) {
        KeyModel::Named(Named::ArrowRight)
    } else if p == lowered("arrowup"@) || p == lowered("up"@) {
        KeyModel::Named(Named::ArrowUp)
    } else if p == lowered("arrowdown"@) || p == lowered("down"@) {
        KeyModel::Named(Named::ArrowDown)
    } else {
        KeyModel::Character(piece)
    }
}

/// The pieces of a combination. Two empty ones at the end mean that the key is
/// the plus sign itself.
pub open spec fn combo_pieces(s: Seq<char>) -> Seq<Seq<char>> {
    let p = pieces(s, '+').map_values(|x: Seq<char>| trimmed(x));
    if p.len() >= 2 && p.last().len() == 0 && p[p.len() - 2].len() == 0 {
        p.take(p.len() - 2).push(seq!['+'])
    } else {
        p
    }
}

/// A combination in the making: its modifiers, and its key once it was read.
pub struct ComboModel {
    pub mods: Modifiers,
    pub key: Option<Seq<char>>,
}

pub open spec fn no_modifiers() -> Modifiers {
    Modifiers { shift: false, command: false, alt: false }
}

/// What the first `n` pieces of a combination say; nothing where they hold two
/// keys.
pub open spec fn combo_so_far(p: Seq<Seq<char>>, n: int) -> Option<ComboModel>
    decreases n,
{
    if n <= 0 {
        Some(ComboModel { mods: no_modifiers(), key: None })
    } else {
        match combo_so_far(p, n - 1) {
            None => None,
            Some(c) => match modifier_of(p[n - 1]) {
                Some(m) => Some(ComboModel { mods: with_modifier(c.mods, m), key: c.key }),
                None => if c.key is Some {
                    None
                } else {
                    Some(ComboModel { mods: c.mods, key: Some(p[n - 1]) })
                },
            },
        }
    }
}

/// What a combination means: its modifiers and its key. Nothing where it has no
/// key or more than one.
pub open spec fn combo_of(s: Seq<char>) -> Option<(Modifiers, KeyModel)> {
    let p = combo_pieces(s);
    match combo_so_far(p, p.len() as int) {
        None => None,
        Some(c) => match c.key {
            None => None,
            Some(k) => Some((c.mods, key_of(k))),
        },
    }
}

fn read_modifier(piece: &Vec<char>) -> (r: Option<Modifier>)
    ensures
        r == modifier_of(piece@),
{
    if is_text_in_any_case(piece, "ctrl") || is_text_in_any_case(piece, "control")
        || is_text_in_any_case(piece, "cmd") || is_text_in_any_case(piece, "command") {
        Some(Modifier::Command)
    } else if is_text_in_any_case(piece, "shift") {
        Some(Modifier::Shift)
    } else if is_text_in_any_case(piece, "alt") || is_text_in_any_case(piece, "option") {
        Some(Modifier::Alt)
    } else {
        None
    }
}

/// Reads the key of a combination.
pub fn parse_key(piece: &Vec<char>) -> (k: Key)
    ensures
        k@ == key_of(piece@),
{

    if is_text_in_any_case(piece, "space") {
        Key::Named(Named::Space)
    } else if is_text_in_any_case(piece, "enter") || is_text_in_any_case(piece, "return") {
        Key::Named(Named::Enter)
    } else if is_text_in_any_case(piece, "escape") || is_text_in_any_case(piece, "esc") {
        Key::Named(Named::Escape)
    } else if is_text_in_any_case(piece, "tab") {
        Key::Named(Named::Tab)
    } else if is_text_in_any_case(piece, "backspace") {
        Key::Named(Named::Backspace)
    } else if is_text_in_any_case(piece, "delete") || is_text_in_any_case(piece, "del") {
        Key::Named(Named::Delete)
    } else if is_text_in_any_case(piece, "home") {
        Key::Named(Named::Home)
    } else if is_text_in_any_case(piece, "end") {
        Key::Named(Named::End)
    } else if is_text_in_any_case(piece, "pageup") {
        Key::Named(Named::PageUp)
    } else if is_text_in_any_case(piece, "pagedown") {
        Key::Named(Named::PageDown)
    } else if is_text_in_any_case(piece, "arrowleft") || is_text_in_any_case(piece, "left") {
        Key::Named(Named::ArrowLeft)
    } else if is_text_in_any_case(piece, "arrowright") || is_text_in_any_case(piece, "right") {
        Key::Named(Named::ArrowRight)
    } else if is_text_in_any_case(piece, "arrowup") || is_text_in_any_case(piece, "up") {
        Key::Named(Named::ArrowUp)
    } else if is_text_in_any_case(piece, "arrowdown") || is_text_in_any_case(piece, "down") {
        Key::Named(Named::ArrowDown)
    } else {
        assert(piece@.subrange(0, piece@.len() as int) =~= piece@);
        Key::Character(text_of(piece, 0, piece.len()))
    }
}

fn read_pieces(s: &str) -> (list: Vec<Vec<char>>)
    ensures
        texts(list@) == combo_pieces(s@),
{
    let v: Vec<char> = characters(s);
    let raw: Vec<Vec<char>> = split(&v, '+');
    let mut list: Vec<Vec<char>> = Vec::new();
    let ghost wanted = pieces(s@, '+').map_values(|x: Seq<char>| trimmed(x));
    let mut i: usize = 0;
    while i < raw.len()
        invariant
            texts(raw@) == pieces(s@, '+'),
            wanted == pieces(s@, '+').map_values(|x: Seq<char>| trimmed(x)),
            i <= raw@.len(),
            texts(list@) =~= wanted.take(i as int),
        decreases raw@.len() - i,
    {
        assert(texts(raw@)[i as int] == raw@[i as int]@);
        let ghost before = texts(list@);
        let piece: Vec<char> = trim(&raw[i]);
        let ghost last = piece@;
        list.push(piece);
        assert(texts(list@) =~= before.push(last));
        i = i + 1;
    }
    assert(texts(raw@).len() == raw@.len());
    assert(texts(list@) =~= wanted);
    let n: usize = list.len();
    if n >= 2 {
        assert(texts(list@)[n - 1] == list@[n - 1]@);
        assert(texts(list@)[n - 2] == list@[n - 2]@);
        if list[n - 1].len() == 0 && list[n - 2].len() == 0 {
            list.truncate(n - 2);
            assert(texts(list@) =~= wanted.take(n - 2));
            let mut plus: Vec<char> = Vec::new();
            plus.push('+');
            assert(plus@ =~= seq!['+']);
            let ghost before = texts(list@);
            let ghost sign = plus@;
            list.push(plus);
            assert(texts(list@) =~= before.push(sign));
        }
    }
    list
}

pub open spec fn combo_view(c: Option<(Modifiers, Key)>) -> Option<(Modifiers, KeyModel)> {
    match c {
        None => None,
        Some((m, k)) => Some((m, k@)),
    }
}

/// Reads a combination such as `Ctrl+Shift+Z`.
pub fn parse_combo(s: &str) -> (r: Option<(Modifiers, Key)>)
    ensures
        combo_view(r) == combo_of(s@),
{
    let list: Vec<Vec<char>> = read_pieces(s);
    let ghost p = combo_pieces(s@);
    assert(p.len() == list@.len());
    let mut mods: Modifiers = Modifiers { shift: false, command: false, alt: false };
    let mut key: Option<usize> = None;
    let mut i: usize = 0;
    while i < list.len()
        invariant
            p == texts(list@),
            p.len() == list@.len(),
            i <= list@.len(),
            key matches Some(k) ==> k < list@.len(),
            combo_so_far(p, i as int) == Some(
                (ComboModel {
                    mods,
                    key: match key {
                        Some(k) => Some(p[k as int]),
                        None => None,
                    },
                }),
            ),
            p == combo_pieces(s@),
        decreases list@.len() - i,
    {
        assert(p[i as int] == list@[i as int]@);
        match read_modifier(&list[i]) {
            Some(Modifier::Command) => {
                mods = Modifiers { command: true, ..mods };
            },
            Some(Modifier::Shift) => {
                mods = Modifiers { shift: true, ..mods };
            },
            Some(Modifier::Alt) => {
                mods = Modifiers { alt: true, ..mods };
            },
            None => {
                if key.is_some() {
                    proof {
                        assert(combo_so_far(p, i + 1) is None);
                        lemma_stays_malformed(p, i + 1, p.len() as int);
                    }
                    return None;
                }
                key = Some(i);
            },
        }
        i = i + 1;
    }
    match key {
        None => None,
        Some(k) => {
            assert(p[k as int] == list@[k as int]@);
            Some((mods, parse_key(&list[k])))
        },
    }
}

proof fn lemma_stays_malformed(p: Seq<Seq<char>>, a: int, b: int)
    requires
        0 <= a <= b,
        combo_so_far(p, a) is None,
    ensures
        combo_so_far(p, b) is None,
    decreases b - a,
{
    if a < b {
        lemma_stays_malformed(p, a, b - 1);
    }
}

/// Is the key of a combination the one that was pressed? Characters match in
/// either case.
pub open spec fn same_key(wanted: KeyModel, pressed: KeyModel) -> bool {
    match (wanted, pressed) {
        (KeyModel::Named(a), KeyModel::Named(b)) => a == b && a != Named::Unbindable,
        (KeyModel::Character(a), KeyModel::Character(b)) => lowered(a) == lowered(b),
        _ => false,
    }
}

/// Is the key of a combination the one that was pressed?
pub fn key_matches(wanted: &Key, pressed: &Key) -> (r: bool)
    ensures
        r == same_key(wanted@, pressed@),
{
    match (wanted, pressed) {
        (Key::Named(a), Key::Named(b)) => *a == *b && *a != Named::Unbindable,
        (Key::Character(a), Key::Character(b)) => {
            let v: Vec<char> = characters(a.as_str());
            is_text_in_any_case(&v, b.as_str())
        },
        _ => false,
    }
}

// ---- Bindings ---------------------------------------------------------------

/// The user's bindings: an action and its combination.
pub struct Bindings {
    pub list: Vec<(KeyAction, String)>,
}

pub open spec fn entries(list: Seq<(KeyAction, String)>) -> Seq<(KeyAction, Seq<char>)> {
    list.map_values(|e: (KeyAction, String)| (e.0, e.1@))
}

impl View for Bindings {
    type V = Seq<(KeyAction, Seq<char>)>;

    open spec fn view(&self) -> Seq<(KeyAction, Seq<char>)> {
        entries(self.list@)
    }
}

/// Does a combination mean these modifiers and this key?
pub open spec fn means(combo: Seq<char>, mods: Modifiers, key: KeyModel) -> bool {
    combo_of(combo) matches Some((m, k)) && m == mods && same_key(k, key)
}

/// The first entry from `i` on whose combination was pressed.
pub open spec fn first_bound(
    b: Seq<(KeyAction, Seq<char>)>,
    mods: Modifiers,
    key: KeyModel,
    i: nat,
) -> Option<KeyAction>
    decreases b.len() - i,
{
    if i >= b.len() {
        None
    } else if means(b[i as int].1, mods, key) {
        Some(b[i as int].0)
    } else {
        first_bound(b, mods, key, i + 1)
    }
}

/// Does the action have a binding that can be read?
pub open spec fn is_bound(b: Seq<(KeyAction, Seq<char>)>, a: KeyAction) -> bool {
    exists|i: int| 0 <= i < b.len() && (#[trigger] b[i]).0 == a && combo_of(b[i].1) is Some
}

/// The first action from `i` on that keeps its default, and whose default was
/// pressed.
pub open spec fn first_usual(
    b: Seq<(KeyAction, Seq<char>)>,
    mods: Modifiers,
    key: KeyModel,
    i: nat,
) -> Option<KeyAction>
    decreases KeyAction::list().len() - i,
{
    if i >= KeyAction::list().len() {
        None
    } else {
        let a = KeyAction::list()[i as int];
        if !is_bound(b, a) && means(a.usual(), mods, key) {
            Some(a)
        } else {
            first_usual(b, mods, key, i + 1)
        }
    }
}

/// The action for exactly these modifiers: a binding, or else a default that no
/// binding replaces.
pub open spec fn exact_action(b: Seq<(KeyAction, Seq<char>)>, mods: Modifiers, key: KeyModel) -> Option<
    KeyAction,
> {
    match first_bound(b, mods, key, 0) {
        Some(a) => Some(a),
        None => first_usual(b, mods, key, 0),
    }
}

/// The action of a key press. A character that was typed with Shift also counts
/// without it, because Shift is already part of the character.
pub open spec fn action_of(b: Seq<(KeyAction, Seq<char>)>, mods: Modifiers, key: KeyModel) -> Option<
    KeyAction,
> {
    match exact_action(b, mods, key) {
        Some(a) => Some(a),
        None => if key is Character && mods.shift {
            exact_action(b, Modifiers { shift: false, ..mods }, key)
        } else {
            None
        },
    }
}

/// The combination shown for an action: the user's, or else the default.
pub open spec fn shown_combo(b: Seq<(KeyAction, Seq<char>)>, a: KeyAction, i: nat) -> Seq<char>
    decreases b.len() - i,
{
    if i >= b.len() {
        a.usual()
    } else if b[i as int].0 == a {
        b[i as int].1
    } else {
        shown_combo(b, a, i + 1)
    }
}

fn pressed(combo: &str, mods: Modifiers, key: &Key) -> (r: bool)
    ensures
        r == means(combo@, mods, key@),
{
    match parse_combo(combo) {
        None => false,
        Some((m, k)) => m == mods && key_matches(&k, key),
    }
}

impl Default for Bindings {
    fn default() -> (b: Bindings)
        ensures
            b@ == KeyAction::list().map_values(|a: KeyAction| (a, a.usual())),
    {
        let all: [KeyAction; 18] = KeyAction::all();
        let mut list: Vec<(KeyAction, String)> = Vec::new();
        let ghost wanted = KeyAction::list().map_values(|a: KeyAction| (a, a.usual()));
        let mut i: usize = 0;
        while i < 18
            invariant
                all@ == KeyAction::list(),
                wanted == KeyAction::list().map_values(|a: KeyAction| (a, a.usual())),
                i <= 18,
                entries(list@) =~= wanted.take(i as int),
            decreases 18 - i,
        {
            let a: KeyAction = all[i];
            let ghost before = entries(list@);
            list.push((a, a.default_combo().to_owned()));
            assert(entries(list@) =~= before.push((a, a.usual())));
            i = i + 1;
        }
        assert(wanted.take(18) =~= wanted);
        Bindings { list }
    }
}

impl Bindings {
    fn find_bound(&self, mods: Modifiers, key: &Key) -> (r: Option<KeyAction>)
        ensures
            r == first_bound(self@, mods, key@, 0),
    {
        let mut i: usize = 0;
        while i < self.list.len()
            invariant
                i <= self.list@.len(),
                first_bound(self@, mods, key@, 0) == first_bound(self@, mods, key@, i as nat),
            decreases self.list@.len() - i,
        {
            assert(self@[i as int] == (self.list@[i as int].0, self.list@[i as int].1@));
            if pressed(self.list[i].1.as_str(), mods, key) {
                return Some(self.list[i].0);
            }
            i = i + 1;
        }
        None
    }

    fn has_binding(&self, a: KeyAction) -> (r: bool)
        ensures
            r == is_bound(self@, a),
    {
        let mut i: usize = 0;
        while i < self.list.len()
            invariant
                i <= self.list@.len(),
                forall|k: int|
                    0 <= k < i ==> !((#[trigger] self@[k]).0 == a && combo_of(self@[k].1) is Some),
            decreases self.list@.len() - i,
        {
            assert(self@[i as int] == (self.list@[i as int].0, self.list@[i as int].1@));
            if self.list[i].0 == a && parse_combo(self.list[i].1.as_str()).is_some() {
                return true;
            }
            i = i + 1;
        }
        false
    }

    fn find_exact(&self, mods: Modifiers, key: &Key) -> (r: Option<KeyAction>)
        ensures
            r == exact_action(self@, mods, key@),
    {
        if let Some(a) = self.find_bound(mods, key) {
            return Some(a);
        }
        let all: [KeyAction; 18] = KeyAction::all();
        let mut i: usize = 0;
        while i < 18
            invariant
                all@ == KeyAction::list(),
                i <= 18,
                first_usual(self@, mods, key@, 0) == first_usual(self@, mods, key@, i as nat),
                first_bound(self@, mods, key@, 0) is None,
            decreases 18 - i,
        {
            let a: KeyAction = all[i];
            if !self.has_binding(a) && pressed(a.default_combo(), mods, key) {
                return Some(a);
            }
            i = i + 1;
        }
        None
    }

    /// The action of a key press.
    pub fn lookup(&self, mods: Modifiers, key: &Key) -> (r: Option<KeyAction>)
        ensures
            r == action_of(self@, mods, key@),
    {
        if let Some(a) = self.find_exact(mods, key) {
            return Some(a);
        }
        match key {
            Key::Character(_) => if mods.shift {
                self.find_exact(Modifiers { shift: false, ..mods }, key)
            } else {
                None
            },
            _ => None,
        }
    }

    /// The combination shown for an action.
    pub fn display(&self, action: KeyAction) -> (s: String)
        ensures
            s@ == shown_combo(self@, action, 0),
    {
        let mut i: usize = 0;
        while i < self.list.len()
            invariant
                i <= self.list@.len(),
                shown_combo(self@, action, 0) == shown_combo(self@, action, i as nat),
            decreases self.list@.len() - i,
        {
            assert(self@[i as int] == (self.list@[i as int].0, self.list@[i as int].1@));
            if self.list[i].0 == action {
                return self.list[i].1.clone();
            }
            i = i + 1;
        }
        action.default_combo().to_owned()
    }
}

// ---- Laws -------------------------------------------------------------------

/// A malformed binding counts as none: the default stays in force.
pub proof fn law_malformed_binding_is_ignored(
    b: Seq<(KeyAction, Seq<char>)>,
    a: KeyAction,
    combo: Seq<char>,
    mods: Modifiers,
    key: KeyModel,
)
    requires
        combo_of(combo) is None,
    ensures
        action_of(b.push((a, combo)), mods, key) == action_of(b, mods, key),
{
    let plain = Modifiers { shift: false, ..mods };
    lemma_malformed(b, a, combo, mods, key, 0, 0);
    lemma_malformed(b, a, combo, plain, key, 0, 0);
}

proof fn lemma_malformed(
    b: Seq<(KeyAction, Seq<char>)>,
    a: KeyAction,
    combo: Seq<char>,
    mods: Modifiers,
    key: KeyModel,
    i: nat,
    j: nat,
)
    requires
        combo_of(combo) is None,
        i <= b.len(),
    ensures
        first_bound(b.push((a, combo)), mods, key, i) == first_bound(b, mods, key, i),
        first_usual(b.push((a, combo)), mods, key, j) == first_usual(b, mods, key, j),
    decreases (b.len() - i) + (if j < KeyAction::list().len() { KeyAction::list().len() - j } else { 0 }),
{
    let c = b.push((a, combo));
    if i < b.len() {
        assert(c[i as int] == b[i as int]);
        if !means(b[i as int].1, mods, key) {
            lemma_malformed(b, a, combo, mods, key, i + 1, KeyAction::list().len());
        }
    } else {
        assert(c[i as int] == (a, combo));
        assert(first_bound(c, mods, key, i + 1) is None);
    }
    if j < KeyAction::list().len() {
        let x = KeyAction::list()[j as int];
        assert(is_bound(c, x) == is_bound(b, x)) by {
            if is_bound(b, x) {
                let k = choose|k: int| 0 <= k < b.len() && (#[trigger] b[k]).0 == x && combo_of(b[k].1) is Some;
                assert(c[k] == b[k]);
            }
            if is_bound(c, x) {
                let k = choose|k: int| 0 <= k < c.len() && (#[trigger] c[k]).0 == x && combo_of(c[k].1) is Some;
                if k < b.len() {
                    assert(c[k] == b[k]);
                }
            }
        }
        lemma_malformed(b, a, combo, mods, key, b.len(), j + 1);
    }
}

/// What a binding says wins over every default.
pub proof fn law_binding_wins(b: Seq<(KeyAction, Seq<char>)>, mods: Modifiers, key: KeyModel, i: int)
    requires
        0 <= i < b.len(),
        means(b[i].1, mods, key),
        forall|k: int| 0 <= k < i ==> !means((#[trigger] b[k]).1, mods, key),
    ensures
        action_of(b, mods, key) == Some(b[i].0),
{
    lemma_first_bound(b, mods, key, 0, i);
}

proof fn lemma_first_bound(b: Seq<(KeyAction, Seq<char>)>, mods: Modifiers, key: KeyModel, j: nat, i: int)
    requires
        j <= i < b.len(),
        means(b[i].1, mods, key),
        forall|k: int| 0 <= k < i ==> !means((#[trigger] b[k]).1, mods, key),
    ensures
        first_bound(b, mods, key, j) == Some(b[i].0),
    decreases i - j,
{
    if j < i {
        assert(!means(b[j as int].1, mods, key));
        lemma_first_bound(b, mods, key, j + 1, i);
    }
}

} // verus!
