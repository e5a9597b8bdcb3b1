//! Application settings: hotkey bindings, output defaults, font scales and
//! the locations of the configuration files.
use vstd::prelude::*;
use vstd::string::StringExecFns;
use crate::text::{
    decimal, push_decimal, replace_all, replace_all_chars, push_char,
    ascii_lower, ascii_lower_chars, chars_of, eq_ignore_ascii_case, is_white_space, split_chars,
    split_on, string_of, trim_chars, trimmed, lemma_split_concat, lemma_split_none,
    lemma_split_nonempty, lemma_trimmed_unchanged, lemma_split_pieces, lemma_trimmed_shape,
};

verus! {

broadcast use vstd::string::group_string_axioms;

// ── Hotkey bindings ─────────────────────────────────────────────────────────

/// A parsed hotkey binding: modifier flags and a key name.
///
/// Written as a human-readable string like `"Ctrl+Shift+W"` or `"F5"`;
/// an empty key means "not set".
#[derive(Debug, Clone, PartialEq, Eq)]
pub struct HotkeyBinding {
    pub ctrl: bool,
    pub shift: bool,
    pub alt: bool,
    pub super_key: bool,
    pub key: String,
}

/// The value of a binding, with the key as a character sequence.
pub struct HotkeyView {
    pub ctrl: bool,
    pub shift: bool,
    pub alt: bool,
    pub super_key: bool,
    pub key: Seq<char>,
}

impl View for HotkeyBinding {
    type V = HotkeyView;

    open spec fn view(&self) -> HotkeyView {
        HotkeyView {
            ctrl: self.ctrl,
            shift: self.shift,
            alt: self.alt,
            super_key: self.super_key,
            key: self.key@,
        }
    }
}

pub open spec fn unbound() -> HotkeyView {
    HotkeyView { ctrl: false, shift: false, alt: false, super_key: false, key: Seq::empty() }
}

pub open spec fn is_ctrl_word(w: Seq<char>) -> bool {
    w == "ctrl"@ || w == "control"@
}

pub open spec fn is_shift_word(w: Seq<char>) -> bool {
    w == "shift"@
}

pub open spec fn is_alt_word(w: Seq<char>) -> bool {
    w == "alt"@ || w == "option"@ || w == "opt"@
}

pub open spec fn is_super_word(w: Seq<char>) -> bool {
    w == "cmd"@ || w == "command"@ || w == "super"@ || w == "win"@ || w == "meta"@
}

/// The trimmed `i`-th piece with ASCII capitals made small, as it is compared
/// with the modifier names. (All modifier names are ASCII, so ASCII case
/// folding decides a match exactly as full Unicode lower-casing would.)
pub open spec fn modifier_word(parts: Seq<Seq<char>>, i: int) -> Seq<char> {
    ascii_lower(trimmed(parts[i]))
}

/// What `HotkeyBinding::parse` makes of `s`: the text is trimmed and split at
/// `+`; the last piece (trimmed) is the key, every other piece names a
/// modifier, and pieces that name none are ignored.
pub open spec fn parse_spec(s: Seq<char>) -> HotkeyView {
    let t = trimmed(s);
    if t.len() == 0 {
        unbound()
    } else {
        let parts = split_on(t, '+');
        let n = parts.len() - 1;
        HotkeyView {
            ctrl: exists|i: int| 0 <= i < n && is_ctrl_word(#[trigger] modifier_word(parts, i)),
            shift: exists|i: int| 0 <= i < n && is_shift_word(#[trigger] modifier_word(parts, i)),
            alt: exists|i: int| 0 <= i < n && is_alt_word(#[trigger] modifier_word(parts, i)),
            super_key: exists|i: int|
                0 <= i < n && is_super_word(#[trigger] modifier_word(parts, i)),
            key: trimmed(parts[n]),
        }
    }
}

pub open spec fn flag_text(on: bool, text: Seq<char>) -> Seq<char> {
    if on {
        text
    } else {
        Seq::empty()
    }
}

/// The platform whose name for the super modifier key a binding is written with.
#[derive(Clone, Copy, PartialEq, Eq, Debug, Structural)]
pub enum KeyPlatform {
    /// macOS, which calls it `Cmd`.
    MacOs,
    /// Every other platform, which calls it `Win`.
    Other,
}

/// The name of the super modifier on platform `p`.
pub open spec fn super_name(p: KeyPlatform) -> Seq<char> {
    match p {
        KeyPlatform::MacOs => "Cmd"@,
        KeyPlatform::Other => "Win"@,
    }
}

fn super_text(p: KeyPlatform) -> (w: &'static str)
    ensures
        w@ == super_name(p),
{
    match p {
        KeyPlatform::MacOs => "Cmd",
        KeyPlatform::Other => "Win",
    }
}

/// The text of a binding on platform `p`: the set modifiers in the order
/// Ctrl, Alt, Shift, super (`Cmd` on macOS, `Win` elsewhere), then the key,
/// joined by `+`; empty when the binding is not set.
pub open spec fn display_spec(b: HotkeyView, p: KeyPlatform) -> Seq<char> {
    if b.key.len() == 0 {
        Seq::empty()
    } else {
        flag_text(b.ctrl, "Ctrl+"@) + flag_text(b.alt, "Alt+"@) + flag_text(b.shift, "Shift+"@)
            + flag_text(b.super_key, super_name(p) + seq!['+']) + b.key
    }
}

/// The modifier keys held during a key event.
#[derive(Clone, Copy, Debug)]
pub struct KeyModifiers {
    pub control: bool,
    pub shift: bool,
    pub alt: bool,
    pub super_key: bool,
}

fn text_is(w: &String, lit: &str) -> (r: bool)
    ensures
        r == (w@ == lit@),
{
    *w == lit.to_string()
}

impl HotkeyBinding {
    /// An unbound (empty) hotkey.
    pub fn none() -> (b: Self)
        ensures
            b@ == unbound(),
    {
        HotkeyBinding { ctrl: false, shift: false, alt: false, super_key: false, key: String::new() }
    }

    /// Whether this binding is set.
    pub fn is_set(&self) -> (r: bool)
        ensures
            r == (self.key@.len() > 0),
    {
        !self.key.as_str().is_empty()
    }

    /// Format as a human-readable string like `"Ctrl+Shift+W"`, naming the
    /// super modifier as `platform` does.
    pub fn display(&self, platform: KeyPlatform) -> (s: String)
        ensures
            s@ == display_spec(self@, platform),
    {
        let mut out = String::new();
        if !self.is_set() {
            return out;
        }
        if self.ctrl {
            out.append("Ctrl+");
        }
        if self.alt {
            out.append("Alt+");
        }
        if self.shift {
            out.append("Shift+");
        }
        if self.super_key {
            out.append(super_text(platform));
            push_char(&mut out, '+');
        }
        out.append(self.key.as_str());
        proof {
            assert(out@ =~= display_spec(self@, platform));
        }
        out
    }

    /// Parse from a string like `"Ctrl+Shift+W"`.
    pub fn parse(s: &str) -> (b: Self)
        ensures
            b@ == parse_spec(s@),
    {
        let t = trim_chars(&chars_of(s));
        if t.len() == 0 {
            return Self::none();
        }
        let parts = split_chars(&t, '+');
        proof {
            lemma_split_nonempty(t@, '+');
        }
        let ghost spec_parts = split_on(t@, '+');
        let n = parts.len() - 1;
        let mut binding = Self::none();
        let mut i: usize = 0;
        while i < n
            invariant
                n + 1 == parts@.len() == spec_parts.len(),
                parts.deep_view() == spec_parts,
                i <= n,
                binding.key@ == Seq::<char>::empty(),
                binding.ctrl == exists|k: int| 0 <= k < i && is_ctrl_word(#[trigger] modifier_word(spec_parts, k)),
                binding.shift == exists|k: int| 0 <= k < i && is_shift_word(#[trigger] modifier_word(spec_parts, k)),
                binding.alt == exists|k: int| 0 <= k < i && is_alt_word(#[trigger] modifier_word(spec_parts, k)),
                binding.super_key == exists|k: int|
                    0 <= k < i && is_super_word(#[trigger] modifier_word(spec_parts, k)),
            decreases n - i,
        {
            proof {
                assert(parts.deep_view()[i as int] == parts@[i as int].deep_view());
                assert(parts@[i as int].deep_view() =~= parts@[i as int]@);
            }
            let piece = trim_chars(parts[i].as_slice());
            let lower = string_of(ascii_lower_chars(piece.as_slice()).as_slice());
            assert(lower@ == modifier_word(spec_parts, i as int));
            if text_is(&lower, "ctrl") || text_is(&lower, "control") {
                binding.ctrl = true;
            }
            if text_is(&lower, "shift") {
                binding.shift = true;
            }
            if text_is(&lower, "alt") || text_is(&lower, "option") || text_is(&lower, "opt") {
                binding.alt = true;
            }
            if text_is(&lower, "cmd") || text_is(&lower, "command") || text_is(&lower, "super")
                || text_is(&lower, "win") || text_is(&lower, "meta") {
                binding.super_key = true;
            }
            i += 1;
        }
        proof {
            assert(parts.deep_view()[n as int] == parts@[n as int].deep_view());
            assert(parts@[n as int].deep_view() =~= parts@[n as int]@);
        }
        let key = trim_chars(parts[n].as_slice());
        binding.key = string_of(key.as_slice());
        binding
    }

    /// Whether this binding is the given key with exactly the given modifiers.
    /// The key name is compared without regard to ASCII case; `None` stands
    /// for a key that has no name and matches nothing.
    pub fn matches(&self, key_name: Option<&str>, modifiers: &KeyModifiers) -> (r: bool)
        ensures
            r == (self.key@.len() > 0 && self.ctrl == modifiers.control && self.shift
                == modifiers.shift && self.alt == modifiers.alt && self.super_key
                == modifiers.super_key && key_name is Some && ascii_lower(key_name.unwrap()@)
                == ascii_lower(self.key@)),
    {
        if !self.is_set() {
            return false;
        }
        if self.ctrl != modifiers.control || self.shift != modifiers.shift || self.alt
            != modifiers.alt || self.super_key != modifiers.super_key {
            return false;
        }
        match key_name {
            Some(name) => eq_ignore_ascii_case(chars_of(name).as_slice(), chars_of(self.key.as_str()).as_slice()),
            None => false,
        }
    }

    /// The binding for a key event: `None` when the key has no name.
    pub fn from_key_event(key_name: Option<String>, modifiers: &KeyModifiers) -> (b: Option<Self>)
        ensures
            b is None <==> key_name is None,
            b matches Some(h) ==> h@ == (HotkeyView {
                ctrl: modifiers.control,
                shift: modifiers.shift,
                alt: modifiers.alt,
                super_key: modifiers.super_key,
                key: key_name.unwrap()@,
            }),
    {
        match key_name {
            Some(key) => Some(
                HotkeyBinding {
                    ctrl: modifiers.control,
                    shift: modifiers.shift,
                    alt: modifiers.alt,
                    super_key: modifiers.super_key,
                    key,
                },
            ),
            None => None,
        }
    }
}


// ── Writing a binding and reading it back ───────────────────────────────────

/// Pieces joined by `+`, followed by the key.
pub open spec fn joined(ws: Seq<Seq<char>>, key: Seq<char>) -> Seq<char>
    decreases ws.len(),
{
    if ws.len() == 0 {
        key
    } else {
        ws[0] + seq!['+'] + joined(ws.drop_first(), key)
    }
}

pub open spec fn flag_seq(on: bool, w: Seq<char>) -> Seq<Seq<char>> {
    if on {
        seq![w]
    } else {
        Seq::empty()
    }
}

/// The modifier names that `display` writes for `b` on platform `p`, in order.
pub open spec fn modifier_names(b: HotkeyView, p: KeyPlatform) -> Seq<Seq<char>> {
    flag_seq(b.ctrl, "Ctrl"@) + (flag_seq(b.alt, "Alt"@) + (flag_seq(b.shift, "Shift"@) + flag_seq(
        b.super_key,
        super_name(p),
    )))
}

proof fn lemma_joined_cons(on: bool, w: Seq<char>, rest: Seq<Seq<char>>, key: Seq<char>)
    ensures
        joined(flag_seq(on, w) + rest, key) == flag_text(on, w + seq!['+']) + joined(rest, key),
{
    if on {
        assert((seq![w] + rest).drop_first() =~= rest);
        assert(w + seq!['+'] + joined(rest, key) =~= (w + seq!['+']) + joined(rest, key));
    } else {
        assert(Seq::<Seq<char>>::empty() + rest =~= rest);
        assert(Seq::<char>::empty() + joined(rest, key) =~= joined(rest, key));
    }
}

proof fn lemma_joined_split(ws: Seq<Seq<char>>, key: Seq<char>)
    requires
        forall|i: int| 0 <= i < ws.len() ==> !(#[trigger] ws[i]).contains('+'),
        !key.contains('+'),
    ensures
        split_on(joined(ws, key), '+') == ws.push(key),
    decreases ws.len(),
{
    if ws.len() == 0 {
        lemma_split_none(key, '+');
        assert(seq![key] =~= ws.push(key));
    } else {
        let rest = ws.drop_first();
        assert forall|i: int| 0 <= i < rest.len() implies !(#[trigger] rest[i]).contains('+') by {
            assert(rest[i] == ws[i + 1]);
        }
        lemma_joined_split(rest, key);
        lemma_split_concat(ws[0], '+', joined(rest, key));
        lemma_split_none(ws[0], '+');
        assert(seq![ws[0]] + rest.push(key) =~= ws.push(key));
    }
}

proof fn lemma_joined_ends(ws: Seq<Seq<char>>, key: Seq<char>)
    requires
        key.len() > 0,
        forall|i: int| 0 <= i < ws.len() ==> (#[trigger] ws[i]).len() > 0,
    ensures
        joined(ws, key).len() > 0,
        joined(ws, key).last() == key.last(),
        joined(ws, key)[0] == if ws.len() > 0 {
            ws[0][0]
        } else {
            key[0]
        },
    decreases ws.len(),
{
    if ws.len() > 0 {
        let rest = ws.drop_first();
        assert forall|i: int| 0 <= i < rest.len() implies (#[trigger] rest[i]).len() > 0 by {
            assert(rest[i] == ws[i + 1]);
        }
        lemma_joined_ends(rest, key);
    }
}

proof fn lemma_modifier_names_facts()
    ensures
        "Ctrl+"@ == "Ctrl"@ + seq!['+'],
        "Alt+"@ == "Alt"@ + seq!['+'],
        "Shift+"@ == "Shift"@ + seq!['+'],
        ascii_lower("Ctrl"@) == "ctrl"@,
        ascii_lower("Alt"@) == "alt"@,
        ascii_lower("Shift"@) == "shift"@,
        ascii_lower("Cmd"@) == "cmd"@,
        ascii_lower("Win"@) == "win"@,
        trimmed("Ctrl"@) == "Ctrl"@,
        trimmed("Alt"@) == "Alt"@,
        trimmed("Shift"@) == "Shift"@,
        trimmed("Cmd"@) == "Cmd"@,
        trimmed("Win"@) == "Win"@,
        !"Ctrl"@.contains('+'),
        !"Alt"@.contains('+'),
        !"Shift"@.contains('+'),
        !"Cmd"@.contains('+'),
        !"Win"@.contains('+'),
        "Ctrl"@.len() > 0 && !is_white_space("Ctrl"@[0]),
        "Alt"@.len() > 0 && !is_white_space("Alt"@[0]),
        "Shift"@.len() > 0 && !is_white_space("Shift"@[0]),
        "Cmd"@.len() > 0 && !is_white_space("Cmd"@[0]),
        "Win"@.len() > 0 && !is_white_space("Win"@[0]),
        is_ctrl_word("ctrl"@) && !is_shift_word("ctrl"@) && !is_alt_word("ctrl"@) && !is_super_word(
            "ctrl"@,
        ),
        !is_ctrl_word("alt"@) && !is_shift_word("alt"@) && is_alt_word("alt"@) && !is_super_word(
            "alt"@,
        ),
        !is_ctrl_word("shift"@) && is_shift_word("shift"@) && !is_alt_word("shift"@)
            && !is_super_word("shift"@),
        !is_ctrl_word("cmd"@) && !is_shift_word("cmd"@) && !is_alt_word("cmd"@) && is_super_word(
            "cmd"@,
        ),
        !is_ctrl_word("win"@) && !is_shift_word("win"@) && !is_alt_word("win"@) && is_super_word(
            "win"@,
        ),
{
    reveal_strlit("Ctrl+");
    reveal_strlit("Alt+");
    reveal_strlit("Shift+");
    reveal_strlit("Win");
    reveal_strlit("Ctrl");
    reveal_strlit("Alt");
    reveal_strlit("Shift");
    reveal_strlit("Cmd");
    reveal_strlit("ctrl");
    reveal_strlit("control");
    reveal_strlit("shift");
    reveal_strlit("alt");
    reveal_strlit("option");
    reveal_strlit("opt");
    reveal_strlit("cmd");
    reveal_strlit("command");
    reveal_strlit("super");
    reveal_strlit("win");
    reveal_strlit("meta");
    assert("Ctrl+"@ =~= "Ctrl"@ + seq!['+']);
    assert("Alt+"@ =~= "Alt"@ + seq!['+']);
    assert("Shift+"@ =~= "Shift"@ + seq!['+']);
    assert(ascii_lower("Ctrl"@) =~= "ctrl"@);
    assert(ascii_lower("Alt"@) =~= "alt"@);
    assert(ascii_lower("Shift"@) =~= "shift"@);
    assert(ascii_lower("Cmd"@) =~= "cmd"@);
    assert(ascii_lower("Win"@) =~= "win"@);
    lemma_trimmed_unchanged("Ctrl"@);
    lemma_trimmed_unchanged("Alt"@);
    lemma_trimmed_unchanged("Shift"@);
    lemma_trimmed_unchanged("Cmd"@);
    lemma_trimmed_unchanged("Win"@);
    assert("ctrl"@[1] != "meta"@[1]);
    assert("ctrl"@ != "meta"@);
    assert("cmd"@[1] != "alt"@[1]);
    assert("cmd"@[1] != "opt"@[1]);
    assert("cmd"@[0] != "win"@[0]);
    assert("alt"@[0] != "cmd"@[0]);
    assert("alt"@[0] != "opt"@[0]);
    assert("alt"@[0] != "win"@[0]);
    assert("shift"@[1] != "super"@[1]);
    assert("cmd"@ != "alt"@);
    assert("cmd"@ != "opt"@);
    assert("cmd"@ != "win"@);
    assert("alt"@ != "cmd"@);
    assert("alt"@ != "win"@);
    assert("shift"@ != "super"@);
    assert("win"@[0] != "ctrl"@[0] && "win"@[0] != "control"@[0]);
    assert("win"@ != "ctrl"@ && "win"@ != "control"@ && "win"@ != "shift"@);
    assert("win"@[0] != "alt"@[0] && "win"@[0] != "option"@[0]);
    assert("win"@ != "alt"@ && "win"@ != "option"@ && "win"@ != "opt"@);
}

proof fn lemma_display_joined(b: HotkeyView, p: KeyPlatform)
    requires
        b.key.len() > 0,
    ensures
        display_spec(b, p) == joined(modifier_names(b, p), b.key),
{
    lemma_modifier_names_facts();
    let sn = super_name(p);
    let r3 = flag_seq(b.shift, "Shift"@) + flag_seq(b.super_key, sn);
    let r2 = flag_seq(b.alt, "Alt"@) + r3;
    lemma_joined_cons(b.super_key, sn, Seq::empty(), b.key);
    assert(flag_seq(b.super_key, sn) + Seq::<Seq<char>>::empty() =~= flag_seq(b.super_key, sn));
    lemma_joined_cons(b.shift, "Shift"@, flag_seq(b.super_key, sn), b.key);
    lemma_joined_cons(b.alt, "Alt"@, r3, b.key);
    lemma_joined_cons(b.ctrl, "Ctrl"@, r2, b.key);
    assert(display_spec(b, p) =~= joined(modifier_names(b, p), b.key));
}

/// Each name that `display` writes stands for a flag that is set, and each
/// set flag has its name among them.
proof fn lemma_names_members(b: HotkeyView, p: KeyPlatform)
    ensures
        forall|i: int| #![trigger modifier_names(b, p)[i]] 0 <= i < modifier_names(b, p).len() ==> {
            let w = modifier_names(b, p)[i];
            ||| w == "Ctrl"@ && b.ctrl
            ||| w == "Alt"@ && b.alt
            ||| w == "Shift"@ && b.shift
            ||| w == super_name(p) && b.super_key
        },
        b.ctrl ==> exists|i: int| 0 <= i < modifier_names(b, p).len() && modifier_names(b, p)[i] == "Ctrl"@,
        b.alt ==> exists|i: int| 0 <= i < modifier_names(b, p).len() && modifier_names(b, p)[i] == "Alt"@,
        b.shift ==> exists|i: int| 0 <= i < modifier_names(b, p).len() && modifier_names(b, p)[i] == "Shift"@,
        b.super_key ==> exists|i: int| 0 <= i < modifier_names(b, p).len() && modifier_names(b, p)[i] == super_name(p),
{
    let ws = modifier_names(b, p);
    let r3 = flag_seq(b.shift, "Shift"@) + flag_seq(b.super_key, super_name(p));
    let r2 = flag_seq(b.alt, "Alt"@) + r3;
    let l1 = flag_seq(b.ctrl, "Ctrl"@).len() as int;
    let l2 = flag_seq(b.alt, "Alt"@).len() as int;
    let l3 = flag_seq(b.shift, "Shift"@).len() as int;
    assert forall|i: int| #![trigger ws[i]] 0 <= i < ws.len() implies {
        let w = ws[i];
        ||| w == "Ctrl"@ && b.ctrl
        ||| w == "Alt"@ && b.alt
        ||| w == "Shift"@ && b.shift
        ||| w == super_name(p) && b.super_key
    } by {
        if i < l1 {
            assert(ws[i] == "Ctrl"@);
        } else if i < l1 + l2 {
            assert(ws[i] == r2[i - l1]);
        } else {
            assert(ws[i] == r2[i - l1]);
            assert(r2[i - l1] == r3[i - l1 - l2]);
        }
    }
    if b.ctrl {
        assert(ws[0] == "Ctrl"@);
    }
    if b.alt {
        assert(ws[l1] == r2[0]);
    }
    if b.shift {
        assert(ws[l1 + l2] == r2[l2]);
        assert(r2[l2] == r3[0]);
    }
    if b.super_key {
        assert(ws[l1 + l2 + l3] == r2[l2 + l3]);
        assert(r2[l2 + l3] == r3[l3]);
    }
}

/// The modifier pieces that `display` writes name exactly the flags that are set.
#[verifier::spinoff_prover]
proof fn lemma_flags_read_back(b: HotkeyView, p: KeyPlatform, parts: Seq<Seq<char>>)
    requires
        parts.len() == modifier_names(b, p).len() + 1,
        forall|i: int|
            0 <= i < parts.len() - 1 ==> #[trigger] modifier_word(parts, i) == ascii_lower(
                modifier_names(b, p)[i],
            ),
    ensures
        b.ctrl == exists|i: int| 0 <= i < parts.len() - 1 && is_ctrl_word(#[trigger] modifier_word(parts, i)),
        b.shift == exists|i: int| 0 <= i < parts.len() - 1 && is_shift_word(#[trigger] modifier_word(parts, i)),
        b.alt == exists|i: int| 0 <= i < parts.len() - 1 && is_alt_word(#[trigger] modifier_word(parts, i)),
        b.super_key == exists|i: int|
            0 <= i < parts.len() - 1 && is_super_word(#[trigger] modifier_word(parts, i)),
{
    lemma_modifier_names_facts();
    lemma_names_members(b, p);
    let ws = modifier_names(b, p);
    if b.ctrl {
        let i = choose|i: int| 0 <= i < ws.len() && ws[i] == "Ctrl"@;
        assert(is_ctrl_word(modifier_word(parts, i)));
    }
    if b.alt {
        let i = choose|i: int| 0 <= i < ws.len() && ws[i] == "Alt"@;
        assert(is_alt_word(modifier_word(parts, i)));
    }
    if b.shift {
        let i = choose|i: int| 0 <= i < ws.len() && ws[i] == "Shift"@;
        assert(is_shift_word(modifier_word(parts, i)));
    }
    if b.super_key {
        let i = choose|i: int| 0 <= i < ws.len() && ws[i] == super_name(p);
        assert(is_super_word(modifier_word(parts, i)));
    }
}

/// Writing a binding out with `display` and reading the text back with
/// `parse` gives the same binding, on either platform, for every key that is
/// not empty, holds no `+` and neither starts nor ends with white space.
#[verifier::spinoff_prover]
pub proof fn lemma_parse_display(b: HotkeyView, p: KeyPlatform)
    requires
        b.key.len() > 0,
        !b.key.contains('+'),
        !is_white_space(b.key[0]),
        !is_white_space(b.key.last()),
    ensures
        parse_spec(display_spec(b, p)) == b,
{
    lemma_modifier_names_facts();
    lemma_display_joined(b, p);
    let ws = modifier_names(b, p);
    let d = display_spec(b, p);
    assert forall|i: int| 0 <= i < ws.len() implies (#[trigger] ws[i]).len() > 0 && !ws[i].contains('+') by {
        lemma_names_members(b, p);
    }
    lemma_joined_ends(ws, b.key);
    lemma_trimmed_unchanged(d);
    lemma_joined_split(ws, b.key);
    lemma_trimmed_unchanged(b.key);
    let parts = split_on(trimmed(d), '+');
    assert(parts == ws.push(b.key));
    let n = parts.len() - 1;
    assert(parts[n] == b.key);
    assert forall|i: int| 0 <= i < n implies #[trigger] modifier_word(parts, i) == ascii_lower(ws[i]) by {
        assert(parts[i] == ws[i]);
    }
    lemma_flags_read_back(b, p, parts);
}


/// An ASCII letter.
spec fn is_ascii_letter(c: char) -> bool {
    ('a' <= c <= 'z') || ('A' <= c <= 'Z')
}

/// A text whose ASCII-lowercased form is a non-empty word of small ASCII
/// letters is made of ASCII letters: it holds no `+` and no white space.
proof fn lemma_letters(name: Seq<char>)
    requires
        forall|i: int| 0 <= i < name.len() ==> 'a' <= #[trigger] ascii_lower(name)[i] <= 'z',
    ensures
        forall|i: int| 0 <= i < name.len() ==> is_ascii_letter(#[trigger] name[i]),
        forall|i: int| 0 <= i < name.len() ==> !is_white_space(#[trigger] name[i]) && name[i] != '+',
        !name.contains('+'),
{
    assert forall|i: int| 0 <= i < name.len() implies is_ascii_letter(#[trigger] name[i]) by {
        assert(ascii_lower(name)[i] == crate::text::ascii_lower_char(name[i]));
    }
    assert forall|i: int| 0 <= i < name.len() implies !is_white_space(#[trigger] name[i]) && name[i] != '+' by {
        assert(is_ascii_letter(name[i]));
    }
}

/// A text of one modifier name and a key, joined by `+`, parses as that key
/// with exactly the flag the (ASCII-lowercased) name stands for.
proof fn lemma_parse_name_and_key(name: Seq<char>, key: Seq<char>)
    requires
        name.len() > 0,
        forall|i: int| 0 <= i < name.len() ==> 'a' <= #[trigger] ascii_lower(name)[i] <= 'z',
        key.len() > 0,
        !key.contains('+'),
        !is_white_space(key[0]),
        !is_white_space(key.last()),
    ensures
        ({
            let w = ascii_lower(name);
            parse_spec(name + seq!['+'] + key) == (HotkeyView {
                ctrl: is_ctrl_word(w),
                shift: is_shift_word(w),
                alt: is_alt_word(w),
                super_key: is_super_word(w),
                key,
            })
        }),
{
    lemma_letters(name);
    let text = name + seq!['+'] + key;
    assert(text[0] == name[0]);
    assert(text.last() == key.last());
    lemma_trimmed_unchanged(text);
    lemma_trimmed_unchanged(name);
    lemma_trimmed_unchanged(key);
    lemma_split_concat(name, '+', key);
    lemma_split_none(name, '+');
    lemma_split_none(key, '+');
    let parts = split_on(text, '+');
    assert(parts =~= seq![name, key]);
    let w = ascii_lower(name);
    assert(modifier_word(parts, 0) == w);
    let b = parse_spec(text);
    assert(b.ctrl == is_ctrl_word(w)) by {
        if is_ctrl_word(w) {
            assert(is_ctrl_word(modifier_word(parts, 0)));
        }
    }
    assert(b.shift == is_shift_word(w)) by {
        if is_shift_word(w) {
            assert(is_shift_word(modifier_word(parts, 0)));
        }
    }
    assert(b.alt == is_alt_word(w)) by {
        if is_alt_word(w) {
            assert(is_alt_word(modifier_word(parts, 0)));
        }
    }
    assert(b.super_key == is_super_word(w)) by {
        if is_super_word(w) {
            assert(is_super_word(modifier_word(parts, 0)));
        }
    }
}

/// Every modifier name the binding text accepts sets its own flag and no
/// other, in any ASCII case: `ctrl` or `control` sets Ctrl; `shift` sets
/// Shift; `alt`, `option` or `opt` sets Alt; `cmd`, `command`, `super`, `win`
/// or `meta` sets the super key. The key after the `+` is the binding's key.
pub proof fn lemma_modifier_names_accepted(name: Seq<char>, key: Seq<char>)
    requires
        key.len() > 0,
        !key.contains('+'),
        !is_white_space(key[0]),
        !is_white_space(key.last()),
    ensures
        ({
            let w = ascii_lower(name);
            let b = parse_spec(name + seq!['+'] + key);
            let flags = |c: bool, s: bool, a: bool, k: bool| (HotkeyView { ctrl: c, shift: s, alt: a, super_key: k, key });
            &&& (w == "ctrl"@ || w == "control"@) ==> b == flags(true, false, false, false)
            &&& w == "shift"@ ==> b == flags(false, true, false, false)
            &&& (w == "alt"@ || w == "option"@ || w == "opt"@) ==> b == flags(false, false, true, false)
            &&& (w == "cmd"@ || w == "command"@ || w == "super"@ || w == "win"@ || w == "meta"@) ==> b
                == flags(false, false, false, true)
        }),
{
    reveal_strlit("ctrl");
    reveal_strlit("control");
    reveal_strlit("shift");
    reveal_strlit("alt");
    reveal_strlit("option");
    reveal_strlit("opt");
    reveal_strlit("cmd");
    reveal_strlit("command");
    reveal_strlit("super");
    reveal_strlit("win");
    reveal_strlit("meta");
    let w = ascii_lower(name);
    assert("cmd"@[0] != "alt"@[0] && "cmd"@[0] != "opt"@[0] && "cmd"@[0] != "win"@[0]);
    assert("alt"@[0] != "opt"@[0] && "alt"@[0] != "win"@[0] && "opt"@[0] != "win"@[0]);
    assert("ctrl"@[0] != "meta"@[0]);
    assert("shift"@[1] != "super"@[1]);
    assert("control"@[2] != "command"@[2]);
    assert("cmd"@ != "alt"@ && "cmd"@ != "opt"@ && "cmd"@ != "win"@);
    assert("alt"@ != "opt"@ && "alt"@ != "win"@ && "opt"@ != "win"@);
    assert("ctrl"@ != "meta"@);
    assert("shift"@ != "super"@);
    assert("control"@ != "command"@);
    if is_ctrl_word(w) || is_shift_word(w) || is_alt_word(w) || is_super_word(w) {
        assert(name.len() == w.len());
        assert(forall|i: int| 0 <= i < name.len() ==> 'a' <= #[trigger] ascii_lower(name)[i] <= 'z');
        lemma_parse_name_and_key(name, key);
    }
}

/// Every set binding that `parse` gives is written by `display`, on either
/// platform, as text that `parse` reads back as the same binding.
pub proof fn lemma_parsed_binding_round_trip(s: Seq<char>, p: KeyPlatform)
    ensures
        parse_spec(s).key.len() > 0 ==> parse_spec(display_spec(parse_spec(s), p)) == parse_spec(s),
{
    let b = parse_spec(s);
    let t = trimmed(s);
    if b.key.len() > 0 {
        assert(t.len() > 0);
        let parts = split_on(t, '+');
        lemma_split_nonempty(t, '+');
        lemma_split_pieces(t, '+');
        let n = parts.len() - 1;
        assert(b.key == trimmed(parts[n]));
        lemma_trimmed_shape(parts[n]);
        assert(!parts[n].contains('+'));
        assert(!b.key.contains('+'));
        lemma_parse_display(b, p);
    }
}

// ── Hotkey settings ─────────────────────────────────────────────────────────

/// The configurable hotkey actions: identifier, label and default binding.
pub open spec fn hotkey_action_table() -> Seq<(&'static str, &'static str, &'static str)> {
    seq![
        ("start_streaming", "Start Streaming", ""),
        ("stop_streaming", "Stop Streaming", ""),
        ("start_recording", "Start Recording", ""),
        ("stop_recording", "Stop Recording", ""),
        ("toggle_mute_mic", "Toggle Mute Mic", ""),
        ("toggle_mute_desktop", "Toggle Mute Desktop", ""),
        ("capture_foreground_window", "Capture Foreground Window", "Ctrl+Shift+W"),
    ]
}

/// All configurable hotkey actions with their display names and default bindings.
pub fn hotkey_actions() -> (a: Vec<(&'static str, &'static str, &'static str)>)
    ensures
        a@ == hotkey_action_table(),
{
    let a = vec![
        ("start_streaming", "Start Streaming", ""),
        ("stop_streaming", "Stop Streaming", ""),
        ("start_recording", "Start Recording", ""),
        ("stop_recording", "Stop Recording", ""),
        ("toggle_mute_mic", "Toggle Mute Mic", ""),
        ("toggle_mute_desktop", "Toggle Mute Desktop", ""),
        ("capture_foreground_window", "Capture Foreground Window", "Ctrl+Shift+W"),
    ];
    assert(a@ =~= hotkey_action_table());
    a
}

/// The binding stored under `action`: the first entry with that name.
pub open spec fn lookup(b: Seq<(String, HotkeyBinding)>, action: Seq<char>) -> Option<HotkeyBinding>
    decreases b.len(),
{
    if b.len() == 0 {
        None
    } else if b[0].0@ == action {
        Some(b[0].1)
    } else {
        lookup(b.drop_first(), action)
    }
}

/// Whether `action` is bound to a binding whose value is `v`.
pub open spec fn bound_to(b: Seq<(String, HotkeyBinding)>, action: Seq<char>, v: HotkeyView) -> bool {
    lookup(b, action) matches Some(x) && x@ == v
}

/// User-defined hotkey bindings, one entry per action name.
#[derive(Debug, Clone)]
pub struct HotkeySettings {
    pub bindings: Vec<(String, HotkeyBinding)>,
}

impl HotkeySettings {
    /// No action name occurs twice.
    pub open spec fn wf(&self) -> bool {
        forall|i: int, j: int|
            0 <= i < j < self.bindings@.len() ==> (#[trigger] self.bindings@[i]).0@
                != (#[trigger] self.bindings@[j]).0@
    }

    /// Look up the binding for an action. Returns `None` if unbound.
    pub fn get(&self, action: &str) -> (r: Option<&HotkeyBinding>)
        ensures
            r matches Some(b) ==> lookup(self.bindings@, action@) == Some(*b) && b.key@.len() > 0,
            r is None ==> (lookup(self.bindings@, action@) matches Some(b) ==> b.key@.len() == 0),
    {
        let name = action.to_string();
        let n = self.bindings.len();
        let mut i: usize = 0;
        assert(self.bindings@.skip(0) =~= self.bindings@);
        while i < n
            invariant
                i <= n == self.bindings@.len(),
                name@ == action@,
                lookup(self.bindings@, action@) == lookup(self.bindings@.skip(i as int), action@),
            decreases n - i,
        {
            let ghost rest = self.bindings@.skip(i as int);
            assert(rest[0] == self.bindings@[i as int]);
            assert(rest.drop_first() =~= self.bindings@.skip(i + 1));
            if self.bindings[i].0 == name {
                let b = &self.bindings[i].1;
                if b.is_set() {
                    return Some(b);
                } else {
                    return None;
                }
            }
            i += 1;
        }
        assert(self.bindings@.skip(n as int) =~= Seq::<(String, HotkeyBinding)>::empty());
        None
    }

    /// Store `binding` under `action`, replacing any binding it had.
    pub fn set(&mut self, action: &str, binding: HotkeyBinding)
        requires
            old(self).wf(),
        ensures
            final(self).wf(),
            lookup(final(self).bindings@, action@) == Some(binding),
            forall|a: Seq<char>| a != action@ ==> lookup(final(self).bindings@, a) == lookup(
                old(self).bindings@,
                a,
            ),
    {
        let name = action.to_string();
        let n = self.bindings.len();
        let mut i: usize = 0;
        while i < n
            invariant
                i <= n == self.bindings@.len(),
                self.bindings@ == old(self).bindings@,
                self.wf(),
                name@ == action@,
                forall|j: int| 0 <= j < i ==> (#[trigger] self.bindings@[j]).0@ != action@,
            decreases n - i,
        {
            if self.bindings[i].0 == name {
                let ghost before = self.bindings@;
                let ghost entry = (name, binding);
                self.bindings.set(i, (name, binding));
                proof {
                    lemma_lookup_update(before, i as int, entry.0, binding);
                    assert(self.bindings@ == before.update(i as int, (entry.0, binding)));
                }
                return;
            }
            i += 1;
        }
        let ghost before = self.bindings@;
        let ghost entry = (name, binding);
        self.bindings.push((name, binding));
        proof {
            lemma_lookup_push(before, entry.0, binding);
            assert(self.bindings@ == before.push((entry.0, binding)));
        }
    }
}

proof fn lemma_lookup_index(b: Seq<(String, HotkeyBinding)>, action: Seq<char>, i: int)
    requires
        0 <= i < b.len(),
        b[i].0@ == action,
        forall|j: int| 0 <= j < i ==> (#[trigger] b[j]).0@ != action,
    ensures
        lookup(b, action) == Some(b[i].1),
    decreases i,
{
    if i > 0 {
        let r = b.drop_first();
        assert forall|j: int| 0 <= j < i - 1 implies (#[trigger] r[j]).0@ != action by {
            assert(r[j] == b[j + 1]);
        }
        lemma_lookup_index(r, action, i - 1);
    }
}

proof fn lemma_lookup_absent(b: Seq<(String, HotkeyBinding)>, action: Seq<char>)
    requires
        forall|j: int| 0 <= j < b.len() ==> (#[trigger] b[j]).0@ != action,
    ensures
        lookup(b, action) is None,
    decreases b.len(),
{
    if b.len() > 0 {
        let r = b.drop_first();
        assert forall|j: int| 0 <= j < r.len() implies (#[trigger] r[j]).0@ != action by {
            assert(r[j] == b[j + 1]);
        }
        lemma_lookup_absent(r, action);
    }
}

/// With distinct names, the entry at index `i` is what `lookup` finds for its name.
proof fn lemma_lookup_distinct(b: Seq<(String, HotkeyBinding)>, i: int)
    requires
        0 <= i < b.len(),
        forall|x: int, y: int| 0 <= x < y < b.len() ==> (#[trigger] b[x]).0@ != (#[trigger] b[y]).0@,
    ensures
        lookup(b, b[i].0@) == Some(b[i].1),
{
    assert forall|j: int| 0 <= j < i implies (#[trigger] b[j]).0@ != b[i].0@ by {}
    lemma_lookup_index(b, b[i].0@, i);
}

proof fn lemma_lookup_find(b: Seq<(String, HotkeyBinding)>, a: Seq<char>)
    requires
        forall|x: int, y: int| 0 <= x < y < b.len() ==> (#[trigger] b[x]).0@ != (#[trigger] b[y]).0@,
    ensures
        lookup(b, a) is None <==> forall|j: int| 0 <= j < b.len() ==> (#[trigger] b[j]).0@ != a,
        forall|j: int| 0 <= j < b.len() && (#[trigger] b[j]).0@ == a ==> lookup(b, a) == Some(b[j].1),
{
    if exists|j: int| 0 <= j < b.len() && (#[trigger] b[j]).0@ == a {
        let j = choose|j: int| 0 <= j < b.len() && (#[trigger] b[j]).0@ == a;
        lemma_lookup_distinct(b, j);
    } else {
        lemma_lookup_absent(b, a);
    }
    assert forall|j: int| 0 <= j < b.len() && (#[trigger] b[j]).0@ == a implies lookup(b, a) == Some(
        b[j].1,
    ) by {
        lemma_lookup_distinct(b, j);
    }
}

proof fn lemma_lookup_update(
    b: Seq<(String, HotkeyBinding)>,
    i: int,
    s: String,
    binding: HotkeyBinding,
)
    requires
        0 <= i < b.len(),
        b[i].0@ == s@,
        forall|x: int, y: int| 0 <= x < y < b.len() ==> (#[trigger] b[x]).0@ != (#[trigger] b[y]).0@,
    ensures
        ({
            let c = b.update(i, (s, binding));
            &&& forall|x: int, y: int|
                0 <= x < y < c.len() ==> (#[trigger] c[x]).0@ != (#[trigger] c[y]).0@
            &&& lookup(c, s@) == Some(binding)
            &&& forall|a: Seq<char>| a != s@ ==> lookup(c, a) == lookup(b, a)
        }),
{
    let action = s@;
    let c = b.update(i, (s, binding));
    assert forall|x: int, y: int| 0 <= x < y < c.len() implies (#[trigger] c[x]).0@ != (
    #[trigger] c[y]).0@ by {
        assert(c[x].0@ == b[x].0@);
        assert(c[y].0@ == b[y].0@);
    }
    lemma_lookup_distinct(c, i);
    assert forall|a: Seq<char>| a != action implies lookup(c, a) == lookup(b, a) by {
        lemma_lookup_find(b, a);
        lemma_lookup_find(c, a);
        if exists|j: int| 0 <= j < b.len() && (#[trigger] b[j]).0@ == a {
            let j = choose|j: int| 0 <= j < b.len() && (#[trigger] b[j]).0@ == a;
            assert(c[j] == b[j]);
        } else {
            assert forall|j: int| 0 <= j < c.len() implies (#[trigger] c[j]).0@ != a by {
                assert(c[j].0@ == b[j].0@);
            }
        }
    }
}

proof fn lemma_lookup_push(b: Seq<(String, HotkeyBinding)>, s: String, binding: HotkeyBinding)
    requires
        forall|j: int| 0 <= j < b.len() ==> (#[trigger] b[j]).0@ != s@,
        forall|x: int, y: int| 0 <= x < y < b.len() ==> (#[trigger] b[x]).0@ != (#[trigger] b[y]).0@,
    ensures
        ({
            let c = b.push((s, binding));
            &&& forall|x: int, y: int|
                0 <= x < y < c.len() ==> (#[trigger] c[x]).0@ != (#[trigger] c[y]).0@
            &&& lookup(c, s@) == Some(binding)
            &&& forall|a2: Seq<char>| a2 != s@ ==> lookup(c, a2) == lookup(b, a2)
        }),
{
    let c = b.push((s, binding));
    assert forall|x: int, y: int| 0 <= x < y < c.len() implies (#[trigger] c[x]).0@ != (
    #[trigger] c[y]).0@ by {
        if y == b.len() {
            assert(c[x] == b[x]);
        } else {
            assert(c[x] == b[x]);
            assert(c[y] == b[y]);
        }
    }
    lemma_lookup_distinct(c, b.len() as int);
    assert forall|a2: Seq<char>| a2 != s@ implies lookup(c, a2) == lookup(b, a2) by {
        lemma_lookup_find(b, a2);
        lemma_lookup_find(c, a2);
        if exists|j: int| 0 <= j < b.len() && (#[trigger] b[j]).0@ == a2 {
            let j = choose|j: int| 0 <= j < b.len() && (#[trigger] b[j]).0@ == a2;
            assert(c[j] == b[j]);
        } else {
            assert forall|j: int| 0 <= j < c.len() implies (#[trigger] c[j]).0@ != a2 by {
                if j < b.len() {
                    assert(c[j] == b[j]);
                }
            }
        }
    }
}


proof fn lemma_action_ids_distinct()
    ensures
        forall|i: int, j: int|
            0 <= i < j < hotkey_action_table().len() ==> (#[trigger] hotkey_action_table()[i]).0@
                != (#[trigger] hotkey_action_table()[j]).0@,
{
    let t = hotkey_action_table();
    reveal_strlit("start_streaming");
    assert(t[0].0@ == "start_streaming"@);
    reveal_strlit("stop_streaming");
    assert(t[1].0@ == "stop_streaming"@);
    reveal_strlit("start_recording");
    assert(t[2].0@ == "start_recording"@);
    reveal_strlit("stop_recording");
    assert(t[3].0@ == "stop_recording"@);
    reveal_strlit("toggle_mute_mic");
    assert(t[4].0@ == "toggle_mute_mic"@);
    reveal_strlit("toggle_mute_desktop");
    assert(t[5].0@ == "toggle_mute_desktop"@);
    reveal_strlit("capture_foreground_window");
    assert(t[6].0@ == "capture_foreground_window"@);
    assert("start_streaming"@[6] != "start_recording"@[6]);
    assert("start_streaming"@[0] != "toggle_mute_mic"@[0]);
    assert("start_recording"@[0] != "toggle_mute_mic"@[0]);
    assert("stop_streaming"@[5] != "stop_recording"@[5]);
}

impl Default for HotkeySettings {
    /// Every action of `hotkey_actions`, bound to its default binding.
    fn default() -> (s: Self)
        ensures
            s.wf(),
            forall|i: int|
                0 <= i < hotkey_action_table().len() ==> #[trigger] bound_to(
                    s.bindings@,
                    hotkey_action_table()[i].0@,
                    parse_spec(hotkey_action_table()[i].2@),
                ),
    {
        let actions = hotkey_actions();
        let mut s = HotkeySettings { bindings: Vec::new() };
        proof {
            lemma_action_ids_distinct();
        }
        let n = actions.len();
        let mut i: usize = 0;
        while i < n
            invariant
                i <= n == actions@.len(),
                actions@ == hotkey_action_table(),
                s.wf(),
                forall|x: int, y: int|
                    0 <= x < y < hotkey_action_table().len() ==> (#[trigger] hotkey_action_table()[x]).0@
                        != (#[trigger] hotkey_action_table()[y]).0@,
                forall|j: int|
                    0 <= j < i ==> #[trigger] bound_to(
                        s.bindings@,
                        hotkey_action_table()[j].0@,
                        parse_spec(hotkey_action_table()[j].2@),
                    ),
            decreases n - i,
        {
            let (action, _label, default_binding) = actions[i];
            let binding = HotkeyBinding::parse(default_binding);
            let ghost before = s.bindings@;
            let ghost bound = binding;
            s.set(action, binding);
            proof {
                assert(action@ == hotkey_action_table()[i as int].0@);
                assert(default_binding@ == hotkey_action_table()[i as int].2@);
                assert(lookup(s.bindings@, action@) == Some(bound));
                assert(bound_to(s.bindings@, action@, parse_spec(default_binding@)));
                assert forall|j: int| 0 <= j < i + 1 implies #[trigger] bound_to(
                    s.bindings@,
                    hotkey_action_table()[j].0@,
                    parse_spec(hotkey_action_table()[j].2@),
                ) by {
                    if j < i {
                        assert(hotkey_action_table()[j].0@ != hotkey_action_table()[i as int].0@);
                        assert(lookup(s.bindings@, hotkey_action_table()[j].0@) == lookup(
                            before,
                            hotkey_action_table()[j].0@,
                        ));
                        assert(bound_to(
                            before,
                            hotkey_action_table()[j].0@,
                            parse_spec(hotkey_action_table()[j].2@),
                        ));
                    }
                }
            }
            i += 1;
        }
        s
    }
}

// ── Font scale ──────────────────────────────────────────────────────────────

/// Font scale presets that proportionally scale all text sizes.
#[derive(Debug, Clone, Copy, PartialEq, Eq, Structural)]
pub enum FontScale {
    XS,
    S,
    M,
    L,
    XL,
}

impl Default for FontScale {
    fn default() -> (f: Self)
        ensures
            f == FontScale::M,
    {
        FontScale::M
    }
}

impl FontScale {
    /// All scales in display order.
    pub fn all() -> (a: Vec<FontScale>)
        ensures
            a@ == seq![FontScale::XS, FontScale::S, FontScale::M, FontScale::L, FontScale::XL],
    {
        let a = vec![FontScale::XS, FontScale::S, FontScale::M, FontScale::L, FontScale::XL];
        assert(a@ =~= seq![FontScale::XS, FontScale::S, FontScale::M, FontScale::L, FontScale::XL]);
        a
    }

    /// Human-readable label.
    pub fn label(&self) -> (l: &'static str)
        ensures
            l@ == match *self {
                FontScale::XS => "XS"@,
                FontScale::S => "S"@,
                FontScale::M => "M"@,
                FontScale::L => "L"@,
                FontScale::XL => "XL"@,
            },
    {
        match self {
            FontScale::XS => "XS",
            FontScale::S => "S",
            FontScale::M => "M",
            FontScale::L => "L",
            FontScale::XL => "XL",
        }
    }
}


// ── Output and device settings ──────────────────────────────────────────────

/// Container formats for recordings.
#[derive(Debug, Clone, Copy, PartialEq, Eq, Structural)]
pub enum RecordingFormat {
    Mkv,
}

/// Video encoders.
#[derive(Debug, Clone, Copy, PartialEq, Eq, Structural)]
pub enum EncoderType {
    H264VideoToolbox,
}

/// Encoder quality presets.
#[derive(Debug, Clone, Copy, PartialEq, Eq, Structural)]
pub enum QualityPreset {
    High,
    Medium,
}

/// Where a stream is sent.
#[derive(Debug, Clone, Copy, PartialEq, Eq, Structural)]
pub enum StreamDestination {
    Twitch,
}

/// Colour themes.
#[derive(Debug, Clone, Copy, PartialEq, Eq, Structural)]
pub enum ThemeId {
    DefaultDark,
}

/// UI panel visibility settings.
#[derive(Debug, Clone)]
pub struct UiSettings {
    pub scene_panel_open: bool,
    pub mixer_panel_open: bool,
    pub controls_panel_open: bool,
    /// Library grouping mode: "type" or "folders".
    pub library_view: String,
    /// Library display mode: "list" or "grid".
    pub library_display_mode: String,
}

impl Default for UiSettings {
    fn default() -> (s: Self)
        ensures
            s.scene_panel_open && s.mixer_panel_open && s.controls_panel_open,
            s.library_view@ == "type"@,
            s.library_display_mode@ == "list"@,
    {
        UiSettings {
            scene_panel_open: true,
            mixer_panel_open: true,
            controls_panel_open: true,
            library_view: "type".to_string(),
            library_display_mode: "list".to_string(),
        }
    }
}

/// Stream output configuration.
#[derive(Debug, Clone)]
pub struct StreamSettings {
    pub stream_key: String,
    pub destination: StreamDestination,
    pub encoder: EncoderType,
    pub quality_preset: QualityPreset,
    pub bitrate_kbps: u32,
    pub fps: u32,
}

impl Default for StreamSettings {
    fn default() -> (s: Self)
        ensures
            s.stream_key@ == Seq::<char>::empty(),
            s.destination == StreamDestination::Twitch,
            s.encoder == EncoderType::H264VideoToolbox,
            s.quality_preset == QualityPreset::Medium,
            s.bitrate_kbps == 4500,
            s.fps == 30,
    {
        StreamSettings {
            stream_key: String::new(),
            destination: StreamDestination::Twitch,
            encoder: EncoderType::H264VideoToolbox,
            quality_preset: QualityPreset::Medium,
            bitrate_kbps: 4500,
            fps: 30,
        }
    }
}

/// `dirs::video_dir`, as text. The folder depends on the machine, so nothing
/// is stated of it; a path that is not valid UTF-8 is converted lossily
/// (`to_string_lossy`), its invalid bytes becoming U+FFFD.
#[verifier::external_body]
fn platform_video_dir() -> Option<String> {
    match dirs::video_dir() {
        Some(p) => Some(p.to_string_lossy().into_owned()),
        None => None,
    }
}

/// `dirs::home_dir`, as text. The folder depends on the machine, so nothing
/// is stated of it; a path that is not valid UTF-8 is converted lossily
/// (`to_string_lossy`), its invalid bytes becoming U+FFFD.
#[verifier::external_body]
fn platform_home_dir() -> Option<String> {
    match dirs::home_dir() {
        Some(p) => Some(p.to_string_lossy().into_owned()),
        None => None,
    }
}

/// The folder recordings go to by default: the user's video folder, else
/// the home folder, else the current directory.
pub open spec fn default_output_folder(video: Option<String>, home: Option<String>) -> Seq<char> {
    match video {
        Some(v) => v@,
        None => match home {
            Some(h) => h@,
            None => "."@,
        },
    }
}

/// The default recording folder, given the platform's video and home folders.
pub fn output_folder_from(video: Option<String>, home: Option<String>) -> (f: String)
    ensures
        f@ == default_output_folder(video, home),
{
    match video {
        Some(v) => v,
        None => match home {
            Some(h) => h,
            None => ".".to_string(),
        },
    }
}

/// Recording output settings.
#[derive(Debug, Clone)]
pub struct RecordSettings {
    pub format: RecordingFormat,
    pub output_folder: String,
    pub filename_template: String,
    pub encoder: EncoderType,
    pub quality_preset: QualityPreset,
    pub bitrate_kbps: u32,
    pub fps: u32,
}

impl Default for RecordSettings {
    /// The output folder is `output_folder_from` the platform's video and
    /// home folders, which depend on the machine.
    fn default() -> (s: Self)
        ensures
            s.format == RecordingFormat::Mkv,
            s.filename_template@ == "{date}_{time}_{scene}"@,
            s.encoder == EncoderType::H264VideoToolbox,
            s.quality_preset == QualityPreset::High,
            s.bitrate_kbps == 8000,
            s.fps == 30,
            exists|video: Option<String>, home: Option<String>|
                s.output_folder@ == default_output_folder(video, home),
    {
        let output_folder = output_folder_from(platform_video_dir(), platform_home_dir());
        RecordSettings {
            format: RecordingFormat::Mkv,
            output_folder,
            filename_template: "{date}_{time}_{scene}".to_string(),
            encoder: EncoderType::H264VideoToolbox,
            quality_preset: QualityPreset::High,
            bitrate_kbps: 8000,
            fps: 30,
        }
    }
}

/// Audio device and capture settings.
#[derive(Debug, Clone)]
pub struct AudioSettings {
    pub input_device: String,
    pub output_device: String,
    pub sample_rate: u32,
    pub monitoring: String,
}

impl Default for AudioSettings {
    fn default() -> (s: Self)
        ensures
            s.input_device@ == "Default"@,
            s.output_device@ == "Default"@,
            s.sample_rate == 48000,
            s.monitoring@ == "off"@,
    {
        AudioSettings {
            input_device: "Default".to_string(),
            output_device: "Default".to_string(),
            sample_rate: 48000,
            monitoring: "off".to_string(),
        }
    }
}

/// Video capture and rendering settings.
#[derive(Debug, Clone)]
pub struct VideoSettings {
    pub base_resolution: String,
    pub output_resolution: String,
    pub fps: u32,
    pub color_space: String,
}

impl Default for VideoSettings {
    fn default() -> (s: Self)
        ensures
            s.base_resolution@ == "1920x1080"@,
            s.output_resolution@ == "1920x1080"@,
            s.fps == 30,
            s.color_space@ == "sRGB"@,
    {
        VideoSettings {
            base_resolution: "1920x1080".to_string(),
            output_resolution: "1920x1080".to_string(),
            fps: 30,
            color_space: "sRGB".to_string(),
        }
    }
}

/// A resolution written as `WIDTHxHEIGHT`.
pub open spec fn resolution_text(width: u32, height: u32) -> Seq<char> {
    decimal(width as nat) + seq!['x'] + decimal(height as nat)
}

/// The text `WIDTHxHEIGHT` for a resolution.
pub fn resolution_string(width: u32, height: u32) -> (s: String)
    ensures
        s@ == resolution_text(width, height),
{
    let mut s = String::new();
    push_decimal(&mut s, width as u64);
    push_char(&mut s, 'x');
    push_decimal(&mut s, height as u64);
    assert(s@ =~= resolution_text(width, height));
    s
}

impl VideoSettings {
    /// The settings used on first launch when the display's resolution is
    /// known: both the base and the output resolution are the display's.
    pub fn for_detected_resolution(width: u32, height: u32) -> (s: Self)
        ensures
            s.base_resolution@ == resolution_text(width, height),
            s.output_resolution@ == resolution_text(width, height),
            s.fps == 30,
            s.color_space@ == "sRGB"@,
    {
        let mut s = VideoSettings::default();
        s.base_resolution = resolution_string(width, height);
        s.output_resolution = resolution_string(width, height);
        s
    }
}

/// Visual appearance preferences.
#[derive(Debug, Clone)]
pub struct AppearanceSettings {
    pub theme: ThemeId,
    /// Hex color override for the accent (e.g. "#ff8800"). `None` = use theme default.
    pub accent_color: Option<String>,
    pub font_scale: FontScale,
    pub font_family: String,
}

impl Default for AppearanceSettings {
    fn default() -> (s: Self)
        ensures
            s.theme == ThemeId::DefaultDark,
            s.accent_color is None,
            s.font_scale == FontScale::M,
            s.font_family@ == "Default"@,
    {
        AppearanceSettings {
            theme: ThemeId::DefaultDark,
            accent_color: None,
            font_scale: FontScale::M,
            font_family: "Default".to_string(),
        }
    }
}

/// Advanced/power-user settings.
#[derive(Debug, Clone)]
pub struct AdvancedSettings {
    pub process_priority: String,
    pub network_buffer_size_kb: u32,
}

impl Default for AdvancedSettings {
    fn default() -> (s: Self)
        ensures
            s.process_priority@ == "normal"@,
            s.network_buffer_size_kb == 2048,
    {
        AdvancedSettings { process_priority: "normal".to_string(), network_buffer_size_kb: 2048 }
    }
}

/// Default grid line color (RGB).
pub fn default_grid_color() -> (c: [u8; 3])
    ensures
        c@ == seq![255u8, 255u8, 255u8],
{
    let c = [255, 255, 255];
    assert(c@ =~= seq![255u8, 255u8, 255u8]);
    c
}

/// Default guide line color (RGB).
pub fn default_guide_color() -> (c: [u8; 3])
    ensures
        c@ == seq![0u8, 255u8, 255u8],
{
    let c = [0, 255, 255];
    assert(c@ =~= seq![0u8, 255u8, 255u8]);
    c
}


// ── Recording file names ────────────────────────────────────────────────────

/// Whether `c` is alphabetic or numeric in the Unicode sense (`char::is_alphanumeric`).
pub uninterp spec fn alphanumeric(c: char) -> bool;

/// `char::is_alphanumeric`; its result is named `alphanumeric`.
#[verifier::external_body]
fn char_is_alphanumeric(c: char) -> (r: bool)
    ensures
        r == alphanumeric(c),
{
    c.is_alphanumeric()
}

/// A scene name made safe for a file name: every character that is neither
/// alphanumeric nor `-` becomes `_`.
pub open spec fn sanitized_scene(name: Seq<char>) -> Seq<char> {
    name.map_values(|c: char| if alphanumeric(c) || c == '-' { c } else { '_' })
}

/// The template with `{date}`, `{time}`, `{scene}` and `{n}` replaced, in
/// that order, by the date, the time, the sanitized scene name and the counter.
pub open spec fn expanded(
    template: Seq<char>,
    date: Seq<char>,
    time: Seq<char>,
    scene: Seq<char>,
    counter: u32,
) -> Seq<char> {
    replace_all(
        replace_all(
            replace_all(replace_all(template, "{date}"@, date), "{time}"@, time),
            "{scene}"@,
            sanitized_scene(scene),
        ),
        "{n}"@,
        decimal(counter as nat),
    )
}

pub open spec fn is_digit(c: char) -> bool {
    '0' <= c <= '9'
}

/// A time of day written `HH-MM-SS`.
pub open spec fn clock_text(t: Seq<char>) -> bool {
    &&& t.len() == 8
    &&& is_digit(t[0]) && is_digit(t[1]) && t[2] == '-'
    &&& is_digit(t[3]) && is_digit(t[4]) && t[5] == '-'
    &&& is_digit(t[6]) && is_digit(t[7])
}

/// A date written as a year of at least four digits, then `-MM-DD`.
pub open spec fn calendar_text(d: Seq<char>) -> bool {
    let n = d.len() as int;
    &&& n >= 10
    &&& d[n - 6] == '-' && is_digit(d[n - 5]) && is_digit(d[n - 4])
    &&& d[n - 3] == '-' && is_digit(d[n - 2]) && is_digit(d[n - 1])
}

/// The local date (`%Y-%m-%d`) and time of day (`%H-%M-%S`) from
/// `chrono::Local::now`. They depend on the clock: only their form is stated
/// (chrono writes the year with at least four digits and every other field
/// with two).
#[verifier::external_body]
fn local_date_and_time() -> (r: (String, String))
    ensures
        calendar_text(r.0@),
        clock_text(r.1@),
{
    let now = chrono::Local::now();
    (now.format("%Y-%m-%d").to_string(), now.format("%H-%M-%S").to_string())
}

fn sanitize_scene_name(name: &str) -> (r: Vec<char>)
    ensures
        r@ == sanitized_scene(name@),
{
    let v = chars_of(name);
    let mut out: Vec<char> = Vec::new();
    let n = v.len();
    let mut i: usize = 0;
    while i < n
        invariant
            i <= n == v@.len(),
            v@ == name@,
            out@ == sanitized_scene(v@.take(i as int)),
        decreases n - i,
    {
        let c = v[i];
        if char_is_alphanumeric(c) || c == '-' {
            out.push(c);
        } else {
            out.push('_');
        }
        i += 1;
        assert(out@ =~= sanitized_scene(v@.take(i as int)));
    }
    assert(v@.take(n as int) =~= v@);
    out
}

impl RecordSettings {
    /// Expand a filename template with the given date and time texts.
    pub fn expand_template_at(
        template: &str,
        date: &str,
        time: &str,
        scene_name: &str,
        counter: u32,
    ) -> (r: String)
        ensures
            r@ == expanded(template@, date@, time@, scene_name@, counter),
    {
        proof {
            reveal_strlit("{date}");
            reveal_strlit("{time}");
            reveal_strlit("{scene}");
            reveal_strlit("{n}");
        }
        let scene = sanitize_scene_name(scene_name);
        let mut digits = String::new();
        push_decimal(&mut digits, counter as u64);
        let digits = chars_of(digits.as_str());
        let t = chars_of(template);
        let t = replace_all_chars(t.as_slice(), chars_of("{date}").as_slice(), chars_of(date).as_slice());
        let t = replace_all_chars(t.as_slice(), chars_of("{time}").as_slice(), chars_of(time).as_slice());
        let t = replace_all_chars(t.as_slice(), chars_of("{scene}").as_slice(), scene.as_slice());
        let t = replace_all_chars(t.as_slice(), chars_of("{n}").as_slice(), digits.as_slice());
        string_of(t.as_slice())
    }

    /// Expand a filename template, replacing tokens with the current local
    /// date and time, the sanitized scene name and the counter.
    pub fn expand_template(template: &str, scene_name: &str, counter: u32) -> (r: String)
        ensures
            exists|date: Seq<char>, time: Seq<char>|
                calendar_text(date) && clock_text(time) && r@ == expanded(
                    template@,
                    date,
                    time,
                    scene_name@,
                    counter,
                ),
    {
        let (date, time) = local_date_and_time();
        Self::expand_template_at(template, date.as_str(), time.as_str(), scene_name, counter)
    }
}

// ── Configuration files ─────────────────────────────────────────────────────

/// `name` appended to the directory `base`, with one `/` between them.
pub open spec fn path_join(base: Seq<char>, name: Seq<char>) -> Seq<char> {
    if base.len() == 0 || base.last() == '/' {
        base + name
    } else {
        base + seq!['/'] + name
    }
}

/// The path of `name` inside the directory `base`.
pub fn join_path(base: &str, name: &str) -> (p: String)
    ensures
        p@ == path_join(base@, name@),
{
    let b = chars_of(base);
    let mut p = string_of(b.as_slice());
    if b.len() > 0 && b[b.len() - 1] != '/' {
        push_char(&mut p, '/');
    }
    p.append(name);
    p
}

/// `dirs::config_dir`, as text. The folder depends on the machine, so nothing
/// is stated of it; a path that is not valid UTF-8 is converted lossily
/// (`to_string_lossy`), its invalid bytes becoming U+FFFD.
#[verifier::external_body]
fn platform_config_dir() -> Option<String> {
    match dirs::config_dir() {
        Some(p) => Some(p.to_string_lossy().into_owned()),
        None => None,
    }
}

/// The application's configuration directory for a given platform
/// configuration directory (the current directory when there is none).
pub open spec fn config_dir_for(platform: Option<String>) -> Seq<char> {
    path_join(
        match platform {
            Some(p) => p@,
            None => "."@,
        },
        "lodestone"@,
    )
}

/// The application's configuration directory inside `platform`.
pub fn config_dir_from(platform: Option<String>) -> (d: String)
    ensures
        d@ == config_dir_for(platform),
{
    match platform {
        Some(p) => join_path(p.as_str(), "lodestone"),
        None => join_path(".", "lodestone"),
    }
}

/// The application's configuration directory.
pub fn config_dir() -> (d: String)
    ensures
        exists|platform: Option<String>| d@ == config_dir_for(platform),
{
    config_dir_from(platform_config_dir())
}

/// The settings file.
pub fn settings_path() -> (p: String)
    ensures
        exists|platform: Option<String>| p@ == path_join(config_dir_for(platform), "settings.toml"@),
{
    join_path(config_dir().as_str(), "settings.toml")
}

/// The saved scene collection.
pub fn scenes_path() -> (p: String)
    ensures
        exists|platform: Option<String>| p@ == path_join(config_dir_for(platform), "scenes.toml"@),
{
    join_path(config_dir().as_str(), "scenes.toml")
}

/// The directory of transition shaders.
pub fn transitions_dir() -> (p: String)
    ensures
        exists|platform: Option<String>| p@ == path_join(config_dir_for(platform), "transitions"@),
{
    join_path(config_dir().as_str(), "transitions")
}

/// The directory of effect shaders.
pub fn effects_dir() -> (p: String)
    ensures
        exists|platform: Option<String>| p@ == path_join(config_dir_for(platform), "effects"@),
{
    join_path(config_dir().as_str(), "effects")
}

} // verus!
