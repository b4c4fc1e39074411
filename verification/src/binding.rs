//! Binding drafts: the grammar of a binding string and the checks that a
//! single draft has to pass.

use crate::text::{join, lemma_join_split, lemma_split_shape, lemma_split_single, split, split_on, strs};
use vstd::prelude::*;
use vstd::string::StrSliceExecFns;

verus! {

/// The character that separates the tokens of a binding string.
pub const SEPARATOR: char = '-';

/// One of the four modifier keys that a binding may name.
#[derive(Clone, Copy, Debug, PartialEq, Eq, Structural)]
pub enum Modifier {
    /// `A`
    Alt,
    /// `M`
    Super,
    /// `S`
    Shift,
    /// `C`
    Control,
}

/// The token that stands for a modifier in a binding string.
pub open spec fn token_of(m: Modifier) -> Seq<char> {
    match m {
        Modifier::Alt => seq!['A'],
        Modifier::Super => seq!['M'],
        Modifier::Shift => seq!['S'],
        Modifier::Control => seq!['C'],
    }
}

/// The modifier that a token stands for, if it stands for one.
pub open spec fn modifier_of(tok: Seq<char>) -> Option<Modifier> {
    if tok == token_of(Modifier::Alt) {
        Some(Modifier::Alt)
    } else if tok == token_of(Modifier::Super) {
        Some(Modifier::Super)
    } else if tok == token_of(Modifier::Shift) {
        Some(Modifier::Shift)
    } else if tok == token_of(Modifier::Control) {
        Some(Modifier::Control)
    } else {
        None
    }
}

/// A modifier list is legal when it is not empty and each of its tokens
/// stands for a modifier.
pub open spec fn valid_modifiers(mods: Seq<Seq<char>>) -> bool {
    &&& mods.len() > 0
    &&& forall|i: int| 0 <= i < mods.len() ==> modifier_of(#[trigger] mods[i]) is Some
}

/// A key name is legal when it is present and among the known names.
pub open spec fn known_keyname(keyname: Option<Seq<char>>, names: Seq<Seq<char>>) -> bool {
    match keyname {
        Some(k) => names.contains(k),
        None => false,
    }
}

/// A binding is canonical when it has a key name that is known and a legal
/// modifier list.
pub open spec fn canonical(b: BindingView, names: Seq<Seq<char>>) -> bool {
    known_keyname(b.keyname, names) && valid_modifiers(b.mods)
}

impl Modifier {
    /// Reads a modifier token.
    pub fn from_token(tok: &str) -> (m: Option<Modifier>)
        ensures
            m == modifier_of(tok@),
    {
        if tok.unicode_len() != 1 {
            return None;
        }
        let c = tok.get_char(0);
        assert(tok@ == seq![c]);
        if c == 'A' {
            Some(Modifier::Alt)
        } else if c == 'M' {
            Some(Modifier::Super)
        } else if c == 'S' {
            Some(Modifier::Shift)
        } else if c == 'C' {
            Some(Modifier::Control)
        } else {
            assert(token_of(Modifier::Alt)[0] == 'A');
            assert(token_of(Modifier::Super)[0] == 'M');
            assert(token_of(Modifier::Shift)[0] == 'S');
            assert(token_of(Modifier::Control)[0] == 'C');
            None
        }
    }
}

/// A single parsed keybinding candidate.
#[derive(Clone, Debug, PartialEq, Eq)]
pub struct Binding {
    /// The text the binding was written as.
    pub raw: String,
    /// The modifier tokens, in the order written.
    pub mods: Vec<String>,
    /// The trailing token that names a key; `None` when the text had a
    /// single token only.
    pub keyname: Option<String>,
}

/// What a [`Binding`] stands for.
pub struct BindingView {
    pub raw: Seq<char>,
    pub mods: Seq<Seq<char>>,
    pub keyname: Option<Seq<char>>,
}

impl View for Binding {
    type V = BindingView;

    open spec fn view(&self) -> BindingView {
        BindingView {
            raw: self.raw@,
            mods: strs(self.mods@),
            keyname: match self.keyname {
                Some(k) => Some(k@),
                None => None,
            },
        }
    }
}

/// What a list of bindings stands for.
pub open spec fn views(v: Seq<Binding>) -> Seq<BindingView> {
    Seq::new(v.len(), |i: int| v[i]@)
}

/// The draft that a binding string is read as: with more than one token the
/// last is the key name and those before it are the modifiers; a single
/// token is kept as a lone modifier without a key name.
pub open spec fn parsed(raw: Seq<char>) -> BindingView {
    let parts = split(raw, SEPARATOR);
    if parts.len() <= 1 {
        BindingView { raw, mods: seq![raw], keyname: None }
    } else {
        BindingView { raw, mods: parts.drop_last(), keyname: Some(parts.last()) }
    }
}

/// The drafts that a list of binding strings is read as, one for one.
pub open spec fn parsed_all(raws: Seq<Seq<char>>) -> Seq<BindingView> {
    Seq::new(raws.len(), |i: int| parsed(raws[i]))
}

/// The tokens of a draft in the order written: the modifiers, then the key
/// name if there is one.
pub open spec fn tokens(b: BindingView) -> Seq<Seq<char>> {
    match b.keyname {
        Some(k) => b.mods.push(k),
        None => b.mods,
    }
}

/// Writing the tokens of a parsed binding string back with the separator
/// between them gives the string itself, and the draft keeps the text as
/// written.
pub proof fn lemma_parse_round_trip(raw: Seq<char>)
    ensures
        join(tokens(parsed(raw)), SEPARATOR) == raw,
        parsed(raw).raw == raw,
{
    lemma_split_shape(raw, SEPARATOR);
    lemma_join_split(raw, SEPARATOR);
    lemma_split_single(raw, SEPARATOR);
    let parts = split(raw, SEPARATOR);
    if parts.len() > 1 {
        assert(parts.drop_last().push(parts.last()) == parts);
    }
}

/// A binding string has a key name exactly when it holds a separator; no
/// token of it holds one.
pub proof fn lemma_parse_shape(raw: Seq<char>)
    ensures
        parsed(raw).keyname is Some <==> raw.contains(SEPARATOR),
        parsed(raw).mods.len() >= 1,
        parsed(raw).keyname is Some ==> tokens(parsed(raw)) == split(raw, SEPARATOR),
{
    lemma_split_shape(raw, SEPARATOR);
    lemma_split_single(raw, SEPARATOR);
    let parts = split(raw, SEPARATOR);
    if parts.len() > 1 {
        assert(parts.drop_last().push(parts.last()) == parts);
    }
}

impl Binding {
    /// Reads one binding string.
    pub fn parse(raw: &str) -> (b: Binding)
        ensures
            b@ == parsed(raw@),
    {
        let mut parts = split_on(raw, SEPARATOR);
        proof {
            lemma_split_shape(raw@, SEPARATOR);
        }
        if parts.len() <= 1 {
            let mut mods: Vec<String> = Vec::new();
            mods.push(raw.to_owned());
            assert(strs(mods@) == seq![raw@]);
            Binding { raw: raw.to_owned(), mods, keyname: None }
        } else {
            let ghost all = parts@;
            let keyname = parts.pop();
            assert(strs(parts@) == strs(all).drop_last());
            Binding { raw: raw.to_owned(), mods: parts, keyname }
        }
    }
}

/// Reads each binding string of a list.
pub fn as_bindings(raw: Vec<String>) -> (out: Vec<Binding>)
    ensures
        views(out@) == parsed_all(strs(raw@)),
{
    let mut out: Vec<Binding> = Vec::new();
    let mut i: usize = 0;
    while i < raw.len()
        invariant
            i <= raw.len(),
            out.len() == i,
            forall|k: int| 0 <= k < i ==> (#[trigger] out[k])@ == parsed(raw[k]@),
        decreases raw.len() - i,
    {
        out.push(Binding::parse(raw[i].as_str()));
        i += 1;
    }
    assert(views(out@) == parsed_all(strs(raw@)));
    out
}

/// Whether the modifier list of a binding is legal.
pub fn has_valid_modifiers(binding: &Binding) -> (ok: bool)
    ensures
        ok == valid_modifiers(binding@.mods),
{
    if binding.mods.len() == 0 {
        return false;
    }
    let mut i: usize = 0;
    while i < binding.mods.len()
        invariant
            i <= binding.mods.len(),
            forall|k: int| 0 <= k < i ==> modifier_of(#[trigger] strs(binding.mods@)[k]) is Some,
        decreases binding.mods.len() - i,
    {
        if Modifier::from_token(binding.mods[i].as_str()).is_none() {
            assert(strs(binding.mods@)[i as int] == binding.mods[i as int]@);
            return false;
        }
        i += 1;
    }
    true
}

/// Whether a binding has a key name and `names` holds it.
pub fn is_valid_keyname(binding: &Binding, names: &[String]) -> (ok: bool)
    ensures
        ok == known_keyname(binding@.keyname, strs(names@)),
{
    match &binding.keyname {
        Some(k) => {
            let mut i: usize = 0;
            while i < names.len()
                invariant
                    i <= names.len(),
                    binding@.keyname == Some(k@),
                    forall|j: int| 0 <= j < i ==> (#[trigger] strs(names@)[j]) != k@,
                decreases names.len() - i,
            {
                if names[i] == *k {
                    assert(strs(names@)[i as int] == k@);
                    return true;
                }
                i += 1;
            }
            false
        },
        None => false,
    }
}

} // verus!
