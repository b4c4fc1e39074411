//! Resolution of one binding against a table of key names: the modifiers
//! become a mask, the key name becomes a key code.

use crate::binding::{
    canonical, lemma_parse_shape, modifier_of, parsed, valid_modifiers, Binding, BindingView,
    Modifier,
};
use crate::text::strs;
use vstd::hash_map::StringHashMap;
use vstd::prelude::*;

verus! {

/// A key press as the X server reports it: the modifiers held and the key.
#[derive(Clone, Copy, Debug, PartialEq, Eq, Hash, Structural)]
pub struct KeyCode {
    /// The modifier bits, or-ed together.
    pub mask: u16,
    /// The code of the key.
    pub code: u8,
}

/// The table of the known key names, each with its key code.
pub struct CodeMap {
    table: StringHashMap<u8>,
}

impl View for CodeMap {
    type V = Map<Seq<char>, u8>;

    closed spec fn view(&self) -> Map<Seq<char>, u8> {
        self.table@
    }
}

impl CodeMap {
    /// A table without names.
    pub fn new() -> (codes: CodeMap)
        ensures
            codes@ == Map::<Seq<char>, u8>::empty(),
    {
        CodeMap { table: StringHashMap::new() }
    }

    /// Gives `name` the code `code`; a code that the name had before is
    /// forgotten.
    pub fn insert(&mut self, name: String, code: u8)
        ensures
            final(self)@ == old(self)@.insert(name@, code),
    {
        self.table.insert(name, code);
    }

    /// The code of `name`, if the table holds the name.
    pub fn get(&self, name: &str) -> (code: Option<u8>)
        ensures
            code == (if self@.contains_key(name@) {
                Some(self@[name@])
            } else {
                None
            }),
    {
        match self.table.get(name) {
            Some(code) => Some(*code),
            None => None,
        }
    }

    /// Whether the table holds `name`.
    pub fn contains_key(&self, name: &str) -> (held: bool)
        ensures
            held == self@.contains_key(name@),
    {
        self.table.contains_key(name)
    }

    /// The number of names in the table.
    pub fn len(&self) -> (n: usize)
        ensures
            n == self@.len(),
    {
        self.table.len()
    }
}

/// `xcb::MOD_MASK_1`: the bit of the protocol's modifier Mod1, which carries
/// Alt. The protocol description gives it bit 3.
#[verifier::external_body]
fn mod_mask_1() -> (mask: u32)
    ensures
        mask == 0x08,
{
    xcb::MOD_MASK_1
}

/// `xcb::MOD_MASK_4`: the bit of the protocol's modifier Mod4, which carries
/// Super. The protocol description gives it bit 6.
#[verifier::external_body]
fn mod_mask_4() -> (mask: u32)
    ensures
        mask == 0x40,
{
    xcb::MOD_MASK_4
}

/// `xcb::MOD_MASK_SHIFT`: the bit of Shift. The protocol description gives
/// it bit 0.
#[verifier::external_body]
fn mod_mask_shift() -> (mask: u32)
    ensures
        mask == 0x01,
{
    xcb::MOD_MASK_SHIFT
}

/// `xcb::MOD_MASK_CONTROL`: the bit of Control. The protocol description
/// gives it bit 2.
#[verifier::external_body]
fn mod_mask_control() -> (mask: u32)
    ensures
        mask == 0x04,
{
    xcb::MOD_MASK_CONTROL
}

/// The bit that a modifier has in a mask.
pub open spec fn modifier_bit(m: Modifier) -> u16 {
    match m {
        Modifier::Alt => 0x08,
        Modifier::Super => 0x40,
        Modifier::Shift => 0x01,
        Modifier::Control => 0x04,
    }
}

/// The mask of a list of modifier tokens: the bits of its modifiers, or-ed
/// together. A token that is no modifier adds nothing.
pub open spec fn mask_of(mods: Seq<Seq<char>>) -> u16
    decreases mods.len(),
{
    if mods.len() == 0 {
        0
    } else {
        match modifier_of(mods.last()) {
            Some(m) => mask_of(mods.drop_last()) | modifier_bit(m),
            None => mask_of(mods.drop_last()),
        }
    }
}

/// The first token of the list that is no modifier is at place `i`.
pub open spec fn first_unknown(mods: Seq<Seq<char>>, i: int) -> bool {
    &&& 0 <= i < mods.len()
    &&& modifier_of(mods[i]) is None
    &&& forall|j: int| 0 <= j < i ==> modifier_of(#[trigger] mods[j]) is Some
}

/// What resolving a binding against a table comes to.
#[derive(Clone, Debug, PartialEq, Eq)]
pub enum Resolution {
    /// The key name is known and each modifier token is a modifier.
    Resolved(KeyCode),
    /// The binding has no key name, or the table does not hold it.
    NotFound,
    /// The key name is known, but this token of the modifier list is no
    /// modifier.
    UnknownModifier(String),
}

/// The key code of a binding, where it has one: its key name has to be in
/// the table and its modifier tokens have to be modifiers.
pub open spec fn resolved(b: BindingView, codes: Map<Seq<char>, u8>) -> Option<KeyCode> {
    match b.keyname {
        Some(k) => if codes.contains_key(k) && valid_modifiers(b.mods) {
            Some(KeyCode { mask: mask_of(b.mods), code: codes[k] })
        } else {
            None
        },
        None => None,
    }
}

/// The key name of the binding is in the table.
pub open spec fn applies(b: BindingView, codes: Map<Seq<char>, u8>) -> bool {
    b.keyname matches Some(k) && codes.contains_key(k)
}

impl Modifier {
    /// The bit of this modifier in a mask.
    pub fn mask(self) -> (bit: u16)
        ensures
            bit == modifier_bit(self),
    {
        let wide: u32 = match self {
            Modifier::Alt => mod_mask_1(),
            Modifier::Super => mod_mask_4(),
            Modifier::Shift => mod_mask_shift(),
            Modifier::Control => mod_mask_control(),
        };
        wide as u16
    }
}

/// A mask holds the bit of a modifier exactly when the list it was made of
/// names that modifier: neither the order of the tokens nor a repeated token
/// changes the mask.
pub proof fn lemma_mask_bits(mods: Seq<Seq<char>>, m: Modifier)
    ensures
        mask_of(mods) & modifier_bit(m) != 0 <==> exists|i: int|
            0 <= i < mods.len() && modifier_of(#[trigger] mods[i]) == Some(m),
        mask_of(mods) & !0x4du16 == 0,
    decreases mods.len(),
{
    if mods.len() == 0 {
        assert(0u16 & modifier_bit(m) == 0) by (bit_vector);
        assert(0u16 & !0x4du16 == 0) by (bit_vector);
    } else {
        let front = mods.drop_last();
        let last = mods.len() - 1;
        lemma_mask_bits(front, m);
        let rest = mask_of(front);
        let bit = modifier_bit(m);
        assert(bit == 0x08 || bit == 0x40 || bit == 0x01 || bit == 0x04);
        if exists|i: int| 0 <= i < front.len() && modifier_of(#[trigger] front[i]) == Some(m) {
            let i = choose|i: int| 0 <= i < front.len() && modifier_of(#[trigger] front[i]) == Some(m);
            assert(mods[i] == front[i]);
        }
        if exists|i: int| 0 <= i < mods.len() && modifier_of(#[trigger] mods[i]) == Some(m) {
            let i = choose|i: int| 0 <= i < mods.len() && modifier_of(#[trigger] mods[i]) == Some(m);
            if i < last {
                assert(front[i] == mods[i]);
            }
        }
        match modifier_of(mods.last()) {
            Some(n) => {
                let other = modifier_bit(n);
                assert(other == 0x08 || other == 0x40 || other == 0x01 || other == 0x04);
                assert((rest | other) & !0x4du16 == 0) by (bit_vector)
                    requires
                        rest & !0x4du16 == 0,
                        other == 0x08 || other == 0x40 || other == 0x01 || other == 0x04,
                ;
                if n == m {
                    assert((rest | bit) & bit != 0) by (bit_vector)
                        requires
                            bit == 0x08 || bit == 0x40 || bit == 0x01 || bit == 0x04,
                    ;
                    assert(modifier_of(mods[last]) == Some(m));
                } else {
                    assert(other != bit);
                    assert(((rest | other) & bit != 0) == (rest & bit != 0)) by (bit_vector)
                        requires
                            bit == 0x08 || bit == 0x40 || bit == 0x01 || bit == 0x04,
                            other == 0x08 || other == 0x40 || other == 0x01 || other == 0x04,
                            other != bit,
                    ;
                }
            },
            None => {},
        }
    }
}

/// A binding that is canonical for a list of names resolves against every
/// table that holds those names: what validation lets pass, resolution does
/// not turn away.
pub proof fn lemma_canonical_resolves(
    b: BindingView,
    names: Seq<Seq<char>>,
    codes: Map<Seq<char>, u8>,
)
    requires
        canonical(b, names),
        forall|n: Seq<char>| names.contains(n) ==> #[trigger] codes.contains_key(n),
    ensures
        resolved(b, codes) == Some(KeyCode { mask: mask_of(b.mods), code: codes[b.keyname->0] }),
{
}

/// Resolves a binding string against a table. The string is read as any
/// binding string is; its key name is looked up first, and only where the
/// table holds it are the modifiers read.
pub fn resolve(pattern: &str, codes: &CodeMap) -> (out: Resolution)
    ensures
        match out {
            Resolution::Resolved(key) => resolved(parsed(pattern@), codes@) == Some(key),
            Resolution::NotFound => !applies(parsed(pattern@), codes@),
            Resolution::UnknownModifier(tok) => applies(parsed(pattern@), codes@) && exists|i: int|
                first_unknown(parsed(pattern@).mods, i) && tok@ == #[trigger] parsed(
                    pattern@,
                ).mods[i],
        },
{
    let b = Binding::parse(pattern);
    proof {
        lemma_parse_shape(pattern@);
    }
    let code = match &b.keyname {
        Some(k) => match codes.get(k.as_str()) {
            Some(code) => code,
            None => {
                return Resolution::NotFound;
            },
        },
        None => {
            return Resolution::NotFound;
        },
    };
    let ghost mods = strs(b.mods@);
    let mut mask: u16 = 0;
    let mut i: usize = 0;
    while i < b.mods.len()
        invariant
            i <= b.mods.len(),
            mods == strs(b.mods@),
            b@ == parsed(pattern@),
            applies(b@, codes@),
            forall|j: int| 0 <= j < i ==> modifier_of(#[trigger] mods[j]) is Some,
            mask == mask_of(mods.take(i as int)),
        decreases b.mods.len() - i,
    {
        assert(mods.take(i + 1).drop_last() == mods.take(i as int));
        assert(mods.take(i + 1).last() == mods[i as int]);
        match Modifier::from_token(b.mods[i].as_str()) {
            Some(m) => {
                mask = mask | m.mask();
            },
            None => {
                assert(first_unknown(mods, i as int));
                return Resolution::UnknownModifier(b.mods[i].clone());
            },
        }
        i += 1;
    }
    assert(mods.take(b.mods.len() as int) == mods);
    Resolution::Resolved(KeyCode { mask, code })
}

/// The modifier mask and key code that a binding string stands for, or
/// `None` where the string has no key name or the table does not hold it.
/// A string whose key name is known has to name modifiers only.
pub fn parse_key_binding(pattern: &str, known_codes: &CodeMap) -> (out: Option<KeyCode>)
    requires
        applies(parsed(pattern@), known_codes@) ==> valid_modifiers(parsed(pattern@).mods),
    ensures
        out == resolved(parsed(pattern@), known_codes@),
        out is Some <==> applies(parsed(pattern@), known_codes@),
{
    match resolve(pattern, known_codes) {
        Resolution::Resolved(key) => Some(key),
        Resolution::NotFound => None,
        Resolution::UnknownModifier(_) => None,
    }
}

} // verus!
