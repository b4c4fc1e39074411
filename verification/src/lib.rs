//! Keybinding strings: their grammar, template expansion, validation and
//! resolution to modifier-mask / key-code pairs.
//!
//! Binding strings such as `M-S-j` are read by [`binding`]; groups of
//! templates such as `M-{}` are crossed with key names by [`expand`] and
//! collected with literal lists by [`input`]; [`validate`] reports every
//! problem of a collected input; [`resolve`] turns one binding string into a
//! modifier mask and a key code; [`keymap`] reads the table of key names
//! that `xmodmap -pke` prints.

pub mod binding;
pub mod expand;
pub mod helpers;
pub mod input;
pub mod keymap;
pub mod resolve;
pub mod text;
pub mod validate;

pub use binding::{as_bindings, has_valid_modifiers, is_valid_keyname, Binding, Modifier};
pub use expand::{expand_templates, TemplateError};
pub use helpers::{cycle_index, Direction};
pub use input::{BindingsInput, TemplateGroup};
pub use keymap::{keycodes_from_xmodmap, keynames_from_xmodmap, KeymapError};
pub use resolve::{parse_key_binding, resolve, CodeMap, KeyCode, Resolution};
pub use validate::{report_error, validate_user_bindings, BindingError};
