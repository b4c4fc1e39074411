//! The validation pass: every draft of an input is checked, and every
//! problem found is reported, not only the first.

use crate::binding::{
    canonical, has_valid_modifiers, is_valid_keyname, valid_modifiers, views, Binding,
    BindingView, SEPARATOR,
};
use crate::input::BindingsInput;
use crate::text::{copy_strings, join, join_with, strs};
use vstd::hash_set::StringHashSet;
use vstd::prelude::*;
use vstd::string::StringExecFns;

verus! {

/// One problem found with one binding.
#[derive(Clone, Debug, PartialEq, Eq)]
pub enum BindingError {
    /// The same text is bound more than once.
    Duplicate { raw: String },
    /// The binding has no trailing key name.
    MissingKeyName { raw: String },
    /// The key name is not among the known names.
    UnknownKeyName { raw: String, keyname: String },
    /// The modifier list is empty or holds a token that is no modifier.
    InvalidModifiers { raw: String, mods: Vec<String> },
}

/// What a [`BindingError`] stands for.
pub enum BindingErrorView {
    Duplicate { raw: Seq<char> },
    MissingKeyName { raw: Seq<char> },
    UnknownKeyName { raw: Seq<char>, keyname: Seq<char> },
    InvalidModifiers { raw: Seq<char>, mods: Seq<Seq<char>> },
}

impl View for BindingError {
    type V = BindingErrorView;

    open spec fn view(&self) -> BindingErrorView {
        match self {
            BindingError::Duplicate { raw } => BindingErrorView::Duplicate { raw: raw@ },
            BindingError::MissingKeyName { raw } => BindingErrorView::MissingKeyName { raw: raw@ },
            BindingError::UnknownKeyName { raw, keyname } => BindingErrorView::UnknownKeyName {
                raw: raw@,
                keyname: keyname@,
            },
            BindingError::InvalidModifiers { raw, mods } => BindingErrorView::InvalidModifiers {
                raw: raw@,
                mods: strs(mods@),
            },
        }
    }
}

/// What a list of errors stands for.
pub open spec fn error_views(v: Seq<BindingError>) -> Seq<BindingErrorView> {
    Seq::new(v.len(), |i: int| v[i]@)
}

/// The text of binding `i` is also the text of a binding before it.
pub open spec fn bound_before(bindings: Seq<BindingView>, i: int) -> bool {
    exists|j: int| 0 <= j < i && (#[trigger] bindings[j]).raw == bindings[i].raw
}

/// The problems of one binding, in the order in which they are looked for:
/// a repeated text, then the key name, then the modifiers.
pub open spec fn problems_of(b: BindingView, repeated: bool, names: Seq<Seq<char>>) -> Seq<
    BindingErrorView,
> {
    let duplicate = if repeated {
        seq![BindingErrorView::Duplicate { raw: b.raw }]
    } else {
        Seq::empty()
    };
    let key = match b.keyname {
        None => seq![BindingErrorView::MissingKeyName { raw: b.raw }],
        Some(k) => if names.contains(k) {
            Seq::empty()
        } else {
            seq![BindingErrorView::UnknownKeyName { raw: b.raw, keyname: k }]
        },
    };
    let modifiers = if valid_modifiers(b.mods) {
        Seq::empty()
    } else {
        seq![BindingErrorView::InvalidModifiers { raw: b.raw, mods: b.mods }]
    };
    duplicate + key + modifiers
}

/// The problems of a list of bindings: those of each binding, in the order
/// of the list.
pub open spec fn problems(bindings: Seq<BindingView>, names: Seq<Seq<char>>) -> Seq<
    BindingErrorView,
>
    decreases bindings.len(),
{
    if bindings.len() == 0 {
        Seq::empty()
    } else {
        problems(bindings.drop_last(), names) + problems_of(
            bindings.last(),
            bound_before(bindings, bindings.len() - 1),
            names,
        )
    }
}

/// No two bindings of the list have the same text.
pub open spec fn distinct_raws(bindings: Seq<BindingView>) -> bool {
    forall|i: int, j: int|
        0 <= i < j < bindings.len() ==> (#[trigger] bindings[i]).raw != (#[trigger] bindings[j]).raw
}

/// A binding has no problems exactly when it is canonical and its text was
/// not bound before.
pub proof fn lemma_problems_of_empty(b: BindingView, repeated: bool, names: Seq<Seq<char>>)
    ensures
        problems_of(b, repeated, names).len() == 0 <==> canonical(b, names) && !repeated,
{
}

/// A list of bindings has no problems exactly when each binding is canonical
/// and no text is bound twice.
pub proof fn lemma_no_problems_iff_canonical(bindings: Seq<BindingView>, names: Seq<Seq<char>>)
    ensures
        problems(bindings, names).len() == 0 <==> {
            &&& forall|i: int| 0 <= i < bindings.len() ==> canonical(#[trigger] bindings[i], names)
            &&& distinct_raws(bindings)
        },
    decreases bindings.len(),
{
    if bindings.len() > 0 {
        let front = bindings.drop_last();
        let last = bindings.len() - 1;
        lemma_no_problems_iff_canonical(front, names);
        lemma_problems_of_empty(bindings.last(), bound_before(bindings, last), names);
        if problems(bindings, names).len() == 0 {
            assert forall|i: int| 0 <= i < bindings.len() implies canonical(
                #[trigger] bindings[i],
                names,
            ) by {
                if i < last {
                    assert(front[i] == bindings[i]);
                }
            }
            assert forall|i: int, j: int| 0 <= i < j < bindings.len() implies (
            #[trigger] bindings[i]).raw != (#[trigger] bindings[j]).raw by {
                if j < last {
                    assert(front[i] == bindings[i] && front[j] == bindings[j]);
                }
            }
        }
        if (forall|i: int| 0 <= i < bindings.len() ==> canonical(#[trigger] bindings[i], names))
            && distinct_raws(bindings) {
            assert forall|i: int| 0 <= i < front.len() implies canonical(
                #[trigger] front[i],
                names,
            ) by {
                assert(front[i] == bindings[i]);
            }
            assert forall|i: int, j: int| 0 <= i < j < front.len() implies (#[trigger] front[i]).raw
                != (#[trigger] front[j]).raw by {
                assert(front[i] == bindings[i] && front[j] == bindings[j]);
            }
            assert(canonical(bindings[last], names));
            assert(!bound_before(bindings, last));
        }
    }
}

/// Among bindings that are each canonical, a text that is bound at two
/// places, and no other text twice, gives exactly one problem: the
/// duplicate, reported for the later place.
pub proof fn lemma_single_duplicate(
    bindings: Seq<BindingView>,
    names: Seq<Seq<char>>,
    first: int,
    second: int,
)
    requires
        forall|i: int| 0 <= i < bindings.len() ==> canonical(#[trigger] bindings[i], names),
        0 <= first < second < bindings.len(),
        forall|i: int, j: int|
            0 <= i < j < bindings.len() ==> ((#[trigger] bindings[i]).raw == (
            #[trigger] bindings[j]).raw <==> i == first && j == second),
    ensures
        problems(bindings, names) == seq![
            BindingErrorView::Duplicate { raw: bindings[second].raw },
        ],
    decreases bindings.len(),
{
    let front = bindings.drop_last();
    let last = bindings.len() - 1;
    assert forall|i: int| 0 <= i < front.len() implies canonical(#[trigger] front[i], names) by {
        assert(front[i] == bindings[i]);
    }
    if second == last {
        assert(distinct_raws(front)) by {
            assert forall|i: int, j: int| 0 <= i < j < front.len() implies (#[trigger] front[i]).raw
                != (#[trigger] front[j]).raw by {
                assert(front[i] == bindings[i] && front[j] == bindings[j]);
            }
        }
        lemma_no_problems_iff_canonical(front, names);
        assert(problems(front, names) == Seq::<BindingErrorView>::empty());
        assert(bound_before(bindings, last)) by {
            assert(bindings[first].raw == bindings[last].raw);
        }
        assert(canonical(bindings[last], names));
    } else {
        assert forall|i: int, j: int| 0 <= i < j < front.len() implies ((#[trigger] front[i]).raw
            == (#[trigger] front[j]).raw <==> i == first && j == second) by {
            assert(front[i] == bindings[i] && front[j] == bindings[j]);
        }
        lemma_single_duplicate(front, names, first, second);
        assert(front[second] == bindings[second]);
        assert(canonical(bindings[last], names));
        assert(!bound_before(bindings, last));
        assert(problems_of(bindings[last], false, names) == Seq::<BindingErrorView>::empty());
    }
}

/// The text that ends every report on an invalid binding.
pub open spec fn format_hint() -> Seq<char> {
    "\nKey bindings should be of the form <modifiers>-<key name> e.g:  M-j, M-S-slash, M-C-Up"@
}

/// The text of a report that says `msg` of the binding written as `raw`.
pub open spec fn report_text(msg: Seq<char>, raw: Seq<char>) -> Seq<char> {
    "'"@ + raw + "' is an invalid key binding: "@ + msg + format_hint()
}

/// What is said of a binding whose key name is not known.
pub open spec fn unknown_key_text(keyname: Seq<char>) -> Seq<char> {
    "'"@ + keyname + "' is not a known key: run 'xmodmap -pke' to see valid key names"@
}

/// What is said of a binding whose modifier list is not legal.
pub open spec fn invalid_modifiers_text(mods: Seq<Seq<char>>) -> Seq<char> {
    "'"@ + join(mods, SEPARATOR)
        + "' is an invalid modifer set: valid modifiers are [\"A\", \"M\", \"S\", \"C\"]"@
}

/// The text of the report on a problem.
pub open spec fn error_text(e: BindingErrorView) -> Seq<char> {
    match e {
        BindingErrorView::Duplicate { raw } => "'"@ + raw
            + "' is bound as a keybinding more than once"@,
        BindingErrorView::MissingKeyName { raw } => report_text("no key name specified"@, raw),
        BindingErrorView::UnknownKeyName { raw, keyname } => report_text(
            unknown_key_text(keyname),
            raw,
        ),
        BindingErrorView::InvalidModifiers { raw, mods } => report_text(
            invalid_modifiers_text(mods),
            raw,
        ),
    }
}

/// The report that `msg` holds of binding `b`, with a reminder of the form
/// that bindings have.
pub fn report_error(msg: &str, b: &Binding) -> (text: String)
    ensures
        text@ == report_text(msg@, b@.raw),
{
    report(msg, b.raw.as_str())
}

/// The report that `msg` holds of the binding written as `raw`.
fn report(msg: &str, raw: &str) -> (text: String)
    ensures
        text@ == report_text(msg@, raw@),
{
    let mut text = String::from_str("'");
    text.append(raw);
    text.append("' is an invalid key binding: ");
    text.append(msg);
    text.append(
        "\nKey bindings should be of the form <modifiers>-<key name> e.g:  M-j, M-S-slash, M-C-Up",
    );
    text
}

impl BindingError {
    /// The report on this problem, for a human reader.
    pub fn message(&self) -> (text: String)
        ensures
            text@ == error_text(self@),
    {
        match self {
            BindingError::Duplicate { raw } => {
                let mut text = String::from_str("'");
                text.append(raw.as_str());
                text.append("' is bound as a keybinding more than once");
                text
            },
            BindingError::MissingKeyName { raw } => report("no key name specified", raw.as_str()),
            BindingError::UnknownKeyName { raw, keyname } => {
                let mut msg = String::from_str("'");
                msg.append(keyname.as_str());
                msg.append("' is not a known key: run 'xmodmap -pke' to see valid key names");
                report(msg.as_str(), raw.as_str())
            },
            BindingError::InvalidModifiers { raw, mods } => {
                let mut msg = String::from_str("'");
                let joined = join_with(mods, SEPARATOR);
                msg.append(joined.as_str());
                msg.append(
                    "' is an invalid modifer set: valid modifiers are [\"A\", \"M\", \"S\", \"C\"]",
                );
                report(msg.as_str(), raw.as_str())
            },
        }
    }
}

/// The texts of the first `n` bindings.
pub open spec fn raws_before(bindings: Seq<BindingView>, n: int) -> Set<Seq<char>> {
    Set::new(|raw: Seq<char>| exists|j: int| 0 <= j < n && (#[trigger] bindings[j]).raw == raw)
}

/// Checks every binding of an input against the known key names and reports
/// every problem found, in the order of the bindings.
pub fn validate_user_bindings(input: &BindingsInput, names: &[String]) -> (out: Result<
    (),
    Vec<BindingError>,
>)
    ensures
        match out {
            Ok(_) => problems(views(input.0@), strs(names@)).len() == 0,
            Err(errors) => {
                &&& errors.len() > 0
                &&& error_views(errors@) == problems(views(input.0@), strs(names@))
            },
        },
{
    let ghost bs = views(input.0@);
    let ghost ns = strs(names@);
    let mut seen = StringHashSet::new();
    let mut errors: Vec<BindingError> = Vec::new();
    let mut i: usize = 0;
    assert(seen@ =~= raws_before(bs, 0));
    while i < input.0.len()
        invariant
            i <= input.0.len(),
            bs == views(input.0@),
            ns == strs(names@),
            seen@ == raws_before(bs, i as int),
            error_views(errors@) == problems(bs.take(i as int), ns),
        decreases input.0.len() - i,
    {
        let b = &input.0[i];
        let ghost upto = bs.take(i + 1);
        let ghost before = error_views(errors@);
        assert(b@ == bs[i as int]);
        assert(upto.drop_last() == bs.take(i as int));
        assert(upto.last() == b@);
        assert(bound_before(upto, i as int) <==> seen@.contains(b@.raw)) by {
            if bound_before(upto, i as int) {
                let j = choose|j: int| 0 <= j < i && (#[trigger] upto[j]).raw == upto[i as int].raw;
                assert(bs[j].raw == b@.raw);
            }
            if seen@.contains(b@.raw) {
                let j = choose|j: int| 0 <= j < i && (#[trigger] bs[j]).raw == b@.raw;
                assert(upto[j].raw == upto[i as int].raw);
            }
        }
        let ghost repeated = seen@.contains(b@.raw);
        if seen.contains(b.raw.as_str()) {
            errors.push(BindingError::Duplicate { raw: b.raw.clone() });
        } else {
            seen.insert(b.raw.clone());
        }
        assert(seen@ =~= raws_before(bs, i + 1)) by {
            assert forall|raw: Seq<char>| seen@.contains(raw) implies raws_before(
                bs,
                i + 1,
            ).contains(raw) by {
                if raw == b@.raw {
                    assert(bs[i as int].raw == raw);
                } else {
                    let j = choose|j: int| 0 <= j < i && (#[trigger] bs[j]).raw == raw;
                    assert(0 <= j < i + 1);
                }
            }
            assert forall|raw: Seq<char>| raws_before(bs, i + 1).contains(raw) implies seen@.contains(
                raw,
            ) by {
                let j = choose|j: int| 0 <= j < i + 1 && (#[trigger] bs[j]).raw == raw;
                if j < i {
                    assert(raws_before(bs, i as int).contains(raw));
                }
            }
        }
        let ghost after_duplicate = error_views(errors@);
        assert(after_duplicate == before + (if repeated {
            seq![BindingErrorView::Duplicate { raw: b@.raw }]
        } else {
            Seq::empty()
        }));
        match &b.keyname {
            None => {
                errors.push(BindingError::MissingKeyName { raw: b.raw.clone() });
            },
            Some(k) => {
                if !is_valid_keyname(b, names) {
                    errors.push(
                        BindingError::UnknownKeyName { raw: b.raw.clone(), keyname: k.clone() },
                    );
                }
            },
        }
        let ghost after_key = error_views(errors@);
        assert(after_key == after_duplicate + (match b@.keyname {
            None => seq![BindingErrorView::MissingKeyName { raw: b@.raw }],
            Some(k) => if ns.contains(k) {
                Seq::empty()
            } else {
                seq![BindingErrorView::UnknownKeyName { raw: b@.raw, keyname: k }]
            },
        }));
        if !has_valid_modifiers(b) {
            errors.push(
                BindingError::InvalidModifiers { raw: b.raw.clone(), mods: copy_strings(&b.mods) },
            );
        }
        assert(error_views(errors@) == after_key + (if valid_modifiers(b@.mods) {
            Seq::empty()
        } else {
            seq![BindingErrorView::InvalidModifiers { raw: b@.raw, mods: b@.mods }]
        }));
        assert(error_views(errors@) == before + problems_of(b@, repeated, ns));
        i += 1;
    }
    assert(bs.take(input.0.len() as int) == bs);
    if errors.len() == 0 {
        Ok(())
    } else {
        Err(errors)
    }
}

} // verus!
