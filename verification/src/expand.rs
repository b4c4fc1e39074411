//! Template expansion: every modifier template of a group is crossed with
//! every key name of the group.

use crate::binding::{parsed, views, Binding, BindingView, SEPARATOR};
use crate::text::{
    copy_strings, free_of, join, join_with, lemma_split_join, lemma_split_shape, split, split_on,
    strs,
};
use vstd::prelude::*;
use vstd::string::StrSliceExecFns;
use vstd::string::StringExecFns;

verus! {

/// The token that ends a modifier template and is replaced by each key name.
pub open spec fn placeholder() -> Seq<char> {
    seq!['{', '}']
}

/// The modifier tokens of a template: all its tokens but the last, which has
/// to be the placeholder. `None` for a template that does not end in it.
pub open spec fn template_mods(template: Seq<char>) -> Option<Seq<Seq<char>>> {
    let parts = split(template, SEPARATOR);
    if parts.last() == placeholder() {
        Some(parts.drop_last())
    } else {
        None
    }
}

/// The binding that a template with modifiers `mods` gives for `key`.
pub open spec fn expanded(mods: Seq<Seq<char>>, key: Seq<char>) -> BindingView {
    BindingView { raw: join(mods, SEPARATOR) + seq![SEPARATOR] + key, mods, keyname: Some(key) }
}

/// The bindings that one template gives, one for each key name, in the order
/// of the key names.
pub open spec fn row(template: Seq<char>, keys: Seq<Seq<char>>) -> Seq<BindingView> {
    Seq::new(keys.len(), |j: int| expanded(template_mods(template).unwrap(), keys[j]))
}

/// The bindings that a group gives: the rows of its templates one after
/// another, in the order of the templates.
pub open spec fn expansion(templates: Seq<Seq<char>>, keys: Seq<Seq<char>>) -> Seq<BindingView>
    decreases templates.len(),
{
    if templates.len() == 0 {
        Seq::empty()
    } else {
        expansion(templates.drop_last(), keys) + row(templates.last(), keys)
    }
}

/// `i` is the place of the first template of the list that does not end in
/// the placeholder.
pub open spec fn first_malformed(templates: Seq<Seq<char>>, i: int) -> bool {
    &&& 0 <= i < templates.len()
    &&& template_mods(templates[i]) is None
    &&& forall|j: int| 0 <= j < i ==> template_mods(#[trigger] templates[j]) is Some
}

/// Every template of the list ends in the placeholder.
pub open spec fn well_formed(templates: Seq<Seq<char>>) -> bool {
    forall|i: int| 0 <= i < templates.len() ==> template_mods(#[trigger] templates[i]) is Some
}

/// Expansion is a cross product: `t` templates and `k` key names give `t * k`
/// bindings, and the binding of template `i` and key name `j` stands at
/// place `i * k + j`.
pub proof fn lemma_expansion_is_cross_product(templates: Seq<Seq<char>>, keys: Seq<Seq<char>>)
    ensures
        expansion(templates, keys).len() == templates.len() * keys.len(),
        forall|i: int, j: int|
            0 <= i < templates.len() && 0 <= j < keys.len() ==> {
                &&& 0 <= i * keys.len() + j < expansion(templates, keys).len()
                &&& #[trigger] expansion(templates, keys)[i * keys.len() + j] == expanded(
                    template_mods(templates[i]).unwrap(),
                    keys[j],
                )
            },
    decreases templates.len(),
{
    let t = templates.len() as int;
    let k = keys.len() as int;
    if t == 0 {
        assert(t * k == 0);
    } else {
        let front = templates.drop_last();
        lemma_expansion_is_cross_product(front, keys);
        assert((t - 1) * k + k == t * k) by (nonlinear_arith);
        assert forall|i: int, j: int| 0 <= i < t && 0 <= j < k implies {
            &&& 0 <= i * k + j < expansion(templates, keys).len()
            &&& #[trigger] expansion(templates, keys)[i * k + j] == expanded(
                template_mods(templates[i]).unwrap(),
                keys[j],
            )
        } by {
            assert(0 <= i * k && (i + 1) * k <= t * k && (i + 1) * k == i * k + k)
                by (nonlinear_arith)
                requires
                    0 <= i < t,
                    0 <= k,
            ;
            if i < t - 1 {
                assert(front[i] == templates[i]);
                assert((i + 1) * k <= (t - 1) * k) by (nonlinear_arith)
                    requires
                        i + 1 <= t - 1,
                        0 <= k,
                ;
                assert(expansion(templates, keys)[i * k + j] == expansion(front, keys)[i * k
                    + j]);
            } else {
                assert(i * k == (t - 1) * k);
                assert(expansion(templates, keys)[i * k + j] == row(templates.last(), keys)[j]);
            }
        }
    }
}

/// Each place of an expansion comes from exactly one pair of a template and
/// a key name.
pub proof fn lemma_expansion_origin_unique(t: int, k: int, i1: int, j1: int, i2: int, j2: int)
    requires
        0 <= i1 < t,
        0 <= i2 < t,
        0 <= j1 < k,
        0 <= j2 < k,
        i1 * k + j1 == i2 * k + j2,
    ensures
        i1 == i2,
        j1 == j2,
{
    if i1 < i2 {
        assert((i1 + 1) * k <= i2 * k) by (nonlinear_arith)
            requires
                i1 + 1 <= i2,
                0 <= k,
        ;
        assert((i1 + 1) * k == i1 * k + k) by (nonlinear_arith);
    } else if i2 < i1 {
        assert((i2 + 1) * k <= i1 * k) by (nonlinear_arith)
            requires
                i2 + 1 <= i1,
                0 <= k,
        ;
        assert((i2 + 1) * k == i2 * k + k) by (nonlinear_arith);
    }
}

/// A binding that a template with at least one modifier gives for a key name
/// free of the separator is the binding that its own text is read as.
pub proof fn lemma_expanded_parses_back(template: Seq<char>, key: Seq<char>)
    requires
        template_mods(template) matches Some(mods) && mods.len() >= 1,
        !key.contains(SEPARATOR),
    ensures
        parsed(expanded(template_mods(template).unwrap(), key).raw) == expanded(
            template_mods(template).unwrap(),
            key,
        ),
{
    let mods = template_mods(template).unwrap();
    let parts = split(template, SEPARATOR);
    lemma_split_shape(template, SEPARATOR);
    let all = mods.push(key);
    assert(free_of(all, SEPARATOR)) by {
        assert forall|i: int| 0 <= i < all.len() implies !(#[trigger] all[i]).contains(
            SEPARATOR,
        ) by {
            if i < mods.len() {
                assert(all[i] == parts[i]);
            }
        }
    }
    assert(all.drop_last() == mods);
    assert(join(all, SEPARATOR) == join(mods, SEPARATOR) + seq![SEPARATOR] + key);
    lemma_split_join(all, SEPARATOR);
}

/// A template that does not end in the placeholder.
#[derive(Clone, Debug, PartialEq, Eq)]
pub struct TemplateError {
    /// The offending template, as written.
    pub template: String,
}

/// The text of the report on a malformed template.
pub open spec fn template_error_text(template: Seq<char>) -> Seq<char> {
    "'"@ + template + "' is an invalid template: expected '<Modifiers>-{}'"@
}

impl TemplateError {
    /// The report on the malformed template, for a human reader.
    pub fn message(&self) -> (text: String)
        ensures
            text@ == template_error_text(self.template@),
    {
        let mut text = String::from_str("'");
        text.append(self.template.as_str());
        text.append("' is an invalid template: expected '<Modifiers>-{}'");
        text
    }
}

/// Whether a token is the placeholder.
fn is_placeholder(tok: &str) -> (yes: bool)
    ensures
        yes == (tok@ == placeholder()),
{
    if tok.unicode_len() != 2 {
        return false;
    }
    let open = tok.get_char(0);
    let close = tok.get_char(1);
    if open == '{' && close == '}' {
        assert(tok@ == placeholder());
        true
    } else {
        assert(placeholder()[0] == '{' && placeholder()[1] == '}');
        false
    }
}

/// Expands a group: each template is crossed with each key name, templates
/// outermost. A template that does not end in the placeholder stops the
/// expansion, and the first such template is reported.
pub fn expand_templates(templates: Vec<String>, keynames: Vec<String>) -> (out: Result<
    Vec<Binding>,
    TemplateError,
>)
    ensures
        match out {
            Ok(bindings) => {
                &&& well_formed(strs(templates@))
                &&& views(bindings@) == expansion(strs(templates@), strs(keynames@))
            },
            Err(e) => exists|i: int|
                first_malformed(strs(templates@), i) && e.template@ == #[trigger] strs(
                    templates@,
                )[i],
        },
{
    let ghost ts = strs(templates@);
    let ghost ks = strs(keynames@);
    let mut out: Vec<Binding> = Vec::new();
    let mut i: usize = 0;
    while i < templates.len()
        invariant
            i <= templates.len(),
            ts == strs(templates@),
            ks == strs(keynames@),
            forall|j: int| 0 <= j < i ==> template_mods(#[trigger] ts[j]) is Some,
            views(out@) == expansion(ts.take(i as int), ks),
        decreases templates.len() - i,
    {
        let mut parts = split_on(templates[i].as_str(), SEPARATOR);
        proof {
            lemma_split_shape(ts[i as int], SEPARATOR);
        }
        let ghost all = strs(parts@);
        let last = parts.pop().unwrap();
        assert(last@ == all.last());
        assert(strs(parts@) == all.drop_last());
        if !is_placeholder(last.as_str()) {
            assert(first_malformed(ts, i as int));
            return Err(TemplateError { template: templates[i].clone() });
        }
        let ghost mods = strs(parts@);
        assert(template_mods(ts[i as int]) == Some(mods));
        let ghost done = views(out@);
        let prefix = join_with(&parts, SEPARATOR);
        let mut j: usize = 0;
        while j < keynames.len()
            invariant
                j <= keynames.len(),
                i < ts.len(),
                ks == strs(keynames@),
                mods == strs(parts@),
                prefix@ == join(mods, SEPARATOR),
                template_mods(ts[i as int]) == Some(mods),
                views(out@) == done + row(ts[i as int], ks).take(j as int),
            decreases keynames.len() - j,
        {
            let mut raw = prefix.clone();
            raw.push(SEPARATOR);
            raw.append(keynames[j].as_str());
            let binding = Binding {
                raw,
                mods: copy_strings(&parts),
                keyname: Some(keynames[j].clone()),
            };
            assert(binding@ == expanded(mods, ks[j as int])) by {
                assert(join(mods, SEPARATOR).push(SEPARATOR) == join(mods, SEPARATOR)
                    + seq![SEPARATOR]);
            }
            let ghost before = views(out@);
            out.push(binding);
            assert(views(out@) == before.push(binding@));
            assert(row(ts[i as int], ks).take(j + 1) == row(ts[i as int], ks).take(
                j as int,
            ).push(expanded(mods, ks[j as int])));
            j += 1;
        }
        assert(row(ts[i as int], ks).take(keynames.len() as int) == row(ts[i as int], ks));
        assert(ts.take(i + 1).drop_last() == ts.take(i as int));
        assert(ts.take(i + 1).last() == ts[i as int]);
        i += 1;
    }
    assert(ts.take(templates.len() as int) == ts);
    Ok(out)
}

} // verus!
