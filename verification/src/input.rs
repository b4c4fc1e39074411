//! The two forms in which bindings are written down, a literal list and
//! template groups, collected into one list of drafts.

use crate::binding::{as_bindings, parsed_all, views, Binding, BindingView};
use crate::expand::{expand_templates, expansion, first_malformed, well_formed, TemplateError};
use crate::text::{copy_strings, strs};
use vstd::prelude::*;

verus! {

/// Modifier templates together with the key names they are crossed with.
#[derive(Clone, Debug, PartialEq, Eq)]
pub struct TemplateGroup {
    /// The templates, each ending in the placeholder.
    pub templates: Vec<String>,
    /// The key names that take the placeholder's place.
    pub keynames: Vec<String>,
}

/// What a [`TemplateGroup`] stands for.
pub struct TemplateGroupView {
    pub templates: Seq<Seq<char>>,
    pub keynames: Seq<Seq<char>>,
}

impl View for TemplateGroup {
    type V = TemplateGroupView;

    open spec fn view(&self) -> TemplateGroupView {
        TemplateGroupView { templates: strs(self.templates@), keynames: strs(self.keynames@) }
    }
}

/// What a list of groups stands for.
pub open spec fn group_views(groups: Seq<TemplateGroup>) -> Seq<TemplateGroupView> {
    Seq::new(groups.len(), |g: int| groups[g]@)
}

/// The bindings of a list of groups: the expansion of each group, one after
/// another.
pub open spec fn expansion_of_groups(groups: Seq<TemplateGroupView>) -> Seq<BindingView>
    decreases groups.len(),
{
    if groups.len() == 0 {
        Seq::empty()
    } else {
        expansion_of_groups(groups.drop_last()) + expansion(
            groups.last().templates,
            groups.last().keynames,
        )
    }
}

/// The drafts of a whole input: those of the literal list, then those of the
/// groups.
pub open spec fn collected(literals: Seq<Seq<char>>, groups: Seq<TemplateGroupView>) -> Seq<
    BindingView,
> {
    parsed_all(literals) + expansion_of_groups(groups)
}

/// Template `i` of group `g` is the first malformed template of the input.
pub open spec fn first_malformed_in(groups: Seq<TemplateGroupView>, g: int, i: int) -> bool {
    &&& 0 <= g < groups.len()
    &&& first_malformed(groups[g].templates, i)
    &&& forall|h: int| 0 <= h < g ==> well_formed((#[trigger] groups[h]).templates)
}

/// Every template of every group ends in the placeholder.
pub open spec fn groups_well_formed(groups: Seq<TemplateGroupView>) -> bool {
    forall|g: int| 0 <= g < groups.len() ==> well_formed((#[trigger] groups[g]).templates)
}

/// The drafts of all bindings that a user wrote down.
#[derive(Clone, Debug, PartialEq, Eq)]
pub struct BindingsInput(pub Vec<Binding>);

impl BindingsInput {
    /// Collects the drafts of a literal list and of template groups, in the
    /// order written. The first malformed template stops the collection.
    pub fn parse(literals: Vec<String>, groups: Vec<TemplateGroup>) -> (out: Result<
        BindingsInput,
        TemplateError,
    >)
        ensures
            match out {
                Ok(input) => {
                    &&& groups_well_formed(group_views(groups@))
                    &&& views(input.0@) == collected(strs(literals@), group_views(groups@))
                },
                Err(e) => exists|g: int, i: int|
                    first_malformed_in(group_views(groups@), g, i) && e.template@
                        == #[trigger] group_views(groups@)[g].templates[i],
            },
    {
        let ghost gs = group_views(groups@);
        let mut bindings = as_bindings(literals);
        let ghost first = views(bindings@);
        assert(expansion_of_groups(gs.take(0)) == Seq::<BindingView>::empty());
        let mut g: usize = 0;
        while g < groups.len()
            invariant
                g <= groups.len(),
                gs == group_views(groups@),
                forall|h: int| 0 <= h < g ==> well_formed((#[trigger] gs[h]).templates),
                views(bindings@) == first + expansion_of_groups(gs.take(g as int)),
            decreases groups.len() - g,
        {
            let templates = copy_strings(&groups[g].templates);
            let keynames = copy_strings(&groups[g].keynames);
            assert(gs[g as int] == groups[g as int]@);
            match expand_templates(templates, keynames) {
                Ok(mut more) => {
                    let ghost before = bindings@;
                    let ghost added = more@;
                    bindings.append(&mut more);
                    assert(views(bindings@) == views(before) + views(added));
                    assert(gs.take(g + 1).drop_last() == gs.take(g as int));
                    assert(gs.take(g + 1).last() == gs[g as int]);
                },
                Err(e) => {
                    let ghost i = choose|i: int|
                        first_malformed(gs[g as int].templates, i) && e.template@
                            == gs[g as int].templates[i];
                    assert(first_malformed_in(gs, g as int, i));
                    return Err(e);
                },
            }
            g += 1;
        }
        assert(gs.take(groups.len() as int) == gs);
        Ok(BindingsInput(bindings))
    }
}

} // verus!
