//! Selection of the plugins a sync acts on.
use vstd::prelude::*;

verus! {

/// A plugin known to the registry, identified by its name.
pub struct PluginRef {
    pub name: String,
}

impl Clone for PluginRef {
    fn clone(&self) -> (r: Self)
        ensures
            r == *self,
    {
        PluginRef { name: self.name.clone() }
    }
}

impl PluginRef {
    pub fn new(name: String) -> (r: Self)
        ensures
            r.name == name,
    {
        PluginRef { name }
    }
}

/// The names of a sequence of plugins, position by position.
pub open spec fn plugin_names(s: Seq<PluginRef>) -> Seq<Seq<char>> {
    s.map_values(|p: PluginRef| p.name@)
}

/// The views of a list of names.
pub open spec fn name_views(s: Seq<String>) -> Seq<Seq<char>> {
    s.map_values(|n: String| n@)
}

/// Whether a plugin called `name` survives the filter: it is in `only`
/// (or `only` is empty), and it is not in `exclude`.
pub open spec fn is_selected(name: Seq<char>, only: Seq<Seq<char>>, exclude: Seq<Seq<char>>) -> bool {
    (only.len() == 0 || only.contains(name)) && !exclude.contains(name)
}

/// The plugins of `all` that survive the filter, in the order of `all`.
pub open spec fn selection(all: Seq<PluginRef>, only: Seq<Seq<char>>, exclude: Seq<Seq<char>>) -> Seq<PluginRef>
    decreases all.len(),
{
    if all.len() == 0 {
        Seq::empty()
    } else {
        let rest = selection(all.drop_last(), only, exclude);
        if is_selected(all.last().name@, only, exclude) {
            rest.push(all.last())
        } else {
            rest
        }
    }
}

/// The positions in `all` of the plugins that `selection` keeps.
pub open spec fn selected_positions(all: Seq<PluginRef>, only: Seq<Seq<char>>, exclude: Seq<Seq<char>>) -> Seq<int>
    decreases all.len(),
{
    if all.len() == 0 {
        Seq::empty()
    } else {
        let rest = selected_positions(all.drop_last(), only, exclude);
        if is_selected(all.last().name@, only, exclude) {
            rest.push(all.len() - 1)
        } else {
            rest
        }
    }
}

/// `r` is `all` with some plugins left out: `pos` gives, in increasing
/// order, the position in `all` of each plugin of `r`.
pub open spec fn kept_at(r: Seq<PluginRef>, all: Seq<PluginRef>, pos: Seq<int>) -> bool {
    &&& pos.len() == r.len()
    &&& forall|k: int| 0 <= k < r.len() ==> 0 <= #[trigger] pos[k] < all.len() && r[k] == all[pos[k]]
    &&& forall|k: int, l: int| 0 <= k < l < r.len() ==> #[trigger] pos[k] < #[trigger] pos[l]
}

/// `r` is a subsequence of `all`.
pub open spec fn is_subsequence(r: Seq<PluginRef>, all: Seq<PluginRef>) -> bool {
    exists|pos: Seq<int>| kept_at(r, all, pos)
}

proof fn lemma_selected_positions(all: Seq<PluginRef>, only: Seq<Seq<char>>, exclude: Seq<Seq<char>>)
    ensures
        kept_at(selection(all, only, exclude), all, selected_positions(all, only, exclude)),
    decreases all.len(),
{
    if all.len() > 0 {
        lemma_selected_positions(all.drop_last(), only, exclude);
        let r = selection(all.drop_last(), only, exclude);
        let pos = selected_positions(all.drop_last(), only, exclude);
        assert(forall|k: int| 0 <= k < r.len() ==> #[trigger] pos[k] < all.len() - 1);
    }
}

/// Filtering keeps a sub-list of `all` in its order: each selected plugin
/// comes from `all`, their relative order is that of `all`, and when the
/// names in `all` are distinct so are the selected names.
pub proof fn lemma_selection_is_ordered_subset(all: Seq<PluginRef>, only: Seq<Seq<char>>, exclude: Seq<Seq<char>>)
    ensures
        is_subsequence(selection(all, only, exclude), all),
        forall|k: int| 0 <= k < selection(all, only, exclude).len() ==> all.contains(
            #[trigger] selection(all, only, exclude)[k],
        ),
        plugin_names(all).no_duplicates() ==> plugin_names(selection(all, only, exclude)).no_duplicates(),
{
    let r = selection(all, only, exclude);
    let pos = selected_positions(all, only, exclude);
    lemma_selected_positions(all, only, exclude);
    assert forall|k: int| 0 <= k < r.len() implies all.contains(#[trigger] r[k]) by {
        assert(all[pos[k]] == r[k]);
    }
    if plugin_names(all).no_duplicates() {
        assert forall|k: int, l: int| 0 <= k < plugin_names(r).len() && 0 <= l < plugin_names(r).len() && k != l
            implies #[trigger] plugin_names(r)[k] != #[trigger] plugin_names(r)[l] by {
            assert(plugin_names(all)[pos[k]] == plugin_names(r)[k]);
            assert(plugin_names(all)[pos[l]] == plugin_names(r)[l]);
            if k < l {
                assert(pos[k] < pos[l]);
            } else {
                assert(pos[l] < pos[k]);
            }
        }
    }
}

/// Exactly the plugins of `all` that pass the filter are selected.
pub proof fn lemma_selection_members(all: Seq<PluginRef>, only: Seq<Seq<char>>, exclude: Seq<Seq<char>>)
    ensures
        forall|k: int|
            0 <= k < selection(all, only, exclude).len() ==> is_selected(
                (#[trigger] selection(all, only, exclude)[k]).name@,
                only,
                exclude,
            ),
        forall|j: int|
            0 <= j < all.len() && is_selected((#[trigger] all[j]).name@, only, exclude) ==> selection(
                all,
                only,
                exclude,
            ).contains(all[j]),
    decreases all.len(),
{
    if all.len() > 0 {
        let prev = all.drop_last();
        lemma_selection_members(prev, only, exclude);
        let r = selection(all, only, exclude);
        let rp = selection(prev, only, exclude);
        assert forall|j: int| 0 <= j < all.len() && is_selected((#[trigger] all[j]).name@, only, exclude)
            implies r.contains(all[j]) by {
            if j < all.len() - 1 {
                assert(prev[j] == all[j]);
                let k = choose|k: int| 0 <= k < rp.len() && rp[k] == prev[j];
                assert(r[k] == all[j]);
            } else {
                assert(r[r.len() - 1] == all[j]);
            }
        }
    }
}

/// Whether `name` is one of `names`.
pub fn contains_name(names: &Vec<String>, name: &String) -> (r: bool)
    ensures
        r == name_views(names@).contains(name@),
{
    let mut i: usize = 0;
    while i < names.len()
        invariant
            i <= names@.len(),
            forall|j: int| 0 <= j < i ==> names@[j]@ != name@,
        decreases names@.len() - i,
    {
        if names[i] == *name {
            assert(name_views(names@)[i as int] == name@);
            return true;
        }
        i = i + 1;
    }
    proof {
        if name_views(names@).contains(name@) {
            let j = choose|j: int| 0 <= j < name_views(names@).len() && name_views(names@)[j] == name@;
            assert(names@[j]@ == name@);
        }
    }
    false
}

/// The plugins of `all` to sync: those named in `only` (all of them when
/// `only` is empty), less those named in `exclude`, in the order of `all`.
/// Names in `only` or `exclude` that match no plugin are ignored; a name in
/// both lists is excluded.
pub fn select(all: &Vec<PluginRef>, only: &Vec<String>, exclude: &Vec<String>) -> (r: Vec<PluginRef>)
    ensures
        r@ == selection(all@, name_views(only@), name_views(exclude@)),
{
    let mut r: Vec<PluginRef> = Vec::new();
    let mut i: usize = 0;
    while i < all.len()
        invariant
            i <= all@.len(),
            r@ == selection(all@.subrange(0, i as int), name_views(only@), name_views(exclude@)),
        decreases all@.len() - i,
    {
        let p = &all[i];
        let keep = (only.len() == 0 || contains_name(only, &p.name)) && !contains_name(exclude, &p.name);
        assert(all@.subrange(0, i + 1).drop_last() == all@.subrange(0, i as int));
        if keep {
            r.push(p.clone());
        }
        i = i + 1;
    }
    assert(all@.subrange(0, all@.len() as int) == all@);
    r
}

} // verus!
