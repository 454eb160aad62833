//! A data set: its access policies, the templates its data follows (by
//! name), and its assets, held by name in the order of the names (as a
//! `BTreeMap` holds them).
use vstd::prelude::*;
use crate::access::AccessPolicy;
use crate::concepts::ConceptRef;
use crate::dialect::{lemma_text_lt_irreflexive, lemma_text_lt_total, lemma_text_lt_transitive, string_lt, strictly_sorted, text_lt};
use crate::linked::{key_index, keys_unique_in, lemma_linked_insert, linked_insert, template_map_get, template_map_insert, template_map_items, template_map_new};
use crate::strings::{str_eq, string_of};
use linked_hash_map::LinkedHashMap;
use std::collections::hash_map::RandomState;

verus! {

/// A datum template, by its name and the concept that describes it.
pub struct TemplateRef {
    pub name: String,
    pub concept: ConceptRef,
}

/// A template by value.
pub type TemplateView = (Seq<char>, (u128, Seq<char>));

impl View for TemplateRef {
    type V = TemplateView;

    open spec fn view(&self) -> TemplateView {
        (self.name@, self.concept@)
    }
}

impl Clone for TemplateRef {
    fn clone(&self) -> (r: Self)
        ensures
            r@ == self@,
    {
        TemplateRef { name: self.name.clone(), concept: self.concept.clone() }
    }
}

/// A data set. Its assets are held by name, each name once, in increasing
/// order of the names.
pub struct DataSet {
    pub name: String,
    pub description: String,
    pub source_path: String,
    pub access_policies: Vec<AccessPolicy>,
    pub datum_templates: Vec<TemplateRef>,
    pub assets: Vec<(String, ConceptRef)>,
}

/// The names of the assets, in order.
pub open spec fn asset_names(s: Seq<(String, ConceptRef)>) -> Seq<Seq<char>> {
    s.map_values(|e: (String, ConceptRef)| e.0@)
}

/// The assets by name.
pub open spec fn assets_map(s: Seq<(String, ConceptRef)>) -> Map<Seq<char>, (u128, Seq<char>)> {
    Map::new(
        |k: Seq<char>| exists|i: int| 0 <= i < s.len() && s[i].0@ == k,
        |k: Seq<char>| s[choose|i: int| 0 <= i < s.len() && s[i].0@ == k].1@,
    )
}

/// The templates by value, in order.
pub open spec fn templates_view(s: Seq<TemplateRef>) -> Seq<TemplateView> {
    s.map_values(|t: TemplateRef| t@)
}

/// The templates by name, as a `LinkedHashMap` collects them: in order, a
/// later template of the same name replacing an earlier one and moving last.
pub open spec fn mapped_templates(s: Seq<TemplateRef>) -> Seq<(Seq<char>, TemplateView)>
    decreases s.len(),
{
    if s.len() == 0 {
        Seq::empty()
    } else {
        linked_insert(mapped_templates(s.drop_last()), s.last().name@, s.last()@)
    }
}

proof fn lemma_mapped_templates_unique(s: Seq<TemplateRef>)
    ensures
        keys_unique_in(mapped_templates(s)),
    decreases s.len(),
{
    if s.len() > 0 {
        lemma_mapped_templates_unique(s.drop_last());
        lemma_linked_insert(mapped_templates(s.drop_last()), s.last().name@, s.last()@, s.last().name@);
    }
}

/// The message of a missing asset.
pub open spec fn missing_asset(name: Seq<char>, dataset: Seq<char>) -> Seq<char> {
    "Could not find asset "@ + name + " in dataset "@ + dataset + "."@
}

/// The message of a missing template.
pub open spec fn missing_template(asset: Seq<char>, dataset: Seq<char>) -> Seq<char> {
    "Could not find template for asset "@ + asset + " in dataset "@ + dataset
}

/// The first name in `names` at or after `i` that has no asset, if any.
pub open spec fn first_missing(m: Map<Seq<char>, (u128, Seq<char>)>, names: Seq<Seq<char>>, i: int) -> Option<int>
    decreases names.len() - i,
{
    if i < 0 || i >= names.len() {
        None
    } else if !m.contains_key(names[i]) {
        Some(i)
    } else {
        first_missing(m, names, i + 1)
    }
}

proof fn lemma_sorted_map_index(s: Seq<(String, ConceptRef)>, i: int)
    requires
        strictly_sorted(asset_names(s)),
        0 <= i < s.len(),
    ensures
        assets_map(s).contains_key(s[i].0@),
        assets_map(s)[s[i].0@] == s[i].1@,
{
    assert(asset_names(s)[i] == s[i].0@);
    let c = choose|c: int| 0 <= c < s.len() && s[c].0@ == s[i].0@;
    if c != i {
        assert(asset_names(s)[c] == s[c].0@);
        if c < i {
            assert(text_lt(asset_names(s)[c], asset_names(s)[i]));
        } else {
            assert(text_lt(asset_names(s)[i], asset_names(s)[c]));
        }
        lemma_text_lt_irreflexive(s[i].0@);
    }
}

/// Puts `asset` under `name` in a vector of assets held in increasing order
/// of their names (replacing the asset of that name, if any).
fn put_asset(v: &mut Vec<(String, ConceptRef)>, name: String, asset: ConceptRef)
    requires
        strictly_sorted(asset_names(old(v)@)),
    ensures
        strictly_sorted(asset_names(final(v)@)),
        assets_map(final(v)@) == assets_map(old(v)@).insert(name@, asset@),
{
    let ghost s0 = v@;
    let ghost n0 = asset_names(s0);
    let mut p: usize = 0;
    while p < v.len() && string_lt(&v[p].0, &name)
        invariant
            p <= v@.len(),
            v@ == s0,
            n0 == asset_names(s0),
            strictly_sorted(n0),
            forall|j: int| 0 <= j < p ==> text_lt(#[trigger] n0[j], name@),
        decreases v@.len() - p,
    {
        p = p + 1;
    }
    proof {
        if p < v@.len() {
            assert(n0[p as int] == s0[p as int].0@);
            lemma_text_lt_total(n0[p as int], name@);
        }
    }
    if p < v.len() && str_eq(v[p].0.as_str(), name.as_str()) {
        v.set(p, (name, asset));
        proof {
            let s1 = v@;
            assert(asset_names(s1) =~= n0) by {
                assert forall|j: int| 0 <= j < s1.len() implies asset_names(s1)[j] == n0[j] by {
                    if j != p {
                        assert(s1[j] == s0[j]);
                    }
                }
            }
            assert(assets_map(s1) =~= assets_map(s0).insert(name@, asset@)) by {
                assert forall|k: Seq<char>| #[trigger] assets_map(s1).contains_key(k) <==> assets_map(s0).insert(name@, asset@).contains_key(k) by {
                    if exists|i: int| 0 <= i < s1.len() && s1[i].0@ == k {
                        let i = choose|i: int| 0 <= i < s1.len() && s1[i].0@ == k;
                        if i != p {
                            assert(s0[i] == s1[i]);
                        }
                    }
                    if exists|i: int| 0 <= i < s0.len() && s0[i].0@ == k {
                        let i = choose|i: int| 0 <= i < s0.len() && s0[i].0@ == k;
                        assert(s1[i].0@ == k);
                    }
                    assert(s1[p as int].0@ == name@);
                }
                assert forall|k: Seq<char>| #[trigger] assets_map(s1).contains_key(k) implies assets_map(s1)[k] == assets_map(s0).insert(name@, asset@)[k] by {
                    let i = choose|i: int| 0 <= i < s1.len() && s1[i].0@ == k;
                    lemma_sorted_map_index(s1, i);
                    if i != p {
                        assert(s0[i] == s1[i]);
                        lemma_sorted_map_index(s0, i);
                        assert(n0[i] == k);
                        assert(n0[p as int] == name@);
                        if i < p {
                            assert(text_lt(n0[i], n0[p as int]));
                        } else {
                            assert(text_lt(n0[p as int], n0[i]));
                        }
                        lemma_text_lt_irreflexive(k);
                        assert(k != name@);
                    }
                }
            }
        }
        return;
    }
    v.insert(p, (name, asset));
    proof {
        let s1 = v@;
        let n1 = asset_names(s1);
        assert(s1 == s0.insert(p as int, (name, asset)));
        assert(n1 =~= n0.insert(p as int, name@));
        assert forall|i: int, j: int| 0 <= i < j < n1.len() implies text_lt(n1[i], n1[j]) by {
            if i < p && j == p {
            } else if i < p && j > p {
                assert(n1[j] == n0[j - 1]);
                if j - 1 >= p {
                    assert(text_lt(n0[i], n0[j - 1]));
                }
            } else if i == p && j > p {
                assert(n1[j] == n0[j - 1]);
                if j - 1 > p {
                    lemma_text_lt_transitive(name@, n0[p as int], n0[j - 1]);
                }
            } else if i > p {
                assert(n1[i] == n0[i - 1] && n1[j] == n0[j - 1]);
            } else {
                assert(n1[i] == n0[i] && n1[j] == n0[j]);
            }
        }
        assert(!assets_map(s0).contains_key(name@)) by {
            if exists|i: int| 0 <= i < s0.len() && s0[i].0@ == name@ {
                let i = choose|i: int| 0 <= i < s0.len() && s0[i].0@ == name@;
                assert(n0[i] == name@);
                if i < p {
                    lemma_text_lt_irreflexive(name@);
                } else if i > p {
                    assert(text_lt(n0[p as int], n0[i]));
                    lemma_text_lt_total(n0[p as int], name@);
                } else {
                    lemma_text_lt_total(n0[p as int], name@);
                }
            }
        }
        assert(assets_map(s1) =~= assets_map(s0).insert(name@, asset@)) by {
            assert forall|k: Seq<char>| #[trigger] assets_map(s1).contains_key(k) <==> assets_map(s0).insert(name@, asset@).contains_key(k) by {
                if exists|i: int| 0 <= i < s1.len() && s1[i].0@ == k {
                    let i = choose|i: int| 0 <= i < s1.len() && s1[i].0@ == k;
                    if i < p {
                        assert(s0[i] == s1[i]);
                    } else if i > p {
                        assert(s0[i - 1] == s1[i]);
                    }
                }
                if exists|i: int| 0 <= i < s0.len() && s0[i].0@ == k {
                    let i = choose|i: int| 0 <= i < s0.len() && s0[i].0@ == k;
                    if i < p {
                        assert(s1[i] == s0[i]);
                    } else {
                        assert(s1[i + 1] == s0[i]);
                    }
                }
                assert(s1[p as int].0@ == name@);
            }
            assert forall|k: Seq<char>| #[trigger] assets_map(s1).contains_key(k) implies assets_map(s1)[k] == assets_map(s0).insert(name@, asset@)[k] by {
                let i = choose|i: int| 0 <= i < s1.len() && s1[i].0@ == k;
                lemma_sorted_map_index(s1, i);
                if i < p {
                    assert(s0[i] == s1[i]);
                    lemma_sorted_map_index(s0, i);
                } else if i > p {
                    assert(s0[i - 1] == s1[i]);
                    lemma_sorted_map_index(s0, i - 1);
                }
            }
        }
    }
}

/// Finds the asset named `name` in a vector of assets held in increasing
/// order of their names.
fn find_asset(v: &Vec<(String, ConceptRef)>, name: &String) -> (r: Option<usize>)
    requires
        strictly_sorted(asset_names(v@)),
    ensures
        match r {
            Some(i) => i < v@.len() && v@[i as int].0@ == name@ && assets_map(v@).contains_key(name@)
                && assets_map(v@)[name@] == v@[i as int].1@,
            None => !assets_map(v@).contains_key(name@),
        },
{
    let mut i: usize = 0;
    while i < v.len()
        invariant
            i <= v@.len(),
            strictly_sorted(asset_names(v@)),
            forall|j: int| 0 <= j < i ==> v@[j].0@ != name@,
        decreases v@.len() - i,
    {
        if str_eq(v[i].0.as_str(), name.as_str()) {
            proof {
                lemma_sorted_map_index(v@, i as int);
            }
            return Some(i);
        }
        i = i + 1;
    }
    None
}

impl DataSet {
    /// The assets are held in increasing order of their names.
    pub open spec fn wf(&self) -> bool {
        strictly_sorted(asset_names(self.assets@))
    }

    /// Puts an asset under a name (replacing the asset of that name).
    pub fn add_asset(&mut self, asset_name: String, asset: ConceptRef)
        requires
            old(self).wf(),
        ensures
            final(self).wf(),
            assets_map(final(self).assets@) == assets_map(old(self).assets@).insert(asset_name@, asset@),
            final(self).name == old(self).name,
            final(self).datum_templates == old(self).datum_templates,
    {
        put_asset(&mut self.assets, asset_name, asset);
    }

    /// The assets, in increasing order of their names.
    pub fn get_assets(&self) -> (r: Vec<ConceptRef>)
        ensures
            r@.len() == self.assets@.len(),
            forall|i: int| 0 <= i < r@.len() ==> (#[trigger] r@[i])@ == self.assets@[i].1@,
    {
        let mut r: Vec<ConceptRef> = Vec::new();
        let mut i: usize = 0;
        while i < self.assets.len()
            invariant
                i <= self.assets@.len(),
                r@.len() == i,
                forall|j: int| 0 <= j < i ==> (#[trigger] r@[j])@ == self.assets@[j].1@,
            decreases self.assets@.len() - i,
        {
            r.push(self.assets[i].1.clone());
            i = i + 1;
        }
        r
    }

    /// The datum templates, in order.
    pub fn get_templates(&self) -> (r: Vec<TemplateRef>)
        ensures
            templates_view(r@) == templates_view(self.datum_templates@),
    {
        let mut r: Vec<TemplateRef> = Vec::new();
        let mut i: usize = 0;
        while i < self.datum_templates.len()
            invariant
                i <= self.datum_templates@.len(),
                templates_view(r@) == templates_view(self.datum_templates@.take(i as int)),
            decreases self.datum_templates@.len() - i,
        {
            let ghost r0 = r@;
            r.push(self.datum_templates[i].clone());
            i = i + 1;
            proof {
                assert(templates_view(r@) =~= templates_view(r0).push(self.datum_templates@[i - 1]@));
                assert(templates_view(self.datum_templates@.take(i as int)) =~= templates_view(self.datum_templates@.take(i - 1)).push(self.datum_templates@[i - 1]@));
            }
        }
        proof {
            assert(self.datum_templates@.take(i as int) =~= self.datum_templates@);
        }
        r
    }

    /// The templates by name (see `mapped_templates`).
    pub fn get_mapped_datum_templates(&self) -> (r: LinkedHashMap<String, TemplateRef, RandomState>)
        ensures
            template_map_items(r) == mapped_templates(self.datum_templates@),
    {
        let mut m = template_map_new();
        let mut i: usize = 0;
        while i < self.datum_templates.len()
            invariant
                i <= self.datum_templates@.len(),
                template_map_items(m) == mapped_templates(self.datum_templates@.take(i as int)),
            decreases self.datum_templates@.len() - i,
        {
            let t = &self.datum_templates[i];
            proof {
                lemma_mapped_templates_unique(self.datum_templates@.take(i as int));
                let n = self.datum_templates@.take(i as int + 1);
                assert(n.drop_last() =~= self.datum_templates@.take(i as int));
                assert(n.last() == *t);
            }
            template_map_insert(&mut m, t.name.clone(), t.clone());
            i = i + 1;
        }
        proof {
            assert(self.datum_templates@.take(i as int) =~= self.datum_templates@);
        }
        m
    }

    /// The template named `template_name`, which the schema of the asset
    /// named `asset_name` follows: the last template of that name; an error
    /// when there is none.
    pub fn get_template_for_asset(&self, template_name: &String, asset_name: &String) -> (r: Result<TemplateRef, String>)
        ensures
            match key_index(mapped_templates(self.datum_templates@), template_name@) {
                Some(j) => r matches Ok(t) && t@ == mapped_templates(self.datum_templates@)[j].1,
                None => r matches Err(e) && e@ == missing_template(asset_name@, self.name@),
            },
    {
        let mapped = self.get_mapped_datum_templates();
        proof {
            lemma_mapped_templates_unique(self.datum_templates@);
        }
        match template_map_get(&mapped, template_name) {
            Some(t) => Ok(t.clone()),
            None => {
                let mut e = string_of("Could not find template for asset ");
                e.append(asset_name.as_str());
                e.append(" in dataset ");
                e.append(self.name.as_str());
                proof {
                    reveal_strlit("Could not find template for asset ");
                    reveal_strlit(" in dataset ");
                }
                Err(e)
            },
        }
    }

    /// The asset named `name`; an error when there is none.
    pub fn get_asset(&self, name: &String) -> (r: Result<ConceptRef, String>)
        requires
            self.wf(),
        ensures
            match r {
                Ok(a) => assets_map(self.assets@).contains_key(name@) && a@ == assets_map(self.assets@)[name@],
                Err(e) => !assets_map(self.assets@).contains_key(name@) && e@ == missing_asset(name@, self.name@),
            },
    {
        match find_asset(&self.assets, name) {
            Some(i) => Ok(self.assets[i].1.clone()),
            None => {
                let mut e = string_of("Could not find asset ");
                e.append(name.as_str());
                e.append(" in dataset ");
                e.append(self.name.as_str());
                e.append(".");
                proof {
                    reveal_strlit("Could not find asset ");
                    reveal_strlit(" in dataset ");
                    reveal_strlit(".");
                }
                Err(e)
            },
        }
    }

    /// The assets named by a setup (each name given once or more), by name
    /// in increasing order; the error of the first name without an asset.
    pub fn get_source_assets(&self, source_asset_names: &Vec<String>) -> (r: Result<Vec<(String, ConceptRef)>, String>)
        requires
            self.wf(),
        ensures
            match first_missing(assets_map(self.assets@), strs_of(source_asset_names@), 0) {
                Some(i) => r matches Err(e) && e@ == missing_asset(source_asset_names@[i]@, self.name@),
                None => r matches Ok(m) && strictly_sorted(asset_names(m@)) && assets_map(m@) == assets_map(self.assets@).restrict(
                    strs_of(source_asset_names@).to_set(),
                ),
            },
    {
        let ghost whole = assets_map(self.assets@);
        let ghost names = strs_of(source_asset_names@);
        let mut out: Vec<(String, ConceptRef)> = Vec::new();
        let mut i: usize = 0;
        proof {
            assert(asset_names(out@) =~= Seq::<Seq<char>>::empty());
            assert(assets_map(out@) =~= whole.restrict(names.take(0).to_set()));
        }
        while i < source_asset_names.len()
            invariant
                i <= source_asset_names@.len(),
                self.wf(),
                whole == assets_map(self.assets@),
                names == strs_of(source_asset_names@),
                first_missing(whole, names, 0) == first_missing(whole, names, i as int),
                strictly_sorted(asset_names(out@)),
                assets_map(out@) == whole.restrict(names.take(i as int).to_set()),
            decreases source_asset_names@.len() - i,
        {
            let n = &source_asset_names[i];
            proof {
                assert(names[i as int] == n@);
            }
            match self.get_asset(n) {
                Ok(a) => {
                    put_asset(&mut out, n.clone(), a);
                    proof {
                        assert(names.take(i as int + 1) =~= names.take(i as int).push(n@));
                        names.take(i as int).lemma_push_to_set_commute(n@);
                        assert(assets_map(out@) =~= whole.restrict(names.take(i as int + 1).to_set()));
                    }
                },
                Err(e) => {
                    return Err(e);
                },
            }
            i = i + 1;
        }
        proof {
            assert(names.take(i as int) =~= names);
        }
        Ok(out)
    }
}

/// The texts of a sequence of strings.
pub open spec fn strs_of(s: Seq<String>) -> Seq<Seq<char>> {
    s.map_values(|x: String| x@)
}

} // verus!
