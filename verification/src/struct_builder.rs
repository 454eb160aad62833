//! How the builder of a concept struct sorts its fields: the fields `tag`,
//! `uuid` and `constraints` are its own; each other field is constrainable
//! or not, and a constrainable one is a vector, an optional vector, an
//! option, a map or a bare value; a field may carry a string default.
//! `get_all_types` gives the concept types the fields refer to. The Rust
//! code that the derive macros emit from a builder is written by `quote!`
//! inside a procedural macro and has no place in this library.
use vstd::prelude::*;

verus! {

/// The type of a field, as far as the builder looks into it: a vector, an
/// option or a map of other types, a reference to a concept of another
/// type (`AoristRef<T>`), or any other type, by its path.
pub enum TypeTree {
    Vec(Box<TypeTree>),
    Option(Box<TypeTree>),
    Mapping(Box<TypeTree>, Box<TypeTree>),
    Ref(Box<TypeTree>),
    Path(String),
}

/// A type by value.
pub enum TypeView {
    Vec(Box<TypeView>),
    Option(Box<TypeView>),
    Mapping(Box<TypeView>, Box<TypeView>),
    Ref(Box<TypeView>),
    Path(Seq<char>),
}

/// The value of a type.
pub open spec fn type_view(t: TypeTree) -> TypeView
    decreases t,
{
    match t {
        TypeTree::Vec(u) => TypeView::Vec(Box::new(type_view(*u))),
        TypeTree::Option(u) => TypeView::Option(Box::new(type_view(*u))),
        TypeTree::Mapping(k, v) => TypeView::Mapping(Box::new(type_view(*k)), Box::new(type_view(*v))),
        TypeTree::Ref(u) => TypeView::Ref(Box::new(type_view(*u))),
        TypeTree::Path(p) => TypeView::Path(p@),
    }
}

/// A field of a concept struct: its name, whether it is marked
/// constrainable, the values of its `py_default` attributes in order (the
/// text of a string literal, `None` for any other literal), and its type.
pub struct FieldInfo {
    pub name: String,
    pub constrainable: bool,
    pub py_defaults: Vec<Option<String>>,
    pub ty: TypeTree,
}

/// The fields of a concept struct, sorted: constrainable fields by the
/// shape of their type (with the type inside a vector, option or map), the
/// string defaults by field name, and the fields that are not
/// constrainable.
pub struct StructBuilder {
    pub bare: Vec<(String, TypeTree)>,
    pub vecs: Vec<(String, TypeTree)>,
    pub options: Vec<(String, TypeTree)>,
    pub option_vecs: Vec<(String, TypeTree)>,
    pub maps: Vec<(String, TypeTree, TypeTree)>,
    pub fields_with_default: Vec<(String, String)>,
    pub unconstrainable: Vec<FieldInfo>,
}

/// A field that the builder sorts: any but `tag`, `uuid` and `constraints`.
pub open spec fn kept(f: FieldInfo) -> bool {
    !(f.name@ == "tag"@ || f.name@ == "uuid"@ || f.name@ == "constraints"@)
}

/// A field to sort as a constrainable field.
pub open spec fn sorted_constrainable(f: FieldInfo) -> bool {
    kept(f) && f.constrainable
}

/// Named types by name and value.
pub open spec fn named_types_view(s: Seq<(String, TypeTree)>) -> Seq<(Seq<char>, TypeTree)> {
    s.map_values(|e: (String, TypeTree)| (e.0@, e.1))
}

/// The bare constrainable fields, in order, with their types.
pub open spec fn bare_of(fs: Seq<FieldInfo>) -> Seq<(Seq<char>, TypeTree)>
    decreases fs.len(),
{
    if fs.len() == 0 {
        Seq::empty()
    } else {
        let r = bare_of(fs.drop_last());
        let f = fs.last();
        if sorted_constrainable(f) && (f.ty is Path || f.ty is Ref) {
            r.push((f.name@, f.ty))
        } else {
            r
        }
    }
}

/// The constrainable vector fields, in order, with their element types.
pub open spec fn vecs_of(fs: Seq<FieldInfo>) -> Seq<(Seq<char>, TypeTree)>
    decreases fs.len(),
{
    if fs.len() == 0 {
        Seq::empty()
    } else {
        let r = vecs_of(fs.drop_last());
        let f = fs.last();
        match f.ty {
            TypeTree::Vec(t) => if sorted_constrainable(f) { r.push((f.name@, *t)) } else { r },
            _ => r,
        }
    }
}

/// The constrainable optional fields that are not optional vectors, in
/// order, with the types inside.
pub open spec fn options_of(fs: Seq<FieldInfo>) -> Seq<(Seq<char>, TypeTree)>
    decreases fs.len(),
{
    if fs.len() == 0 {
        Seq::empty()
    } else {
        let r = options_of(fs.drop_last());
        let f = fs.last();
        match f.ty {
            TypeTree::Option(t) => if sorted_constrainable(f) && !(*t is Vec) { r.push((f.name@, *t)) } else { r },
            _ => r,
        }
    }
}

/// The constrainable optional vector fields, in order, with their element
/// types.
pub open spec fn option_vecs_of(fs: Seq<FieldInfo>) -> Seq<(Seq<char>, TypeTree)>
    decreases fs.len(),
{
    if fs.len() == 0 {
        Seq::empty()
    } else {
        let r = option_vecs_of(fs.drop_last());
        let f = fs.last();
        match f.ty {
            TypeTree::Option(t) => match *t {
                TypeTree::Vec(u) => if sorted_constrainable(f) { r.push((f.name@, *u)) } else { r },
                _ => r,
            },
            _ => r,
        }
    }
}

/// The constrainable map fields, in order, with their key and value types.
pub open spec fn maps_of(fs: Seq<FieldInfo>) -> Seq<(Seq<char>, TypeTree, TypeTree)>
    decreases fs.len(),
{
    if fs.len() == 0 {
        Seq::empty()
    } else {
        let r = maps_of(fs.drop_last());
        let f = fs.last();
        match f.ty {
            TypeTree::Mapping(k, v) => if sorted_constrainable(f) { r.push((f.name@, *k, *v)) } else { r },
            _ => r,
        }
    }
}

/// The sorted fields with a string default, in order, with the default.
pub open spec fn defaults_of(fs: Seq<FieldInfo>) -> Seq<(Seq<char>, Seq<char>)>
    decreases fs.len(),
{
    if fs.len() == 0 {
        Seq::empty()
    } else {
        let r = defaults_of(fs.drop_last());
        let f = fs.last();
        if kept(f) && f.py_defaults@.len() == 1 && f.py_defaults@[0] is Some {
            r.push((f.name@, f.py_defaults@[0]->0@))
        } else {
            r
        }
    }
}

/// The sorted fields that are not constrainable, in order.
pub open spec fn unconstrainable_of(fs: Seq<FieldInfo>) -> Seq<FieldInfo>
    decreases fs.len(),
{
    if fs.len() == 0 {
        Seq::empty()
    } else {
        let r = unconstrainable_of(fs.drop_last());
        let f = fs.last();
        if kept(f) && !f.constrainable {
            r.push(f)
        } else {
            r
        }
    }
}

/// Every sorted field has at most one default, and it is a string.
pub open spec fn defaults_well_formed(fs: Seq<FieldInfo>) -> bool {
    forall|i: int| 0 <= i < fs.len() && kept(#[trigger] fs[i]) ==> fs[i].py_defaults@.len() <= 1
        && forall|k: int| 0 <= k < fs[i].py_defaults@.len() ==> (#[trigger] fs[i].py_defaults@[k]) is Some
}

/// `r` sorts the fields `fs` (see `bare_of` and the others).
pub open spec fn sorts(r: StructBuilder, fs: Seq<FieldInfo>) -> bool {
    &&& named_types_view(r.bare@) == bare_of(fs)
    &&& named_types_view(r.vecs@) == vecs_of(fs)
    &&& named_types_view(r.options@) == options_of(fs)
    &&& named_types_view(r.option_vecs@) == option_vecs_of(fs)
    &&& r.maps@.map_values(|e: (String, TypeTree, TypeTree)| (e.0@, e.1, e.2)) == maps_of(fs)
    &&& r.fields_with_default@.map_values(|e: (String, String)| (e.0@, e.1@)) == defaults_of(fs)
    &&& r.unconstrainable@ == unconstrainable_of(fs)
}

fn is_own_field(name: &String) -> (r: bool)
    ensures
        r == (name@ == "tag"@ || name@ == "uuid"@ || name@ == "constraints"@),
{
    crate::strings::str_eq(name.as_str(), "tag") || crate::strings::str_eq(name.as_str(), "uuid")
        || crate::strings::str_eq(name.as_str(), "constraints")
}

impl StructBuilder {
    /// Sorts the fields of a concept struct (see `sorts`). A sorted field
    /// with a default that is not a string, or with two defaults, is a
    /// fatal error; those inputs are excluded.
    pub fn new(fields: Vec<FieldInfo>) -> (r: StructBuilder)
        requires
            defaults_well_formed(fields@),
        ensures
            sorts(r, fields@),
    {
        let ghost f0 = fields@;
        let mut r = StructBuilder {
            bare: Vec::new(),
            vecs: Vec::new(),
            options: Vec::new(),
            option_vecs: Vec::new(),
            maps: Vec::new(),
            fields_with_default: Vec::new(),
            unconstrainable: Vec::new(),
        };
        proof {
            assert(f0.take(0) =~= Seq::<FieldInfo>::empty());
            assert(named_types_view(r.bare@) =~= Seq::<(Seq<char>, TypeTree)>::empty());
            assert(named_types_view(r.vecs@) =~= Seq::<(Seq<char>, TypeTree)>::empty());
            assert(named_types_view(r.options@) =~= Seq::<(Seq<char>, TypeTree)>::empty());
            assert(named_types_view(r.option_vecs@) =~= Seq::<(Seq<char>, TypeTree)>::empty());
            assert(r.maps@.map_values(|e: (String, TypeTree, TypeTree)| (e.0@, e.1, e.2)) =~= Seq::<(Seq<char>, TypeTree, TypeTree)>::empty());
            assert(r.fields_with_default@.map_values(|e: (String, String)| (e.0@, e.1@)) =~= Seq::<(Seq<char>, Seq<char>)>::empty());
            assert(r.unconstrainable@ =~= Seq::<FieldInfo>::empty());
        }
        let mut src = fields;
        let ghost mut i: int = 0;
        while src.len() > 0
            invariant
                0 <= i <= f0.len(),
                src@ == f0.skip(i),
                defaults_well_formed(f0),
                sorts(r, f0.take(i)),
            decreases src@.len(),
        {
            let f = src.remove(0);
            let ghost r0 = r;
            proof {
                assert(f == f0[i]);
                assert(f0.take(i + 1).drop_last() =~= f0.take(i));
                assert(f0.take(i + 1).last() == f0[i]);
            }
            if !is_own_field(&f.name) {
                proof {
                    assert(kept(f));
                }
                if f.py_defaults.len() == 1 {
                    match &f.py_defaults[0] {
                        Some(v) => {
                            r.fields_with_default.push((f.name.clone(), v.clone()));
                        },
                        None => {},
                    }
                }
                proof {
                    assert(r.fields_with_default@.map_values(|e: (String, String)| (e.0@, e.1@))
                        =~= defaults_of(f0.take(i + 1)));
                }
                if f.constrainable {
                    let FieldInfo { name, constrainable, py_defaults, ty } = f;
                    match ty {
                        TypeTree::Vec(t) => {
                            r.vecs.push((name, *t));
                        },
                        TypeTree::Option(t) => {
                            match *t {
                                TypeTree::Vec(u) => {
                                    r.option_vecs.push((name, *u));
                                },
                                other => {
                                    r.options.push((name, other));
                                },
                            }
                        },
                        TypeTree::Mapping(k, v) => {
                            r.maps.push((name, *k, *v));
                        },
                        TypeTree::Ref(t) => {
                            r.bare.push((name, TypeTree::Ref(t)));
                        },
                        TypeTree::Path(p) => {
                            r.bare.push((name, TypeTree::Path(p)));
                        },
                    }
                } else {
                    r.unconstrainable.push(f);
                }
            } else {
                proof {
                    assert(!kept(f));
                }
            }
            proof {
                assert(named_types_view(r.bare@) =~= bare_of(f0.take(i + 1)));
                assert(named_types_view(r.vecs@) =~= vecs_of(f0.take(i + 1)));
                assert(named_types_view(r.options@) =~= options_of(f0.take(i + 1)));
                assert(named_types_view(r.option_vecs@) =~= option_vecs_of(f0.take(i + 1)));
                assert(r.maps@.map_values(|e: (String, TypeTree, TypeTree)| (e.0@, e.1, e.2)) =~= maps_of(f0.take(i + 1)));
                assert(r.fields_with_default@.map_values(|e: (String, String)| (e.0@, e.1@)) =~= defaults_of(f0.take(i + 1)));
                assert(r.unconstrainable@ =~= unconstrainable_of(f0.take(i + 1)));
                i = i + 1;
                assert(src@ =~= f0.skip(i));
            }
        }
        proof {
            assert(f0.take(i) =~= f0);
        }
        r
    }
}

/// Whether two types are the same.
pub fn type_eq(a: &TypeTree, b: &TypeTree) -> (r: bool)
    ensures
        r == (type_view(*a) == type_view(*b)),
    decreases a,
{
    match (a, b) {
        (TypeTree::Vec(x), TypeTree::Vec(y)) => type_eq(x, y),
        (TypeTree::Option(x), TypeTree::Option(y)) => type_eq(x, y),
        (TypeTree::Mapping(k1, v1), TypeTree::Mapping(k2, v2)) => type_eq(k1, k2) && type_eq(v1, v2),
        (TypeTree::Ref(x), TypeTree::Ref(y)) => type_eq(x, y),
        (TypeTree::Path(x), TypeTree::Path(y)) => crate::strings::str_eq(x.as_str(), y.as_str()),
        _ => false,
    }
}

/// A copy of a type.
pub fn copy_type(t: &TypeTree) -> (r: TypeTree)
    ensures
        type_view(r) == type_view(*t),
    decreases t,
{
    match t {
        TypeTree::Vec(x) => TypeTree::Vec(Box::new(copy_type(x))),
        TypeTree::Option(x) => TypeTree::Option(Box::new(copy_type(x))),
        TypeTree::Mapping(k, v) => TypeTree::Mapping(Box::new(copy_type(k)), Box::new(copy_type(v))),
        TypeTree::Ref(x) => TypeTree::Ref(Box::new(copy_type(x))),
        TypeTree::Path(x) => TypeTree::Path(x.clone()),
    }
}

/// The values of a sequence of types.
pub open spec fn types_view(s: Seq<TypeTree>) -> Seq<TypeView> {
    s.map_values(|t: TypeTree| type_view(t))
}

/// The types of the constrainable fields: bare, vectors, options, optional
/// vectors, then map values, each group in the order of its fields.
pub open spec fn field_types(b: StructBuilder) -> Seq<TypeTree> {
    b.bare@.map_values(|e: (String, TypeTree)| e.1) + b.vecs@.map_values(|e: (String, TypeTree)| e.1)
        + b.options@.map_values(|e: (String, TypeTree)| e.1)
        + b.option_vecs@.map_values(|e: (String, TypeTree)| e.1)
        + b.maps@.map_values(|e: (String, TypeTree, TypeTree)| e.2)
}

/// The concept type that a reference points to.
pub open spec fn referenced(t: TypeView) -> TypeView {
    match t {
        TypeView::Ref(u) => *u,
        _ => t,
    }
}

/// The elements of `s`, each once, in order of first appearance.
pub open spec fn first_occurrences(s: Seq<TypeView>) -> Seq<TypeView>
    decreases s.len(),
{
    if s.len() == 0 {
        Seq::empty()
    } else {
        let r = first_occurrences(s.drop_last());
        if r.contains(s.last()) {
            r
        } else {
            r.push(s.last())
        }
    }
}

fn contains_type(v: &Vec<TypeTree>, t: &TypeTree) -> (r: bool)
    ensures
        r == types_view(v@).contains(type_view(*t)),
{
    let mut i: usize = 0;
    while i < v.len()
        invariant
            i <= v@.len(),
            forall|j: int| 0 <= j < i ==> type_view(v@[j]) != type_view(*t),
        decreases v@.len() - i,
    {
        if type_eq(&v[i], t) {
            proof {
                assert(types_view(v@)[i as int] == type_view(*t));
            }
            return true;
        }
        i = i + 1;
    }
    proof {
        if types_view(v@).contains(type_view(*t)) {
            let j = choose|j: int| 0 <= j < types_view(v@).len() && types_view(v@)[j] == type_view(*t);
            assert(type_view(v@[j]) == type_view(*t));
        }
    }
    false
}

impl StructBuilder {
    /// The concept types that the constrainable fields refer to (see
    /// `field_types`), each once, in order of first appearance. A field
    /// type that is not a reference to a concept is a fatal error; those
    /// inputs are excluded.
    pub fn get_all_types(&self) -> (r: Vec<TypeTree>)
        requires
            forall|i: int| 0 <= i < field_types(*self).len() ==> (#[trigger] field_types(*self)[i]) is Ref,
        ensures
            types_view(r@) == first_occurrences(types_view(field_types(*self)).map_values(|t: TypeView| referenced(t))),
    {
        let ghost all = types_view(field_types(*self)).map_values(|t: TypeView| referenced(t));
        let mut types: Vec<&TypeTree> = Vec::new();
        let mut i: usize = 0;
        while i < self.bare.len()
            invariant
                i <= self.bare@.len(),
                types@.len() == i,
                forall|j: int| 0 <= j < i ==> *types@[j] == #[trigger] self.bare@[j].1,
            decreases self.bare@.len() - i,
        {
            types.push(&self.bare[i].1);
            i = i + 1;
        }
        i = 0;
        while i < self.vecs.len()
            invariant
                i <= self.vecs@.len(),
                types@.len() == self.bare@.len() + i,
                forall|j: int| 0 <= j < self.bare@.len() ==> *types@[j] == #[trigger] self.bare@[j].1,
                forall|j: int| 0 <= j < i ==> *types@[self.bare@.len() + j] == #[trigger] self.vecs@[j].1,
            decreases self.vecs@.len() - i,
        {
            types.push(&self.vecs[i].1);
            i = i + 1;
        }
        let ghost n2 = self.bare@.len() + self.vecs@.len();
        i = 0;
        while i < self.options.len()
            invariant
                i <= self.options@.len(),
                n2 == self.bare@.len() + self.vecs@.len(),
                types@.len() == n2 + i,
                forall|j: int| 0 <= j < self.bare@.len() ==> *types@[j] == #[trigger] self.bare@[j].1,
                forall|j: int| 0 <= j < self.vecs@.len() ==> *types@[self.bare@.len() + j] == #[trigger] self.vecs@[j].1,
                forall|j: int| 0 <= j < i ==> *types@[n2 + j] == #[trigger] self.options@[j].1,
            decreases self.options@.len() - i,
        {
            types.push(&self.options[i].1);
            i = i + 1;
        }
        let ghost n3 = n2 + self.options@.len();
        i = 0;
        while i < self.option_vecs.len()
            invariant
                i <= self.option_vecs@.len(),
                n2 == self.bare@.len() + self.vecs@.len(),
                n3 == n2 + self.options@.len(),
                types@.len() == n3 + i,
                forall|j: int| 0 <= j < self.bare@.len() ==> *types@[j] == #[trigger] self.bare@[j].1,
                forall|j: int| 0 <= j < self.vecs@.len() ==> *types@[self.bare@.len() + j] == #[trigger] self.vecs@[j].1,
                forall|j: int| 0 <= j < self.options@.len() ==> *types@[n2 + j] == #[trigger] self.options@[j].1,
                forall|j: int| 0 <= j < i ==> *types@[n3 + j] == #[trigger] self.option_vecs@[j].1,
            decreases self.option_vecs@.len() - i,
        {
            types.push(&self.option_vecs[i].1);
            i = i + 1;
        }
        let ghost n4 = n3 + self.option_vecs@.len();
        i = 0;
        while i < self.maps.len()
            invariant
                i <= self.maps@.len(),
                n2 == self.bare@.len() + self.vecs@.len(),
                n3 == n2 + self.options@.len(),
                n4 == n3 + self.option_vecs@.len(),
                types@.len() == n4 + i,
                forall|j: int| 0 <= j < self.bare@.len() ==> *types@[j] == #[trigger] self.bare@[j].1,
                forall|j: int| 0 <= j < self.vecs@.len() ==> *types@[self.bare@.len() + j] == #[trigger] self.vecs@[j].1,
                forall|j: int| 0 <= j < self.options@.len() ==> *types@[n2 + j] == #[trigger] self.options@[j].1,
                forall|j: int| 0 <= j < self.option_vecs@.len() ==> *types@[n3 + j] == #[trigger] self.option_vecs@[j].1,
                forall|j: int| 0 <= j < i ==> *types@[n4 + j] == #[trigger] self.maps@[j].2,
            decreases self.maps@.len() - i,
        {
            types.push(&self.maps[i].2);
            i = i + 1;
        }
        let ghost ft = field_types(*self);
        proof {
            assert forall|j: int| 0 <= j < ft.len() implies *types@[j] == #[trigger] ft[j] by {
                if j < self.bare@.len() {
                } else if j < n2 {
                    assert(*types@[self.bare@.len() + (j - self.bare@.len())] == self.vecs@[j - self.bare@.len()].1);
                } else if j < n3 {
                    assert(*types@[n2 + (j - n2)] == self.options@[j - n2].1);
                } else if j < n4 {
                    assert(*types@[n3 + (j - n3)] == self.option_vecs@[j - n3].1);
                } else {
                    assert(*types@[n4 + (j - n4)] == self.maps@[j - n4].2);
                }
            }
        }
        let mut out: Vec<TypeTree> = Vec::new();
        let mut k: usize = 0;
        while k < types.len()
            invariant
                k <= types@.len(),
                types@.len() == ft.len(),
                forall|j: int| 0 <= j < ft.len() ==> *types@[j] == #[trigger] ft[j],
                forall|j: int| 0 <= j < ft.len() ==> (#[trigger] ft[j]) is Ref,
                all == types_view(ft).map_values(|t: TypeView| referenced(t)),
                types_view(out@) == first_occurrences(all.take(k as int)),
            decreases types@.len() - k,
        {
            let t = types[k];
            proof {
                assert(*t == ft[k as int]);
                assert(ft[k as int] is Ref);
            }
            let inner: &TypeTree = match t {
                TypeTree::Ref(u) => u,
                _ => t,
            };
            proof {
                assert(type_view(*inner) == all[k as int]);
                assert(all.take(k + 1).drop_last() =~= all.take(k as int));
                assert(all.take(k + 1).last() == all[k as int]);
            }
            if !contains_type(&out, inner) {
                let c = copy_type(inner);
                out.push(c);
                proof {
                    assert(types_view(out@) =~= first_occurrences(all.take(k as int)).push(all[k as int]));
                }
            }
            k = k + 1;
        }
        proof {
            assert(all.take(k as int) =~= all);
        }
        out
    }
}

} // verus!
