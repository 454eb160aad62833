//! The traits that a concept type derives: the `derive` and `derivative`
//! arguments of its attribute, added to the ones every concept type gets,
//! and the extra derives of its builder.
use vstd::prelude::*;
use crate::access::strs_view;
use crate::strings::{str_eq, string_of};

verus! {

/// An argument of a concept attribute: a list `path(item, ...)`, or
/// anything else.
pub enum MetaArg {
    List { path: String, items: Vec<String> },
    Other,
}

/// The kind of type a concept is.
pub enum ConceptShape {
    Struct,
    Enum,
}

/// The items of the last list argument with the given path; none when there
/// is no such argument.
pub open spec fn last_items(attrs: Seq<MetaArg>, path: Seq<char>) -> Seq<Seq<char>>
    decreases attrs.len(),
{
    if attrs.len() == 0 {
        Seq::empty()
    } else {
        match attrs.last() {
            MetaArg::List { path: p, items } => if p@ == path {
                strs_view(items@)
            } else {
                last_items(attrs.drop_last(), path)
            },
            MetaArg::Other => last_items(attrs.drop_last(), path),
        }
    }
}

/// Every argument is a `derive` or a `derivative` list.
pub open spec fn derive_args_only(attrs: Seq<MetaArg>) -> bool {
    forall|i: int| 0 <= i < attrs.len() ==> match #[trigger] attrs[i] {
        MetaArg::List { path, .. } => path@ == "derive"@ || path@ == "derivative"@,
        MetaArg::Other => false,
    }
}

fn clone_items(v: &Vec<String>) -> (r: Vec<String>)
    ensures
        strs_view(r@) == strs_view(v@),
{
    let mut r: Vec<String> = Vec::new();
    push_all(&mut r, v);
    assert(strs_view(r@) =~= strs_view(v@));
    r
}

fn push_all(out: &mut Vec<String>, v: &Vec<String>)
    ensures
        strs_view(final(out)@) == strs_view(old(out)@) + strs_view(v@),
{
    let ghost o = strs_view(out@);
    let mut i: usize = 0;
    while i < v.len()
        invariant
            i <= v@.len(),
            strs_view(out@) == o + strs_view(v@).take(i as int),
        decreases v@.len() - i,
    {
        let ghost before = out@;
        let c = v[i].clone();
        out.push(c);
        proof {
            assert(out@ == before.push(c));
            assert(strs_view(out@) =~= strs_view(before).push(c@));
            assert(strs_view(v@).take(i as int + 1) =~= strs_view(v@).take(i as int).push(v@[i as int]@));
        }
        i = i + 1;
    }
    assert(strs_view(v@).take(i as int) =~= strs_view(v@));
}

/// The `derive` and the `derivative` items of the arguments, in that order:
/// each from the last argument with its path (an earlier one is replaced).
/// An argument that is not a `derive` or `derivative` list is a fatal
/// error; those inputs are excluded.
pub fn get_derives(attrs: &Vec<MetaArg>) -> (r: (Vec<String>, Vec<String>))
    requires
        derive_args_only(attrs@),
    ensures
        strs_view(r.0@) == last_items(attrs@, "derive"@),
        strs_view(r.1@) == last_items(attrs@, "derivative"@),
{
    let mut derives: Vec<String> = Vec::new();
    let mut derivatives: Vec<String> = Vec::new();
    let mut i: usize = 0;
    proof {
        assert(strs_view(derives@) =~= Seq::<Seq<char>>::empty());
        assert(attrs@.take(0) =~= Seq::<MetaArg>::empty());
    }
    proof {
        reveal_strlit("derive");
        reveal_strlit("derivative");
        assert("derive"@.len() != "derivative"@.len());
    }
    while i < attrs.len()
        invariant
            i <= attrs@.len(),
            derive_args_only(attrs@),
            "derive"@ != "derivative"@,
            strs_view(derives@) == last_items(attrs@.take(i as int), "derive"@),
            strs_view(derivatives@) == last_items(attrs@.take(i as int), "derivative"@),
        decreases attrs@.len() - i,
    {
        proof {
            assert(attrs@.take(i as int + 1).drop_last() =~= attrs@.take(i as int));
            assert(attrs@.take(i as int + 1).last() == attrs@[i as int]);
        }
        match &attrs[i] {
            MetaArg::List { path, items } => {
                if str_eq(path.as_str(), "derivative") {
                    derivatives = clone_items(items);
                } else if str_eq(path.as_str(), "derive") {
                    derives = clone_items(items);
                }
            },
            MetaArg::Other => {},
        }
        i = i + 1;
    }
    proof {
        assert(attrs@.take(i as int) =~= attrs@);
    }
    (derives, derivatives)
}

/// What every concept type derives, before its own derives: for a struct,
/// `Derivative`, `Serialize`, `Deserialize`, `Clone` and (unless `abi`)
/// `Hash`; for an enum, `Debug`, `PartialEq`, `Serialize`, `Deserialize`,
/// `Clone` and (unless `abi`) `Hash` and `Eq`.
pub open spec fn base_derives(shape: ConceptShape, abi: bool) -> Seq<Seq<char>> {
    match shape {
        ConceptShape::Struct => if abi {
            seq!["Derivative"@, "Serialize"@, "Deserialize"@, "Clone"@]
        } else {
            seq!["Derivative"@, "Serialize"@, "Deserialize"@, "Clone"@, "Hash"@]
        },
        ConceptShape::Enum => if abi {
            seq!["Debug"@, "PartialEq"@, "Serialize"@, "Deserialize"@, "Clone"@]
        } else {
            seq!["Debug"@, "PartialEq"@, "Serialize"@, "Deserialize"@, "Clone"@, "Hash"@, "Eq"@]
        },
    }
}

fn base_derive_list(shape: &ConceptShape, abi: bool) -> (r: Vec<String>)
    ensures
        strs_view(r@) == base_derives(*shape, abi),
{
    let mut r: Vec<String> = Vec::new();
    match shape {
        ConceptShape::Struct => {
            r.push(string_of("Derivative"));
            r.push(string_of("Serialize"));
            r.push(string_of("Deserialize"));
            r.push(string_of("Clone"));
            if !abi {
                r.push(string_of("Hash"));
            }
        },
        ConceptShape::Enum => {
            r.push(string_of("Debug"));
            r.push(string_of("PartialEq"));
            r.push(string_of("Serialize"));
            r.push(string_of("Deserialize"));
            r.push(string_of("Clone"));
            if !abi {
                r.push(string_of("Hash"));
                r.push(string_of("Eq"));
            }
        },
    }
    assert(strs_view(r@) =~= base_derives(*shape, abi));
    r
}

/// The `derive` and `derivative` lists of a concept type generated with
/// the attribute arguments `attrs` and the builder's `extra` derives, by the
/// plain generator (`abi` false) or the one with a stable layout (`abi`
/// true). A struct derives the base derives (see `base_derives`), then the
/// arguments' derives, then `extra`; its derivative list is `PartialEq`,
/// `Debug`, `Eq`, then the arguments' derivatives. An enum derives the base
/// derives, the arguments' derives, `extra`, then the arguments'
/// derivatives, and has no derivative list. An argument that is not a
/// `derive` or `derivative` list is a fatal error; those inputs are
/// excluded.
pub fn concept_derives(attrs: &Vec<MetaArg>, extra: &Vec<String>, shape: &ConceptShape, abi: bool) -> (r: (Vec<String>, Vec<String>))
    requires
        derive_args_only(attrs@),
    ensures
        strs_view(r.0@) == match *shape {
            ConceptShape::Struct => base_derives(*shape, abi) + last_items(attrs@, "derive"@) + strs_view(extra@),
            ConceptShape::Enum => base_derives(*shape, abi) + last_items(attrs@, "derive"@) + strs_view(extra@)
                + last_items(attrs@, "derivative"@),
        },
        strs_view(r.1@) == match *shape {
            ConceptShape::Struct => seq!["PartialEq"@, "Debug"@, "Eq"@] + last_items(attrs@, "derivative"@),
            ConceptShape::Enum => Seq::<Seq<char>>::empty(),
        },
{
    let (derives, derivatives) = get_derives(attrs);
    let mut d = base_derive_list(shape, abi);
    push_all(&mut d, &derives);
    push_all(&mut d, extra);
    match shape {
        ConceptShape::Struct => {
            let mut v: Vec<String> = Vec::new();
            v.push(string_of("PartialEq"));
            v.push(string_of("Debug"));
            v.push(string_of("Eq"));
            push_all(&mut v, &derivatives);
            assert(strs_view(v@) =~= seq!["PartialEq"@, "Debug"@, "Eq"@] + last_items(attrs@, "derivative"@));
            (d, v)
        },
        ConceptShape::Enum => {
            push_all(&mut d, &derivatives);
            let v: Vec<String> = Vec::new();
            assert(strs_view(v@) =~= Seq::<Seq<char>>::empty());
            (d, v)
        },
    }
}

} // verus!
