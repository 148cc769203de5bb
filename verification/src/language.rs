//! Types and callables as the type resolution hands them over: plain data.

use crate::text::push_qualified;
use crate::text::qualified;
use crate::text::same_texts;
use crate::text::texts;
use bimap::BiHashMap;
use std::hash::RandomState;
use vstd::prelude::*;

verus! {

/// `bimap::BiHashMap`, opaque to the verifier.
#[verifier::external_type_specification]
#[verifier::external_body]
#[verifier::reject_recursive_types(L)]
#[verifier::reject_recursive_types(R)]
#[verifier::reject_recursive_types(LS)]
#[verifier::reject_recursive_types(RS)]
pub struct ExBiHashMap<L, R, LS, RS>(BiHashMap<L, R, LS, RS>);

/// The names under which generated code refers to packages, by package id.
pub type PackageNames = BiHashMap<String, String, RandomState, RandomState>;

/// What `names` holds, read from the left: the name of each package id.
pub uninterp spec fn names_by_id(names: PackageNames) -> Map<Seq<char>, Seq<char>>;

/// Calls `BiHashMap::get_by_left`: the right value that belongs to the left
/// value `id`, if `id` is in the map.
#[verifier::external_body]
pub(crate) fn package_name<'a>(names: &'a PackageNames, id: &String) -> (name: Option<&'a String>)
    ensures
        name is Some <==> names_by_id(*names).contains_key(id@),
        name matches Some(n) ==> n@ == names_by_id(*names)[id@],
{
    names.get_by_left(id)
}

/// A fully qualified reference to a type: the package that defines it and its
/// path in that package. Two references to the same type are equal, wherever
/// they were found.
#[derive(Clone, Debug, PartialEq, Eq, Hash)]
pub struct ResolvedType {
    pub package_id: String,
    pub base_type: Vec<String>,
}

/// A [`ResolvedType`] as the verifier sees it: the id of its package and the
/// segments of its path. Two references are to the same type where these are
/// equal.
pub struct TypeView {
    pub package_id: Seq<char>,
    pub base_type: Seq<Seq<char>>,
}

impl View for ResolvedType {
    type V = TypeView;

    open spec fn view(&self) -> TypeView {
        TypeView { package_id: self.package_id@, base_type: texts(self.base_type@) }
    }
}

/// The syntax of `type_` where packages go by `names`; `None` where `names`
/// has no name for the package of `type_`.
pub open spec fn rendered_type(type_: TypeView, names: Map<Seq<char>, Seq<char>>) -> Option<
    Seq<char>,
> {
    if names.contains_key(type_.package_id) {
        Some(qualified(names[type_.package_id], type_.base_type))
    } else {
        None
    }
}

impl ResolvedType {
    /// A type of the package `package_id`, at the path `base_type` in it.
    pub fn new(package_id: String, base_type: Vec<String>) -> (type_: ResolvedType)
        ensures
            type_.package_id == package_id,
            type_.base_type == base_type,
    {
        ResolvedType { package_id, base_type }
    }

    /// Another reference to the same type.
    pub fn duplicate(&self) -> (copy: ResolvedType)
        ensures
            copy@ == self@,
    {
        let mut base_type: Vec<String> = Vec::new();
        let mut i: usize = 0;
        while i < self.base_type.len()
            invariant
                i <= self.base_type.len(),
                texts(base_type@) == texts(self.base_type@).take(i as int),
            decreases self.base_type.len() - i,
        {
            let ghost earlier = texts(base_type@);
            base_type.push(self.base_type[i].clone());
            proof {
                assert(texts(base_type@) =~= earlier.push(self.base_type@[i as int]@));
                assert(texts(self.base_type@).take(i + 1) =~= texts(self.base_type@).take(
                    i as int,
                ).push(self.base_type@[i as int]@));
            }
            i = i + 1;
        }
        proof {
            assert(texts(self.base_type@).take(self.base_type.len() as int) =~= texts(
                self.base_type@,
            ));
        }
        ResolvedType { package_id: self.package_id.clone(), base_type }
    }

    /// Whether `self` and `other` refer to the same type.
    pub fn is_same_as(&self, other: &ResolvedType) -> (same: bool)
        ensures
            same == (self@ == other@),
    {
        self.package_id == other.package_id && same_texts(&self.base_type, &other.base_type)
    }

    /// Appends the syntax of this type to `out`, and says whether it could:
    /// where `names` does not know the package, `out` stays as it is.
    pub fn render_into(&self, out: &mut String, names: &PackageNames) -> (known: bool)
        ensures
            match rendered_type(self@, names_by_id(*names)) {
                Some(syntax) => known && final(out)@ == old(out)@ + syntax,
                None => !known && final(out)@ == old(out)@,
            },
    {
        match package_name(names, &self.package_id) {
            Some(name) => {
                push_qualified(out, name.as_str(), &self.base_type);
                true
            },
            None => false,
        }
    }

    /// The syntax of this type where packages go by `names`.
    pub fn render(&self, names: &PackageNames) -> (syntax: Option<String>)
        ensures
            syntax is Some <==> rendered_type(self@, names_by_id(*names)) is Some,
            syntax matches Some(s) ==> Some(s@) == rendered_type(self@, names_by_id(*names)),
    {
        let mut out = String::new();
        if self.render_into(&mut out, names) {
            assert(Seq::<char>::empty() + rendered_type(self@, names_by_id(*names))->0
                == rendered_type(self@, names_by_id(*names))->0);
            Some(out)
        } else {
            None
        }
    }
}

/// Whether the value that a callable returns can be an error.
#[derive(Clone, Debug, PartialEq, Eq, Hash)]
pub enum Fallibility {
    /// The callable returns its value as it is.
    Infallible,
    /// The callable returns a result: either a value of `ok` or an error of `err`.
    Fallible { ok: ResolvedType, err: ResolvedType },
}

/// A function or method that generated code can call: where it is, what it
/// takes, in order, and what it returns.
#[derive(Clone, Debug, PartialEq, Eq, Hash)]
pub struct Callable {
    pub package_id: String,
    pub path: Vec<String>,
    pub inputs: Vec<ResolvedType>,
    pub output: ResolvedType,
    pub fallibility: Fallibility,
    pub is_async: bool,
}

/// The path of `callable` where packages go by `names`; `None` where `names`
/// has no name for its package.
pub open spec fn rendered_callable_path(
    callable: Callable,
    names: Map<Seq<char>, Seq<char>>,
) -> Option<Seq<char>> {
    if names.contains_key(callable.package_id@) {
        Some(qualified(names[callable.package_id@], texts(callable.path@)))
    } else {
        None
    }
}

impl Callable {
    /// The types of the values that the callable takes, in the order of its
    /// signature.
    pub fn inputs(&self) -> (inputs: &Vec<ResolvedType>)
        ensures
            *inputs == self.inputs,
    {
        &self.inputs
    }

    /// The type of the value that the callable returns.
    pub fn output(&self) -> (output: &ResolvedType)
        ensures
            *output == self.output,
    {
        &self.output
    }

    /// Whether the callable returns a result.
    pub fn is_fallible(&self) -> (fallible: bool)
        ensures
            fallible == (self.fallibility is Fallible),
    {
        match &self.fallibility {
            Fallibility::Infallible => false,
            Fallibility::Fallible { .. } => true,
        }
    }

    /// Appends the path of this callable to `out`, and says whether it could:
    /// where `names` does not know the package, `out` stays as it is.
    pub fn render_path_into(&self, out: &mut String, names: &PackageNames) -> (known: bool)
        ensures
            match rendered_callable_path(*self, names_by_id(*names)) {
                Some(syntax) => known && final(out)@ == old(out)@ + syntax,
                None => !known && final(out)@ == old(out)@,
            },
    {
        match package_name(names, &self.package_id) {
            Some(name) => {
                push_qualified(out, name.as_str(), &self.path);
                true
            },
            None => false,
        }
    }
}

} // verus!
