//! Dotted identifiers naming declarations in the namespace tree.

use vstd::prelude::*;
use vstd::string::StringExecFns;
use crate::render::{join_model, join_with};

verus! {

/// Mathematical model of an identifier: the dotted path and the final name,
/// both as character sequences.
#[verifier::ext_equal]
pub struct IdentModel {
    pub path: Seq<Seq<char>>,
    pub name: Seq<char>,
}

impl IdentModel {
    /// The whole dotted path, final name included.
    pub open spec fn full(self) -> Seq<Seq<char>> {
        self.path.push(self.name)
    }
}

/// A dotted identifier: a path of namespace segments and a final name.
#[derive(Debug, PartialEq)]
pub struct Ident {
    pub path: Vec<String>,
    pub name: String,
}

impl View for Ident {
    type V = IdentModel;

    open spec fn view(&self) -> IdentModel {
        IdentModel { path: self.path.deep_view(), name: self.name@ }
    }
}

impl DeepView for Ident {
    type V = IdentModel;

    open spec fn deep_view(&self) -> IdentModel {
        self@
    }
}

impl Clone for Ident {
    /// Cloning preserves the identifier's model exactly.
    fn clone(&self) -> (r: Ident)
        ensures
            r@ == self@,
    {
        let path = self.path.clone();
        proof {
            assert forall|i: int| 0 <= i < self.path@.len() implies path@[i] == self.path@[i] by {
                assert(vstd::pervasive::cloned::<String>(self.path@[i], path@[i]));
            }
            assert(path@ =~= self.path@);
            assert(path.deep_view() =~~= self.path.deep_view());
        }
        Ident { path, name: self.name.clone() }
    }
}

/// The identifier's text: its path segments and its name, joined by dots.
pub open spec fn ident_text(m: IdentModel) -> Seq<char> {
    join_model(m.path.push(m.name), "."@)
}

impl Ident {
    /// Render as the dotted path, name included.
    pub fn display(&self) -> (r: String)
        ensures
            r@ == ident_text(self@),
    {
        let mut parts: Vec<String> = Vec::new();
        let mut k: usize = 0;
        while k < self.path.len()
            invariant
                k <= self.path@.len(),
                parts@.len() == k,
                forall|i: int| 0 <= i < k ==> #[trigger] parts@[i]@ == self@.path[i],
            decreases self.path@.len() - k,
        {
            parts.push(self.path[k].clone());
            k += 1;
        }
        parts.push(self.name.clone());
        proof {
            assert forall|i: int| 0 <= i < parts@.len() implies #[trigger] parts.deep_view()[i]
                == self@.path.push(self@.name)[i] by {
                assert(parts.deep_view()[i] == parts@[i]@);
            }
            assert(parts.deep_view() =~= self@.path.push(self@.name));
        }
        join_with(&parts, ".")
    }

    /// An identifier with an empty path.
    pub fn from_name(name: String) -> (r: Ident)
        ensures
            r@.path.len() == 0,
            r@.name == name@,
    {
        Ident { path: Vec::new(), name }
    }
}

} // verus!
