//! Names of layout nodes: author-named containers and reserved gadget leaves.
use vstd::prelude::*;
use crate::text::ParseError;

verus! {

/// The name of a layout node.
///
/// A `Container` is a structural node that the configuration author names and
/// that holds children; a `Gadget` is a leaf placeholder that the rendering
/// layer fills in.
#[derive(Clone, Debug)]
pub enum Identifier {
    Container(String),
    Gadget(String),
}

/// What an identifier stands for: whether it names a container, and its text.
pub type IdView = (bool, Seq<char>);

impl View for Identifier {
    type V = IdView;

    open spec fn view(&self) -> IdView {
        match self {
            Identifier::Container(s) => (true, s@),
            Identifier::Gadget(s) => (false, s@),
        }
    }
}

impl PartialEq for Identifier {
    fn eq(&self, other: &Identifier) -> (r: bool)
        ensures
            r == (self@ == other@),
    {
        match (self, other) {
            (Identifier::Container(a), Identifier::Container(b)) => *a == *b,
            (Identifier::Gadget(a), Identifier::Gadget(b)) => *a == *b,
            _ => false,
        }
    }
}

impl vstd::std_specs::cmp::PartialEqSpecImpl for Identifier {
    open spec fn obeys_eq_spec() -> bool {
        true
    }

    open spec fn eq_spec(&self, other: &Identifier) -> bool {
        self@ == other@
    }
}

impl Eq for Identifier {}

/// The Unicode `Uppercase` property of a character, as `char::is_uppercase` reports it.
pub uninterp spec fn uppercase(c: char) -> bool;

/// Relies on `char::is_uppercase`: whether `c` has the Unicode `Uppercase`
/// property, which depends on the character alone; ASCII capitals have it,
/// ASCII lower-case letters, digits and `_` do not.
#[verifier::external_body]
fn is_uppercase(c: char) -> (r: bool)
    ensures
        r == uppercase(c),
        'A' <= c <= 'Z' ==> r,
        ('a' <= c <= 'z') || ('0' <= c <= '9') || c == '_' ==> !r,
{
    c.is_uppercase()
}

/// The identifier that the textual encoding `s` stands for: a container when
/// its first character is upper-case, a gadget otherwise.
pub open spec fn identifier_of(s: Seq<char>) -> Option<IdView> {
    if s.len() == 0 {
        None
    } else {
        Some((uppercase(s[0]), s))
    }
}

/// The text `"{parent}->{gadget}"` that names one instance of a gadget.
pub open spec fn instance_name(parent: Seq<char>, gadget: Seq<char>) -> Seq<char> {
    parent + "->"@ + gadget
}

impl Identifier {
    pub open spec fn name(&self) -> Seq<char> {
        self@.1
    }

    pub fn is_container(&self) -> (r: bool)
        ensures
            r == self@.0,
    {
        match self {
            Identifier::Container(_) => true,
            Identifier::Gadget(_) => false,
        }
    }

    pub fn is_gadget(&self) -> (r: bool)
        ensures
            r == !self@.0,
    {
        !self.is_container()
    }

    /// The identifier's text.
    pub fn as_str(&self) -> (r: &str)
        ensures
            r@ == self@.1,
    {
        match self {
            Identifier::Container(s) => s.as_str(),
            Identifier::Gadget(s) => s.as_str(),
        }
    }

    /// A copy of this identifier.
    pub fn duplicate(&self) -> (r: Identifier)
        ensures
            r@ == self@,
    {
        match self {
            Identifier::Container(s) => Identifier::Container(s.clone()),
            Identifier::Gadget(s) => Identifier::Gadget(s.clone()),
        }
    }

    /// Reads the textual encoding: a non-empty name, which is a container's
    /// when its first character is upper-case and a gadget's otherwise.
    pub fn parse(src: String) -> (r: Result<Identifier, ParseError>)
        ensures
            r is Ok <==> identifier_of(src@) is Some,
            r is Ok ==> r->Ok_0@ == identifier_of(src@)->0,
            r is Err ==> r->Err_0 matches ParseError::Empty,
    {
        if src.as_str().unicode_len() == 0 {
            return Err(ParseError::Empty);
        }
        let first = src.as_str().get_char(0);
        if is_uppercase(first) {
            Ok(Identifier::Container(src))
        } else {
            Ok(Identifier::Gadget(src))
        }
    }

    /// The gadget identifier `"{parent}->{gadget}"` that names the instance of
    /// `gadget` placed under `parent`.
    pub fn gadget_instance(parent: &Identifier, gadget: &Identifier) -> (r: Identifier)
        ensures
            r@ == (false, instance_name(parent@.1, gadget@.1)),
    {
        let mut name = String::from_str(parent.as_str());
        name.append("->");
        name.append(gadget.as_str());
        Identifier::Gadget(name)
    }
}

} // verus!
