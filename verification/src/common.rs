//! Plain-value models of the name and attribute data carried by tree nodes.

use vstd::prelude::*;

verus! {

/// A qualified markup name: an optional prefix, a namespace url and a
/// local name, all held as plain strings.
pub struct QualName {
    pub prefix: Option<String>,
    pub ns: String,
    pub local: String,
}

impl QualName {
    /// Name equality over the views of all three fields; this is the
    /// equality the attribute-merge policy goes by.
    pub open spec fn eqv(self, other: QualName) -> bool {
        &&& match (self.prefix, other.prefix) {
            (Some(a), Some(b)) => a@ == b@,
            (None, None) => true,
            _ => false,
        }
        &&& self.ns@ == other.ns@
        &&& self.local@ == other.local@
    }

    /// Decides `eqv` executably.
    pub fn eq_name(&self, other: &QualName) -> (r: bool)
        ensures
            r == self.eqv(*other),
    {
        let prefix_eq: bool = match (&self.prefix, &other.prefix) {
            (Some(a), Some(b)) => *a == *b,
            (None, None) => true,
            _ => false,
        };
        prefix_eq && self.ns == other.ns && self.local == other.local
    }
}

/// One element attribute: a qualified name and a text value.
pub struct Attribute {
    pub name: QualName,
    pub value: String,
}

/// An exact copy of a qualified name.
pub fn clone_qual_name(n: &QualName) -> (r: QualName)
    ensures
        r == *n,
{
    let prefix: Option<String> = match &n.prefix {
        Some(p) => Some(p.clone()),
        None => None,
    };
    QualName { prefix, ns: n.ns.clone(), local: n.local.clone() }
}

/// An exact copy of an attribute.
pub fn clone_attribute(a: &Attribute) -> (r: Attribute)
    ensures
        r == *a,
{
    Attribute { name: clone_qual_name(&a.name), value: a.value.clone() }
}

/// Whether `attrs` already carries an attribute of this name.
pub open spec fn has_attr_name(attrs: Seq<Attribute>, name: QualName) -> bool {
    exists|j: int| 0 <= j < attrs.len() && (#[trigger] attrs[j]).name.eqv(name)
}

/// The first-write-wins merge of candidate attributes into a base list:
/// each candidate in turn is appended only when no attribute of its name is
/// already present; existing attributes keep their order and are never
/// overwritten.
pub open spec fn merge_attrs(base: Seq<Attribute>, add: Seq<Attribute>) -> Seq<Attribute>
    decreases add.len(),
{
    if add.len() == 0 {
        base
    } else {
        let m = merge_attrs(base, add.drop_last());
        let a = add.last();
        if has_attr_name(m, a.name) {
            m
        } else {
            m.push(a)
        }
    }
}

/// Decides `has_attr_name` executably.
pub fn attrs_contain_name(attrs: &Vec<Attribute>, name: &QualName) -> (r: bool)
    ensures
        r == has_attr_name(attrs@, *name),
{
    let mut j: usize = 0;
    while j < attrs.len()
        invariant
            0 <= j <= attrs@.len(),
            forall|i: int| 0 <= i < j ==> !(#[trigger] attrs@[i]).name.eqv(*name),
        decreases attrs@.len() - j,
    {
        if attrs[j].name.eq_name(name) {
            return true;
        }
        j = j + 1;
    }
    false
}

/// Flags given with a create-element instruction.
pub struct ElementFlags {
    /// When set, a nested document is allocated for the element and
    /// recorded as its template contents.
    pub template: bool,
    /// Recorded on the element for foreign-content name queries.
    pub mathml_annotation_xml_integration_point: bool,
}

/// The quirks mode the external tree builder decides on while parsing.
#[derive(Clone, Copy, Debug, PartialEq, Eq, Structural)]
pub enum QuirksMode {
    Quirks,
    LimitedQuirks,
    NoQuirks,
}

} // verus!
