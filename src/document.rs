//! A tree of markup elements, as the descriptor and configuration documents hold them.

use crate::text::str_eq;
use vstd::prelude::*;

verus! {

/// One `key="value"` pair of an element.
#[derive(Debug, Clone)]
pub struct Attribute {
    pub key: String,
    pub value: String,
}

/// A markup element: its tag name, its attributes in document order and its child
/// elements in document order.
#[derive(Debug)]
pub struct XmlElement {
    pub name: String,
    pub attrs: Vec<Attribute>,
    pub children: Vec<XmlElement>,
}

/// The first index at or after `i` whose item satisfies `p`, or `s.len()` when none does.
pub open spec fn first_index<A>(s: Seq<A>, p: spec_fn(A) -> bool, i: int) -> int
    decreases s.len() - i,
{
    if i >= s.len() {
        s.len() as int
    } else if p(s[i]) {
        i
    } else {
        first_index(s, p, i + 1)
    }
}

pub proof fn lemma_first_index<A>(s: Seq<A>, p: spec_fn(A) -> bool, i: int)
    requires
        0 <= i <= s.len(),
    ensures
        i <= first_index(s, p, i) <= s.len(),
        first_index(s, p, i) < s.len() ==> p(s[first_index(s, p, i)]),
        forall|j: int| i <= j < first_index(s, p, i) ==> !p(#[trigger] s[j]),
    decreases s.len() - i,
{
    if i < s.len() && !p(s[i]) {
        lemma_first_index(s, p, i + 1);
    }
}

/// The item of `s` found by `first_index` from the start, if any.
pub open spec fn first_where<A>(s: Seq<A>, p: spec_fn(A) -> bool) -> Option<A> {
    let k = first_index(s, p, 0);
    if k < s.len() {
        Some(s[k])
    } else {
        None
    }
}

/// Holds of an attribute named `key`.
pub open spec fn key_is(key: Seq<char>) -> spec_fn(Attribute) -> bool {
    |a: Attribute| a.key@ == key
}

/// Holds of an element with tag `name`.
pub open spec fn tag_is(name: Seq<char>) -> spec_fn(XmlElement) -> bool {
    |c: XmlElement| c.name@ == name
}

/// Holds of an element whose `id` attribute is `id`.
pub open spec fn id_is(id: Seq<char>) -> spec_fn(XmlElement) -> bool {
    |c: XmlElement| attr_spec(c, "id"@) == Some(id)
}

/// The value of the first attribute of `e` named `key`.
pub open spec fn attr_spec(e: XmlElement, key: Seq<char>) -> Option<Seq<char>> {
    match first_where(e.attrs@, key_is(key)) {
        Some(a) => Some(a.value@),
        None => None,
    }
}

/// The first child of `e` with tag `name`.
pub open spec fn child_named_spec(e: XmlElement, name: Seq<char>) -> Option<XmlElement> {
    first_where(e.children@, tag_is(name))
}

/// The first child of `e` whose `id` attribute is `id`.
pub open spec fn child_with_id_spec(e: XmlElement, id: Seq<char>) -> Option<XmlElement> {
    first_where(e.children@, id_is(id))
}

impl XmlElement {
    /// The value of the first attribute named `key`.
    pub fn attr(&self, key: &str) -> (r: Option<String>)
        ensures
            r is Some <==> attr_spec(*self, key@) is Some,
            r is Some ==> r->0@ == attr_spec(*self, key@)->0,
    {
        let ghost p = key_is(key@);
        proof {
            lemma_first_index(self.attrs@, p, 0);
        }
        let mut i: usize = 0;
        while i < self.attrs.len()
            invariant
                i <= self.attrs@.len(),
                p == key_is(key@),
                first_index(self.attrs@, p, 0) == first_index(self.attrs@, p, i as int),
            decreases self.attrs@.len() - i,
        {
            if str_eq(self.attrs[i].key.as_str(), key) {
                proof {
                    assert(p(self.attrs@[i as int]));
                }
                return Some(self.attrs[i].value.clone());
            }
            proof {
                assert(!p(self.attrs@[i as int]));
            }
            i = i + 1;
        }
        None
    }

    /// The first child with tag `name`.
    pub fn child_named(&self, name: &str) -> (r: Option<&XmlElement>)
        ensures
            r is Some <==> child_named_spec(*self, name@) is Some,
            r is Some ==> *r->0 == child_named_spec(*self, name@)->0,
    {
        let ghost p = tag_is(name@);
        proof {
            lemma_first_index(self.children@, p, 0);
        }
        let mut i: usize = 0;
        while i < self.children.len()
            invariant
                i <= self.children@.len(),
                p == tag_is(name@),
                first_index(self.children@, p, 0) == first_index(self.children@, p, i as int),
            decreases self.children@.len() - i,
        {
            if str_eq(self.children[i].name.as_str(), name) {
                proof {
                    assert(p(self.children@[i as int]));
                }
                return Some(&self.children[i]);
            }
            proof {
                assert(!p(self.children@[i as int]));
            }
            i = i + 1;
        }
        None
    }

    /// The first child whose `id` attribute is `id`.
    pub fn child_with_id(&self, id: &str) -> (r: Option<&XmlElement>)
        ensures
            r is Some <==> child_with_id_spec(*self, id@) is Some,
            r is Some ==> *r->0 == child_with_id_spec(*self, id@)->0,
    {
        let ghost p = id_is(id@);
        proof {
            lemma_first_index(self.children@, p, 0);
        }
        let mut i: usize = 0;
        while i < self.children.len()
            invariant
                i <= self.children@.len(),
                p == id_is(id@),
                first_index(self.children@, p, 0) == first_index(self.children@, p, i as int),
            decreases self.children@.len() - i,
        {
            let found = match self.children[i].attr("id") {
                Some(v) => str_eq(v.as_str(), id),
                None => false,
            };
            if found {
                proof {
                    assert(p(self.children@[i as int]));
                }
                return Some(&self.children[i]);
            }
            proof {
                assert(!p(self.children@[i as int]));
            }
            i = i + 1;
        }
        None
    }

    /// The index of the first child with tag `name`.
    pub fn child_named_index(&self, name: &str) -> (r: Option<usize>)
        ensures
            r is Some <==> child_named_spec(*self, name@) is Some,
            r is Some ==> r->0 < self.children@.len() && self.children@[r->0 as int]
                == child_named_spec(*self, name@)->0 && r->0 == first_index(
                self.children@,
                tag_is(name@),
                0,
            ),
    {
        let ghost p = tag_is(name@);
        proof {
            lemma_first_index(self.children@, p, 0);
        }
        let mut i: usize = 0;
        while i < self.children.len()
            invariant
                i <= self.children@.len(),
                p == tag_is(name@),
                first_index(self.children@, p, 0) == first_index(self.children@, p, i as int),
            decreases self.children@.len() - i,
        {
            if str_eq(self.children[i].name.as_str(), name) {
                proof {
                    assert(p(self.children@[i as int]));
                }
                return Some(i);
            }
            proof {
                assert(!p(self.children@[i as int]));
            }
            i = i + 1;
        }
        None
    }

    /// The index of the first child whose `id` attribute is `id`.
    pub fn child_with_id_index(&self, id: &str) -> (r: Option<usize>)
        ensures
            r is Some <==> child_with_id_spec(*self, id@) is Some,
            r is Some ==> r->0 < self.children@.len() && self.children@[r->0 as int]
                == child_with_id_spec(*self, id@)->0,
    {
        let ghost p = id_is(id@);
        proof {
            lemma_first_index(self.children@, p, 0);
        }
        let mut i: usize = 0;
        while i < self.children.len()
            invariant
                i <= self.children@.len(),
                p == id_is(id@),
                first_index(self.children@, p, 0) == first_index(self.children@, p, i as int),
            decreases self.children@.len() - i,
        {
            let found = match self.children[i].attr("id") {
                Some(v) => str_eq(v.as_str(), id),
                None => false,
            };
            if found {
                proof {
                    assert(p(self.children@[i as int]));
                }
                return Some(i);
            }
            proof {
                assert(!p(self.children@[i as int]));
            }
            i = i + 1;
        }
        None
    }
}

} // verus!
