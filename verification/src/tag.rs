//! An element's identity: its qualified name and its `id` attribute (empty
//! when absent — absence and an explicitly empty `id` are indistinguishable
//! by design).

use vstd::prelude::*;

use crate::attrs::pairs_view;
use crate::text::str_eq;

verus! {

/// Snapshot of one element's identity.
#[derive(Debug)]
pub struct Tag {
    pub name: String,
    pub id: String,
}

/// The mathematical value of a `Tag`: both fields as character sequences.
pub struct TagView {
    pub name: Seq<char>,
    pub id: Seq<char>,
}

impl View for Tag {
    type V = TagView;

    open spec fn view(&self) -> TagView {
        TagView { name: self.name@, id: self.id@ }
    }
}

/// The views of a stack of tags, bottom first.
pub open spec fn stack_view(s: Seq<Tag>) -> Seq<TagView> {
    s.map_values(|t: Tag| t@)
}

/// The value of the first `id` attribute, or empty when there is none.
pub open spec fn id_of_attrs(attrs: Seq<(Seq<char>, Seq<char>)>) -> Seq<char>
    decreases attrs.len(),
{
    if attrs.len() == 0 {
        Seq::empty()
    } else if attrs[0].0 == "id"@ {
        attrs[0].1
    } else {
        id_of_attrs(attrs.drop_first())
    }
}

proof fn lemma_id_of_attrs_at(attrs: Seq<(Seq<char>, Seq<char>)>, i: int)
    requires
        0 <= i <= attrs.len(),
        forall|j: int| 0 <= j < i ==> attrs[j].0 != "id"@,
        i == attrs.len() || attrs[i].0 == "id"@,
    ensures
        id_of_attrs(attrs) == if i < attrs.len() {
            attrs[i].1
        } else {
            Seq::<char>::empty()
        },
    decreases i,
{
    if i == 0 {
    } else {
        assert(attrs[0].0 != "id"@);
        let t = attrs.drop_first();
        assert forall|j: int| 0 <= j < i - 1 implies t[j].0 != "id"@ by {
            assert(t[j] == attrs[j + 1]);
        }
        assert(i - 1 == t.len() || t[i - 1].0 == "id"@);
        lemma_id_of_attrs_at(t, i - 1);
    }
}

impl Tag {
    /// Derives a tag from an element's name and raw attribute list: the `id`
    /// is the value of the first `id`-keyed attribute, or empty.
    pub fn new(name: &str, attrs: &Vec<(String, String)>) -> (t: Tag)
        ensures
            t@.name == name@,
            t@.id == id_of_attrs(pairs_view(attrs@)),
    {
        let n = attrs.len();
        let mut i: usize = 0;
        while i < n
            invariant
                0 <= i <= n,
                n == attrs@.len(),
                forall|j: int| 0 <= j < i ==> pairs_view(attrs@)[j].0 != "id"@,
            decreases n - i,
        {
            if str_eq(attrs[i].0.as_str(), "id") {
                proof {
                    lemma_id_of_attrs_at(pairs_view(attrs@), i as int);
                }
                return Tag { name: String::from_str(name), id: attrs[i].1.clone() };
            }
            i += 1;
        }
        proof {
            lemma_id_of_attrs_at(pairs_view(attrs@), n as int);
        }
        Tag { name: String::from_str(name), id: String::new() }
    }

    /// A copy with the same name and id.
    pub fn duplicate(&self) -> (t: Tag)
        ensures
            t@ == self@,
    {
        Tag { name: self.name.clone(), id: self.id.clone() }
    }
}

} // verus!
