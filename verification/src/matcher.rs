//! Selector matching over the ancestry stack: a matcher looks at the
//! currently open element (the top of the stack) and decides whether it is
//! the one to transform. A selector string `name#id` — either part optional,
//! at least one required — compiles to a conjunction of atomic matchers.

use vstd::prelude::*;

use crate::tag::{Tag, TagView, stack_view};
use crate::text::{find_char, find_char_str, lemma_find_char_in_range, str_eq};

verus! {

/// A selector string with neither a name nor an id part.
#[derive(Clone, Copy, Debug, PartialEq, Eq, Structural)]
pub struct SelectorError;

/// A predicate over the ancestry stack. An empty stack never matches the
/// atomic matchers.
pub trait StackMatcher {
    spec fn spec_matches(&self, stack: Seq<TagView>) -> bool;

    /// Whether the current stack satisfies this matcher.
    fn matches(&self, stack: &Vec<Tag>) -> (r: bool)
        ensures
            r == self.spec_matches(stack_view(stack@)),
    ;
}

/// Matches when the top-of-stack element has this name.
pub struct NameMatcher {
    pub name: String,
}

impl StackMatcher for NameMatcher {
    open spec fn spec_matches(&self, stack: Seq<TagView>) -> bool {
        stack.len() > 0 && stack.last().name == self.name@
    }

    fn matches(&self, stack: &Vec<Tag>) -> (r: bool) {
        let n = stack.len();
        if n == 0 {
            return false;
        }
        proof {
            assert(stack_view(stack@).last() == stack@[n - 1]@);
        }
        str_eq(stack[n - 1].name.as_str(), self.name.as_str())
    }
}

/// Matches when the top-of-stack element has this id.
pub struct IdMatcher {
    pub id: String,
}

impl StackMatcher for IdMatcher {
    open spec fn spec_matches(&self, stack: Seq<TagView>) -> bool {
        stack.len() > 0 && stack.last().id == self.id@
    }

    fn matches(&self, stack: &Vec<Tag>) -> (r: bool) {
        let n = stack.len();
        if n == 0 {
            return false;
        }
        proof {
            assert(stack_view(stack@).last() == stack@[n - 1]@);
        }
        str_eq(stack[n - 1].id.as_str(), self.id.as_str())
    }
}

/// One atomic matcher: by name or by id.
pub enum TagMatcher {
    Name(NameMatcher),
    Id(IdMatcher),
}

impl StackMatcher for TagMatcher {
    open spec fn spec_matches(&self, stack: Seq<TagView>) -> bool {
        match self {
            TagMatcher::Name(m) => m.spec_matches(stack),
            TagMatcher::Id(m) => m.spec_matches(stack),
        }
    }

    fn matches(&self, stack: &Vec<Tag>) -> (r: bool) {
        match self {
            TagMatcher::Name(m) => m.matches(stack),
            TagMatcher::Id(m) => m.matches(stack),
        }
    }
}

/// Matches when every member matches; vacuously true when empty, though the
/// selector compiler never produces an empty one.
pub struct AndMatcher {
    pub matchers: Vec<TagMatcher>,
}

impl StackMatcher for AndMatcher {
    open spec fn spec_matches(&self, stack: Seq<TagView>) -> bool {
        forall|i: int|
            0 <= i < self.matchers@.len() ==> (#[trigger] self.matchers@[i]).spec_matches(stack)
    }

    fn matches(&self, stack: &Vec<Tag>) -> (r: bool) {
        let n = self.matchers.len();
        let mut i: usize = 0;
        while i < n
            invariant
                0 <= i <= n,
                n == self.matchers@.len(),
                forall|j: int|
                    0 <= j < i ==> (#[trigger] self.matchers@[j]).spec_matches(
                        stack_view(stack@),
                    ),
            decreases n - i,
        {
            if !self.matchers[i].matches(stack) {
                return false;
            }
            i += 1;
        }
        true
    }
}

/// The name part of a selector string: what stands before the first `#`, or
/// the whole string without one.
pub open spec fn selector_name(s: Seq<char>) -> Seq<char> {
    let i = find_char(s, '#');
    if 0 <= i < s.len() {
        s.subrange(0, i)
    } else {
        s
    }
}

/// The id part of a selector string: what stands after the first `#`, or
/// empty without one.
pub open spec fn selector_id(s: Seq<char>) -> Seq<char> {
    let i = find_char(s, '#');
    if 0 <= i < s.len() {
        s.subrange(i + 1, s.len() as int)
    } else {
        Seq::empty()
    }
}

/// What a compiled selector asks of a stack: it is nonempty, the top
/// element's name equals a nonempty name part, and its id equals a nonempty
/// id part.
pub open spec fn selector_matches(s: Seq<char>, stack: Seq<TagView>) -> bool {
    &&& stack.len() > 0
    &&& (selector_name(s).len() > 0 ==> stack.last().name == selector_name(s))
    &&& (selector_id(s).len() > 0 ==> stack.last().id == selector_id(s))
}

/// Selector determinism: a compiled selector, asked about one open element,
/// answers from that element's tag alone — true exactly when the tag carries
/// the selector's name part and its id part, each where nonempty. So
/// `name#id` demands both, `name` any id, and `#id` any name.
pub proof fn lemma_selector_determinism(selector: Seq<char>, m: AndMatcher, t: TagView)
    requires
        forall|stack: Seq<TagView>|
            #[trigger] m.spec_matches(stack) == selector_matches(selector, stack),
    ensures
        m.spec_matches(seq![t]) == ((selector_name(selector).len() > 0 ==> t.name
            == selector_name(selector)) && (selector_id(selector).len() > 0 ==> t.id
            == selector_id(selector))),
{
    let stack = seq![t];
    assert(stack.last() == t);
    assert(m.spec_matches(stack) == selector_matches(selector, stack));
}

/// Compiles a selector string `name#id` — either part optional — into a
/// conjunction of atomic matchers. A selector with neither part is refused;
/// a compiled selector matches a stack exactly as `selector_matches` says.
pub fn new_tag_matcher(selector: &str) -> (r: Result<AndMatcher, SelectorError>)
    ensures
        match r {
            Ok(m) => (selector_name(selector@).len() > 0 || selector_id(selector@).len() > 0)
                && forall|stack: Seq<TagView>|
                #[trigger] m.spec_matches(stack) == selector_matches(selector@, stack),
            Err(_) => selector_name(selector@).len() == 0 && selector_id(selector@).len() == 0,
        },
{
    let n = selector.unicode_len();
    let i = find_char_str(selector, '#');
    proof {
        lemma_find_char_in_range(selector@, '#');
    }
    let (name, id) = if i == n {
        proof {
            assert(selector@.subrange(0, n as int) =~= selector@);
        }
        (selector.substring_char(0, n), "")
    } else {
        (selector.substring_char(0, i), selector.substring_char(i + 1, n))
    };
    proof {
        reveal_strlit("");
        assert(name@ == selector_name(selector@));
        assert(id@ == selector_id(selector@));
    }
    let mut matchers: Vec<TagMatcher> = Vec::new();
    let has_name = name.unicode_len() > 0;
    let has_id = id.unicode_len() > 0;
    if has_name {
        matchers.push(TagMatcher::Name(NameMatcher { name: String::from_str(name) }));
    }
    if has_id {
        matchers.push(TagMatcher::Id(IdMatcher { id: String::from_str(id) }));
    }
    if matchers.len() == 0 {
        return Err(SelectorError);
    }
    let m = AndMatcher { matchers };
    proof {
        let nm = selector_name(selector@);
        let im = selector_id(selector@);
        let ms = m.matchers@;
        if has_name {
            assert(ms[0] is Name && ms[0]->Name_0.name@ == nm);
        }
        if has_id {
            let k: int = if has_name {
                1
            } else {
                0
            };
            assert(ms[k] is Id && ms[k]->Id_0.id@ == im);
        }
        assert forall|stack: Seq<TagView>| #[trigger]
            m.spec_matches(stack) == selector_matches(selector@, stack) by {
            if m.spec_matches(stack) {
                assert(ms[0].spec_matches(stack));
                if has_name && has_id {
                    assert(ms[1].spec_matches(stack));
                }
            }
            if selector_matches(selector@, stack) {
                assert forall|j: int| 0 <= j < ms.len() implies (#[trigger] ms[j]).spec_matches(
                    stack,
                ) by {}
            }
        }
    }
    Ok(m)
}

} // verus!
