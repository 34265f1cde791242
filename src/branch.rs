use vstd::prelude::*;
use vstd::string::StringExecFns;
use smallvec::SmallVec;
use crate::selector::{tag_opt, EmlBranch, EmlNode, NodeModel};
use crate::symbol::Tag;

verus! {

/// The data of one element of the tree that selectors are matched against.
pub struct Element {
    pub name: Tag,
    pub id: Option<Tag>,
    pub classes: Vec<Tag>,
    pub state: Vec<Tag>,
}

/// The texts of a list of tags.
pub open spec fn texts(tags: Seq<Tag>) -> Seq<Seq<char>> {
    tags.map_values(|t: Tag| t@)
}

/// What the matching engine learns of an element.
pub open spec fn element_model(e: Element) -> NodeModel {
    NodeModel {
        id: tag_opt(e.id),
        tag: e.name@,
        classes: texts(e.classes@).to_set(),
        states: texts(e.state@).to_set(),
    }
}

/// The elements of a branch, held inline while there are few of them.
#[verifier::external_body]
pub struct ElementList {
    inner: SmallVec<[Element; 12]>,
}

/// The elements that an `ElementList` holds, in order.
pub uninterp spec fn listed_elements(v: ElementList) -> Seq<Element>;

/// Relies on SmallVec::new: the vector starts empty.
#[verifier::external_body]
fn list_new() -> (r: ElementList)
    ensures
        listed_elements(r) == Seq::<Element>::empty(),
{
    ElementList { inner: SmallVec::new() }
}

/// Relies on SmallVec::len: the number of elements held.
#[verifier::external_body]
fn list_len(v: &ElementList) -> (r: usize)
    ensures
        r == listed_elements(*v).len(),
{
    v.inner.len()
}

/// Relies on SmallVec's indexing: the element at position `i`.
#[verifier::external_body]
fn list_at(v: &ElementList, i: usize) -> (r: &Element)
    requires
        i < listed_elements(*v).len(),
    ensures
        *r == listed_elements(*v)[i as int],
{
    &v.inner[i]
}

/// Relies on SmallVec::push: the element goes after the others. The length
/// must leave room for one more.
#[verifier::external_body]
fn list_push(v: &mut ElementList, e: Element)
    requires
        listed_elements(*old(v)).len() < usize::MAX,
    ensures
        listed_elements(*final(v)) == listed_elements(*old(v)).push(e),
{
    v.inner.push(e)
}

/// A node of the tree with its ancestors: the node first, then its parent,
/// and so on outwards.
pub struct ElementsBranch {
    elements: ElementList,
}

impl ElementsBranch {
    /// The elements of the branch, innermost first.
    pub closed spec fn elements(&self) -> Seq<Element> {
        listed_elements(self.elements)
    }

    /// What the matching engine learns of the branch's elements.
    pub open spec fn models(&self) -> Seq<NodeModel> {
        self.elements().map_values(|e: Element| element_model(e))
    }

    pub fn new() -> (r: ElementsBranch)
        ensures
            r.elements() == Seq::<Element>::empty(),
    {
        ElementsBranch { elements: list_new() }
    }

    /// Adds the next element outwards: the parent of the last one added.
    pub fn insert(&mut self, element: Element)
        requires
            old(self).elements().len() < usize::MAX,
        ensures
            final(self).elements() == old(self).elements().push(element),
    {
        list_push(&mut self.elements, element);
    }

    /// The element at position `i`, counted from the innermost.
    pub fn get(&self, i: usize) -> (r: &Element)
        requires
            i < self.elements().len(),
        ensures
            *r == self.elements()[i as int],
    {
        list_at(&self.elements, i)
    }

    /// The number of elements in the branch.
    pub fn len(&self) -> (r: usize)
        ensures
            r == self.elements().len(),
    {
        list_len(&self.elements)
    }

    /// The branch as text: each element as a compound selector that it
    /// satisfies, outermost first, separated by single spaces.
    pub fn to_string(&self) -> (r: String)
        ensures
            r@ == branch_text(self.elements()),
    {
        let mut result = String::new();
        let n = list_len(&self.elements);
        let mut idx = n;
        proof {
            reveal_strlit(" ");
            assert(self.elements().skip(n as int) =~= Seq::<Element>::empty());
        }
        while idx > 0
            invariant
                n == self.elements().len(),
                idx <= n,
                result@ == (if idx > 0 {
                    spaced_text(self.elements().skip(idx as int))
                } else {
                    branch_text(self.elements())
                }),
            decreases idx,
        {
            let node = list_at(&self.elements, idx - 1);
            let ghost rest = self.elements().skip(idx as int);
            proof {
                assert(self.elements().skip(idx - 1).skip(1) =~= rest);
                assert(self.elements().skip(idx - 1)[0] == *node);
                if idx == 1 {
                    assert(self.elements().skip(1) =~= rest);
                }
            }
            let ghost before = result@;
            element_text_onto(&mut result, node);
            if idx != 1 {
                proof {
                    reveal_strlit(" ");
                }
                result.append(" ");
                proof {
                    assert(result@ =~= spaced_text(self.elements().skip(idx - 1)));
                }
            } else {
                proof {
                    assert(result@ =~= branch_text(self.elements()));
                }
            }
            idx -= 1;
        }
        result
    }
}

/// The text of names, each after the marker.
pub open spec fn marked_text(marker: char, names: Seq<Seq<char>>) -> Seq<char>
    decreases names.len(),
{
    if names.len() == 0 {
        Seq::empty()
    } else {
        seq![marker] + names[0] + marked_text(marker, names.skip(1))
    }
}

/// An element written as a compound selector: its name, its id after `#`, its
/// classes after `.` and its states after `:`.
pub open spec fn element_text(e: Element) -> Seq<char> {
    e.name@ + match e.id {
        Some(i) => seq!['#'] + i@,
        None => Seq::empty(),
    } + marked_text('.', texts(e.classes@)) + marked_text(':', texts(e.state@))
}

/// The text of elements stored innermost first: the outermost first, each
/// followed by a space.
pub open spec fn spaced_text(elements: Seq<Element>) -> Seq<char>
    decreases elements.len(),
{
    if elements.len() == 0 {
        Seq::empty()
    } else {
        spaced_text(elements.skip(1)) + element_text(elements[0]) + seq![' ']
    }
}

/// The text of elements stored innermost first: the outermost first, with a
/// space after each element but the innermost.
pub open spec fn branch_text(elements: Seq<Element>) -> Seq<char> {
    if elements.len() == 0 {
        Seq::empty()
    } else {
        spaced_text(elements.skip(1)) + element_text(elements[0])
    }
}

/// Appends each name after the marker.
fn marked_onto(out: &mut String, marker: &str, names: &Vec<Tag>)
    requires
        marker@.len() == 1,
    ensures
        final(out)@ == old(out)@ + marked_text(marker@[0], texts(names@)),
{
    let mut i: usize = 0;
    let ghost start = out@;
    while i < names.len()
        invariant
            i <= names@.len(),
            marker@.len() == 1,
            out@ == start + marked_text(marker@[0], texts(names@.take(i as int))),
        decreases names.len() - i,
    {
        proof {
            lemma_marked_text_push(marker@[0], texts(names@.take(i as int)), names@[i as int]@);
            assert(texts(names@.take(i + 1)) =~= texts(names@.take(i as int)).push(names@[i as int]@));
            assert(marker@ =~= seq![marker@[0]]);
        }
        out.append(marker);
        out.append(names[i].as_str());
        i += 1;
    }
    proof {
        assert(names@.take(i as int) =~= names@);
    }
}

/// Writing one more name at the end adds the marker and the name.
proof fn lemma_marked_text_push(marker: char, names: Seq<Seq<char>>, name: Seq<char>)
    ensures
        marked_text(marker, names.push(name)) == marked_text(marker, names) + seq![marker] + name,
    decreases names.len(),
{
    if names.len() == 0 {
        assert(names.push(name).skip(1) =~= Seq::<Seq<char>>::empty());
        assert(marked_text(marker, names.push(name).skip(1)) == Seq::<char>::empty());
        assert(names.push(name)[0] == name);
        assert(marked_text(marker, names) == Seq::<char>::empty());
        assert(marked_text(marker, names.push(name)) =~= seq![marker] + name);
    } else {
        lemma_marked_text_push(marker, names.skip(1), name);
        assert(names.push(name).skip(1) =~= names.skip(1).push(name));
        assert(marked_text(marker, names.push(name)) =~= marked_text(marker, names) + seq![marker]
            + name);
    }
}

/// Appends the element written as a compound selector.
fn element_text_onto(out: &mut String, e: &Element)
    ensures
        final(out)@ == old(out)@ + element_text(*e),
{
    let ghost start = out@;
    proof {
        reveal_strlit("#");
        reveal_strlit(".");
        reveal_strlit(":");
    }
    out.append(e.name.as_str());
    match &e.id {
        Some(id) => {
            out.append("#");
            out.append(id.as_str());
        },
        None => {},
    }
    marked_onto(out, ".", &e.classes);
    marked_onto(out, ":", &e.state);
    proof {
        assert(out@ =~= start + element_text(*e));
    }
}

/// Whether one of the tags has the text of `t`.
fn contains_tag(tags: &Vec<Tag>, t: &Tag) -> (r: bool)
    ensures
        r == texts(tags@).to_set().contains(t@),
{
    let mut i: usize = 0;
    while i < tags.len()
        invariant
            i <= tags@.len(),
            forall|k: int| 0 <= k < i ==> #[trigger] tags@[k]@ != t@,
        decreases tags.len() - i,
    {
        if tags[i].same(t) {
            proof {
                assert(texts(tags@)[i as int] == t@);
            }
            return true;
        }
        i += 1;
    }
    proof {
        assert forall|k: int| 0 <= k < texts(tags@).len() implies texts(tags@)[k] != t@ by {
            assert(tags@[k]@ != t@);
        }
    }
    false
}

/// A position in a branch: the element there, followed by those outwards.
pub struct ElementNode<'b> {
    idx: usize,
    branch: &'b ElementsBranch,
}

impl<'b> ElementNode<'b> {
    /// The element at the node's position.
    fn element(&self) -> (r: &'b Element)
        requires
            self.chain().len() > 0,
        ensures
            element_model(*r) == self.chain()[0],
    {
        proof {
            self.lemma_in_branch();
        }
        list_at(&self.branch.elements, self.idx)
    }
}

impl<'b> ElementNode<'b> {
    /// A node with a nonempty chain points into its branch.
    proof fn lemma_in_branch(&self)
        requires
            self.chain().len() > 0,
        ensures
            self.idx < self.branch.elements().len(),
            self.chain().len() == self.branch.elements().len() - self.idx,
    {
    }
}

impl<'b> EmlNode for ElementNode<'b> {
    closed spec fn chain(&self) -> Seq<NodeModel> {
        if self.idx < self.branch.models().len() {
            self.branch.models().skip(self.idx as int)
        } else {
            Seq::empty()
        }
    }

    fn id(&self) -> (r: Option<Tag>) {
        match &self.element().id {
            Some(t) => Some(t.duplicate()),
            None => None,
        }
    }

    fn tag(&self) -> (r: Tag) {
        self.element().name.duplicate()
    }

    fn has_class(&self, class: &Tag) -> (r: bool) {
        contains_tag(&self.element().classes, class)
    }

    fn has_state(&self, tag: &Tag) -> (r: bool) {
        contains_tag(&self.element().state, tag)
    }

    fn next(&self) -> (r: Option<Self>) {
        proof {
            self.lemma_in_branch();
        }
        let branch = self.branch;
        let len = list_len(&branch.elements);
        let idx = self.idx + 1;
        if idx >= len {
            None
        } else {
            proof {
                assert(branch.models().skip(idx as int) =~= self.chain().skip(1));
            }
            Some(ElementNode { idx, branch })
        }
    }
}

impl<'b> EmlBranch for &'b ElementsBranch {
    type Node = ElementNode<'b>;

    open spec fn chain(&self) -> Seq<NodeModel> {
        (**self).models()
    }

    fn tail(&self) -> (r: ElementNode<'b>) {
        let r = ElementNode { idx: 0, branch: *self };
        proof {
            assert(r.chain() =~= (**self).models());
        }
        r
    }
}

} // verus!
