use vstd::prelude::*;
use vstd::string::StringExecFns;
use smallvec::SmallVec;
use crate::symbol::Tag;

verus! {

/// What one selector element stands for, with its names as text.
pub enum Part {
    Combinator,
    Id(Seq<char>),
    Class(Seq<char>),
    Name(Seq<char>),
    State(Seq<char>),
}

/// What the matching engine can learn of one tree node.
pub struct NodeModel {
    pub id: Option<Seq<char>>,
    pub tag: Seq<char>,
    pub classes: Set<Seq<char>>,
    pub states: Set<Seq<char>>,
}

pub open spec fn tag_opt(o: Option<Tag>) -> Option<Seq<char>> {
    match o {
        Some(t) => Some(t@),
        None => None,
    }
}

/// Whether a single predicate holds of a node; a combinator holds of none.
pub open spec fn holds(p: Part, n: NodeModel) -> bool {
    match p {
        Part::Combinator => false,
        Part::Id(x) => n.id == Some(x),
        Part::Class(x) => n.classes.contains(x),
        Part::Name(x) => n.tag == x,
        Part::State(x) => n.states.contains(x),
    }
}

/// The first offset at or after `off` that holds a combinator, or the length.
pub open spec fn compound_end(parts: Seq<Part>, off: int) -> int
    decreases parts.len() - off,
{
    if off < 0 || off >= parts.len() || parts[off] is Combinator {
        off
    } else {
        compound_end(parts, off + 1)
    }
}

/// Every predicate of the compound that starts at `off` holds of the node.
pub open spec fn compound_holds(parts: Seq<Part>, off: int, n: NodeModel) -> bool {
    forall|k: int| off <= k < compound_end(parts, off) ==> holds(#[trigger] parts[k], n)
}

/// Whether the selector that remains from offset `off` (stored innermost
/// compound first) is satisfied by a chain of nodes whose first element is the
/// node being matched and whose later elements are its ancestors, innermost
/// first.
///
/// At a combinator, the rest of the selector must be satisfied by the node
/// itself or by some node further up. At a compound, every predicate of it must
/// hold of the node, and what follows it, if anything, must be satisfied
/// from the node's parent upwards.
pub open spec fn fits(parts: Seq<Part>, off: int, chain: Seq<NodeModel>) -> bool
    decreases parts.len() - off, chain.len(),
    via fits_decreases
{
    if off < 0 || off >= parts.len() || chain.len() == 0 {
        false
    } else if parts[off] is Combinator {
        off + 1 >= parts.len() || fits(parts, off + 1, chain) || (chain.len() > 1 && fits(
            parts,
            off,
            chain.skip(1),
        ))
    } else {
        compound_holds(parts, off, chain[0]) && (compound_end(parts, off) >= parts.len() || (
        chain.len() > 1 && fits(parts, compound_end(parts, off), chain.skip(1))))
    }
}

#[via_fn]
proof fn fits_decreases(parts: Seq<Part>, off: int, chain: Seq<NodeModel>) {
    if 0 <= off < parts.len() {
        lemma_compound_end(parts, off);
    }
}

/// Facts about where a compound ends.
pub proof fn lemma_compound_end(parts: Seq<Part>, off: int)
    requires
        0 <= off <= parts.len(),
    ensures
        off <= compound_end(parts, off) <= parts.len(),
        off < parts.len() && !(parts[off] is Combinator) ==> compound_end(parts, off) > off,
        compound_end(parts, off) < parts.len() ==> parts[compound_end(parts, off)] is Combinator,
        forall|k: int| off <= k < compound_end(parts, off) ==> !(#[trigger] parts[k] is Combinator),
    decreases parts.len() - off,
{
    if off < parts.len() && !(parts[off] is Combinator) {
        lemma_compound_end(parts, off + 1);
    }
}

/// A selector's elements as stored: the innermost compound first, no two
/// combinators side by side, and a predicate at each end.
pub open spec fn well_formed(parts: Seq<Part>) -> bool {
    &&& parts.len() > 0
    &&& !(parts[0] is Combinator)
    &&& !(parts.last() is Combinator)
    &&& forall|k: int|
        0 <= k < parts.len() - 1 && #[trigger] parts[k] is Combinator ==> !(parts[k
            + 1] is Combinator)
}

/// One element of a selector: a descendant combinator or a predicate on a node.
pub enum SelectorElement {
    AnyChild,
    Id(Tag),
    Class(Tag),
    Tag(Tag),
    State(Tag),
}

impl View for SelectorElement {
    type V = Part;

    open spec fn view(&self) -> Part {
        match self {
            SelectorElement::AnyChild => Part::Combinator,
            SelectorElement::Id(t) => Part::Id(t@),
            SelectorElement::Class(t) => Part::Class(t@),
            SelectorElement::Tag(t) => Part::Name(t@),
            SelectorElement::State(t) => Part::State(t@),
        }
    }
}

/// The elements of a selector, held inline while there are few of them.
#[verifier::external_body]
pub struct SelectorElements {
    inner: SmallVec<[SelectorElement; 8]>,
}

/// The elements that a `SelectorElements` holds, in order.
pub uninterp spec fn selector_elements(v: SelectorElements) -> Seq<SelectorElement>;

/// What the elements stand for, in order.
pub open spec fn parts_of(v: SelectorElements) -> Seq<Part> {
    selector_elements(v).map_values(|e: SelectorElement| e@)
}

/// Relies on SmallVec::new: the vector starts empty.
#[verifier::external_body]
fn elements_new() -> (r: SelectorElements)
    ensures
        selector_elements(r) == Seq::<SelectorElement>::empty(),
{
    SelectorElements { inner: SmallVec::new() }
}

/// Relies on SmallVec::len: the number of elements held.
#[verifier::external_body]
fn elements_len(v: &SelectorElements) -> (r: usize)
    ensures
        r == selector_elements(*v).len(),
{
    v.inner.len()
}

/// Relies on SmallVec's indexing: the element at position `i`.
#[verifier::external_body]
fn elements_at(v: &SelectorElements, i: usize) -> (r: &SelectorElement)
    requires
        i < selector_elements(*v).len(),
    ensures
        *r == selector_elements(*v)[i as int],
{
    &v.inner[i]
}

/// Relies on SmallVec::insert at index 0: the element goes in front of the
/// others, which keep their order. The length must leave room for one more.
#[verifier::external_body]
fn elements_insert_front(v: &mut SelectorElements, e: SelectorElement)
    requires
        selector_elements(*old(v)).len() < usize::MAX,
    ensures
        selector_elements(*final(v)) == seq![e] + selector_elements(*old(v)),
{
    v.inner.insert(0, e)
}

impl SelectorElements {
    /// No elements.
    pub fn new() -> (r: SelectorElements)
        ensures
            selector_elements(r) == Seq::<SelectorElement>::empty(),
    {
        elements_new()
    }

    /// The number of elements.
    pub fn len(&self) -> (r: usize)
        ensures
            r == selector_elements(*self).len(),
    {
        elements_len(self)
    }

    /// The element at position `i`.
    pub fn get(&self, i: usize) -> (r: &SelectorElement)
        requires
            i < selector_elements(*self).len(),
        ensures
            *r == selector_elements(*self)[i as int],
    {
        elements_at(self, i)
    }

    /// Puts the element in front of the others.
    pub fn push_front(&mut self, e: SelectorElement)
        requires
            selector_elements(*old(self)).len() < usize::MAX,
        ensures
            selector_elements(*final(self)) == seq![e] + selector_elements(*old(self)),
    {
        elements_insert_front(self, e)
    }
}

impl SelectorElement {
    pub fn is_any_child(&self) -> (r: bool)
        ensures
            r == (self@ is Combinator),
    {
        match self {
            SelectorElement::AnyChild => true,
            _ => false,
        }
    }

    pub fn is_value(&self) -> (r: bool)
        ensures
            r == !(self@ is Combinator),
    {
        !self.is_any_child()
    }

    /// Whether this predicate holds of the node; a combinator never does.
    pub fn describes_node<N: EmlNode>(&self, node: &N) -> (r: bool)
        requires
            node.chain().len() > 0,
        ensures
            r == holds(self@, node.chain()[0]),
    {
        match self {
            SelectorElement::Id(id) => match node.id() {
                Some(node_id) => node_id.same(id),
                None => false,
            },
            SelectorElement::State(state) => node.has_state(state),
            SelectorElement::Tag(tag) => node.tag().same(tag),
            SelectorElement::Class(class) => node.has_class(class),
            SelectorElement::AnyChild => false,
        }
    }
}

/// A position in a selector's elements: the selector that remains to be
/// satisfied, starting at `offset`.
pub struct SelectorEntry<'a> {
    offset: usize,
    elements: &'a SelectorElements,
}

impl<'a> SelectorEntry<'a> {
    /// The elements of the selector this entry points into.
    pub closed spec fn parts(&self) -> Seq<Part> {
        parts_of(*self.elements)
    }

    pub closed spec fn offset(&self) -> int {
        self.offset as int
    }

    /// The entry points at an element of its selector.
    pub open spec fn valid(&self) -> bool {
        0 <= self.offset() < self.parts().len()
    }

    /// The element at the entry's own offset.
    pub open spec fn current(&self) -> Part {
        self.parts()[self.offset()]
    }

    /// The offset of the entry that `next` moves to.
    pub open spec fn next_offset(&self) -> int {
        if self.current() is Combinator {
            self.offset() + 1
        } else {
            compound_end(self.parts(), self.offset())
        }
    }

    fn new(elements: &'a SelectorElements) -> (r: SelectorEntry<'a>)
        ensures
            r.offset() == 0,
            r.parts() == parts_of(*elements),
    {
        SelectorEntry { elements, offset: 0 }
    }

    /// Past a combinator, the compound that follows it; on a compound, the
    /// combinator after it. None where the elements end first.
    fn next(&self) -> (r: Option<SelectorEntry<'a>>)
        requires
            self.valid(),
        ensures
            self.next_offset() > self.offset(),
            r is None <==> self.next_offset() >= self.parts().len(),
            r matches Some(e) ==> e.parts() == self.parts() && e.offset() == self.next_offset(),
    {
        let elements = self.elements;
        let len = elements_len(elements);
        let mut offset = self.offset;
        proof {
            lemma_compound_end(self.parts(), self.offset());
        }
        if elements_at(elements, offset).is_any_child() {
            offset += 1;
            if offset >= len {
                return None;
            } else {
                return Some(SelectorEntry { offset, elements });
            }
        }
        while offset < len && !elements_at(elements, offset).is_any_child()
            invariant
                self.valid(),
                len == self.parts().len(),
                self.offset() <= offset <= len,
                compound_end(self.parts(), self.offset()) == compound_end(
                    self.parts(),
                    offset as int,
                ),
                self.parts() == parts_of(*elements),
            decreases len - offset,
        {
            offset += 1;
        }
        if offset >= len {
            None
        } else {
            Some(SelectorEntry { offset, elements })
        }
    }

    /// The number of predicates in the current compound; zero on a combinator.
    pub fn len(&self) -> (r: u8)
        requires
            self.valid(),
            compound_end(self.parts(), self.offset()) - self.offset() <= 255,
        ensures
            r == compound_end(self.parts(), self.offset()) - self.offset(),
    {
        let elements = self.elements;
        let n = elements_len(elements);
        let mut i = self.offset;
        let mut len: u8 = 0;
        while i < n
            invariant
                self.valid(),
                n == self.parts().len(),
                self.offset() <= i <= n,
                len == i - self.offset(),
                compound_end(self.parts(), self.offset()) == compound_end(self.parts(), i as int),
                compound_end(self.parts(), self.offset()) - self.offset() <= 255,
                self.parts() == parts_of(*elements),
            decreases n - i,
        {
            if elements_at(elements, i).is_any_child() {
                return len;
            }
            proof {
                lemma_compound_end(self.parts(), i + 1);
            }
            len += 1;
            i += 1;
        }
        len
    }

    pub fn is_any_child(&self) -> (r: bool)
        requires
            self.valid(),
        ensures
            r == (self.current() is Combinator),
    {
        elements_at(self.elements, self.offset).is_any_child()
    }

    pub fn is_value(&self) -> (r: bool)
        requires
            self.valid(),
        ensures
            r == !(self.current() is Combinator),
    {
        !self.is_any_child()
    }

    /// Whether the current compound holds this id.
    pub fn has_id(&self, id: Tag) -> (r: bool)
        requires
            self.valid(),
        ensures
            r == exists|k: int|
                self.offset() <= k < compound_end(self.parts(), self.offset()) && #[trigger] self.parts()[k]
                    == Part::Id(id@),
    {
        self.has_part(&SelectorElement::Id(id))
    }

    /// Whether the current compound holds this class.
    pub fn has_class(&self, class: Tag) -> (r: bool)
        requires
            self.valid(),
        ensures
            r == exists|k: int|
                self.offset() <= k < compound_end(self.parts(), self.offset()) && #[trigger] self.parts()[k]
                    == Part::Class(class@),
    {
        self.has_part(&SelectorElement::Class(class))
    }

    /// Whether the current compound holds this tag name.
    pub fn has_tag(&self, tag: Tag) -> (r: bool)
        requires
            self.valid(),
        ensures
            r == exists|k: int|
                self.offset() <= k < compound_end(self.parts(), self.offset()) && #[trigger] self.parts()[k]
                    == Part::Name(tag@),
    {
        self.has_part(&SelectorElement::Tag(tag))
    }

    /// Whether the current compound holds a predicate equal to `wanted`.
    fn has_part(&self, wanted: &SelectorElement) -> (r: bool)
        requires
            self.valid(),
            !(wanted@ is Combinator),
        ensures
            r == exists|k: int|
                self.offset() <= k < compound_end(self.parts(), self.offset()) && #[trigger] self.parts()[k]
                    == wanted@,
    {
        let elements = self.elements;
        let n = elements_len(elements);
        let mut i = self.offset;
        while i < n
            invariant
                self.valid(),
                n == self.parts().len(),
                self.offset() <= i <= n,
                compound_end(self.parts(), self.offset()) == compound_end(self.parts(), i as int),
                self.parts() == parts_of(*elements),
                !(wanted@ is Combinator),
                forall|k: int| self.offset() <= k < i ==> #[trigger] self.parts()[k] != wanted@,
            decreases n - i,
        {
            proof {
                lemma_compound_end(self.parts(), i as int);
            }
            let element = elements_at(elements, i);
            if element.is_any_child() {
                return false;
            }
            if same_element(element, wanted) {
                return true;
            }
            i += 1;
        }
        false
    }

    /// Whether every predicate of the current compound holds of the node;
    /// never on a combinator.
    pub fn describes_node<N: EmlNode>(&self, node: &N) -> (r: bool)
        requires
            self.valid(),
            node.chain().len() > 0,
        ensures
            r == (!(self.current() is Combinator) && compound_holds(
                self.parts(),
                self.offset(),
                node.chain()[0],
            )),
    {
        let elements = self.elements;
        let len = elements_len(elements);
        let mut offset = self.offset;
        if elements_at(elements, offset).is_any_child() {
            return false;
        }
        while offset < len && elements_at(elements, offset).is_value()
            invariant
                self.valid(),
                node.chain().len() > 0,
                len == self.parts().len(),
                self.offset() <= offset <= len,
                compound_end(self.parts(), self.offset()) == compound_end(
                    self.parts(),
                    offset as int,
                ),
                self.parts() == parts_of(*elements),
                forall|k: int|
                    self.offset() <= k < offset ==> holds(#[trigger] self.parts()[k], node.chain()[0]),
            decreases len - offset,
        {
            proof {
                lemma_compound_end(self.parts(), offset as int);
            }
            if elements_at(elements, offset).describes_node(node) {
                offset += 1
            } else {
                return false;
            }
        }
        true
    }
}

/// Whether two elements are of the same kind with the same text.
fn same_element(a: &SelectorElement, b: &SelectorElement) -> (r: bool)
    ensures
        r == (a@ == b@),
{
    match (a, b) {
        (SelectorElement::AnyChild, SelectorElement::AnyChild) => true,
        (SelectorElement::Id(x), SelectorElement::Id(y)) => x.same(y),
        (SelectorElement::Class(x), SelectorElement::Class(y)) => x.same(y),
        (SelectorElement::Tag(x), SelectorElement::Tag(y)) => x.same(y),
        (SelectorElement::State(x), SelectorElement::State(y)) => x.same(y),
        _ => false,
    }
}

/// A tree node seen from the matching engine, together with the chain of its
/// ancestors.
pub trait EmlNode: Sized {
    /// This node followed by its ancestors, innermost first.
    spec fn chain(&self) -> Seq<NodeModel>;

    fn id(&self) -> (r: Option<Tag>)
        requires
            self.chain().len() > 0,
        ensures
            tag_opt(r) == self.chain()[0].id,
    ;

    fn tag(&self) -> (r: Tag)
        requires
            self.chain().len() > 0,
        ensures
            r@ == self.chain()[0].tag,
    ;

    fn has_state(&self, tag: &Tag) -> (r: bool)
        requires
            self.chain().len() > 0,
        ensures
            r == self.chain()[0].states.contains(tag@),
    ;

    fn has_class(&self, class: &Tag) -> (r: bool)
        requires
            self.chain().len() > 0,
        ensures
            r == self.chain()[0].classes.contains(class@),
    ;

    /// The parent, where the observed chain goes on.
    fn next(&self) -> (r: Option<Self>)
        requires
            self.chain().len() > 0,
        ensures
            r is None <==> self.chain().len() == 1,
            r matches Some(p) ==> p.chain() == self.chain().skip(1),
    ;
}

/// A branch of the tree: a node and its ancestors, seen from the node.
pub trait EmlBranch {
    type Node: EmlNode;

    /// The nodes of the branch, innermost first.
    spec fn chain(&self) -> Seq<NodeModel>;

    /// The innermost node of the branch.
    fn tail(&self) -> (r: Self::Node)
        requires
            self.chain().len() > 0,
        ensures
            r.chain() == self.chain(),
    ;
}

/// Matches the selector that remains from the entry against the node and its
/// ancestors, trying each way of placing the compounds that come after a
/// combinator on the node or on one of its ancestors.
pub fn node_fits<N: EmlNode>(node: &N, selector: &SelectorEntry) -> (r: bool)
    requires
        node.chain().len() > 0,
        selector.valid(),
    ensures
        r == fits(selector.parts(), selector.offset(), node.chain()),
    decreases selector.parts().len() - selector.offset(), node.chain().len(),
{
    proof {
        lemma_compound_end(selector.parts(), selector.offset());
    }
    if selector.is_any_child() {
        match selector.next() {
            None => true,
            Some(next_selector) => {
                if node_fits(node, &next_selector) {
                    return true;
                }
                match node.next() {
                    Some(next_node) => {
                        proof {
                            reveal_with_fuel(fits, 2);
                        }
                        node_fits(&next_node, &next_selector) || node_fits(&next_node, selector)
                    },
                    None => false,
                }
            },
        }
    } else if selector.describes_node(node) {
        match (node.next(), selector.next()) {
            (None, None) => true,
            (Some(next_node), Some(next_selector)) => node_fits(&next_node, &next_selector),
            (Some(_), None) => true,
            (None, Some(_)) => false,
        }
    } else {
        false
    }
}

/// The text of one element, as it is written in a selector.
pub open spec fn part_text(p: Part) -> Seq<char> {
    match p {
        Part::Combinator => seq![' '],
        Part::Id(x) => seq!['#'] + x,
        Part::Class(x) => seq!['.'] + x,
        Part::Name(x) => x,
        Part::State(x) => seq![':'] + x,
    }
}

/// The text of a selector whose elements are stored innermost first: the
/// elements' texts from the last element to the first.
pub open spec fn selector_text(parts: Seq<Part>) -> Seq<char>
    decreases parts.len(),
{
    if parts.len() == 0 {
        Seq::empty()
    } else {
        selector_text(parts.skip(1)) + part_text(parts[0])
    }
}

/// Whether a selector with these elements matches the innermost node of the
/// chain.
pub open spec fn selector_matches(parts: Seq<Part>, chain: Seq<NodeModel>) -> bool {
    fits(parts, 0, chain)
}

impl SelectorElement {
    /// The element as it is written in a selector.
    pub fn to_string(&self) -> (r: String)
        ensures
            r@ == part_text(self@),
    {
        let mut out = String::new();
        proof {
            reveal_strlit(" ");
            reveal_strlit("#");
            reveal_strlit(".");
            reveal_strlit(":");
        }
        match self {
            SelectorElement::AnyChild => out.append(" "),
            SelectorElement::State(s) => {
                out.append(":");
                out.append(s.as_str());
            },
            SelectorElement::Tag(t) => out.append(t.as_str()),
            SelectorElement::Class(c) => {
                out.append(".");
                out.append(c.as_str());
            },
            SelectorElement::Id(i) => {
                out.append("#");
                out.append(i.as_str());
            },
        }
        out
    }
}

/// The place of a selector among those of a style sheet, used to order rules
/// of equal weight.
#[derive(Default)]
pub struct SelectorIndex(usize);

impl View for SelectorIndex {
    type V = usize;

    closed spec fn view(&self) -> usize {
        self.0
    }
}

impl SelectorIndex {
    pub fn new(value: usize) -> (r: SelectorIndex)
        ensures
            r@ == value,
    {
        SelectorIndex(value)
    }

    pub fn value(&self) -> (r: usize)
        ensures
            r == self@,
    {
        self.0
    }
}

/// A parsed selector: its elements innermost compound first, a weight for
/// ordering rules, and its place among the selectors of a style sheet.
pub struct Selector {
    pub index: SelectorIndex,
    pub weight: u32,
    pub elements: SelectorElements,
}

impl Selector {
    /// What the selector's elements stand for, innermost compound first.
    pub open spec fn parts(&self) -> Seq<Part> {
        parts_of(self.elements)
    }

    /// A selector made of these elements, at index 0 and of weight 0.
    pub fn new(elements: SelectorElements) -> (r: Selector)
        ensures
            r.elements == elements,
            r.weight == 0,
            r.index@ == 0,
    {
        Selector { elements, weight: 0, index: SelectorIndex::new(0) }
    }

    /// The entry at the innermost compound, the one matched first.
    pub fn tail(&self) -> (r: SelectorEntry<'_>)
        ensures
            r.parts() == self.parts(),
            r.offset() == 0,
    {
        SelectorEntry { offset: 0, elements: &self.elements }
    }

    /// Whether the innermost node of the branch satisfies the selector.
    pub fn matches<B: EmlBranch>(&self, branch: B) -> (r: bool)
        requires
            self.parts().len() > 0,
            branch.chain().len() > 0,
        ensures
            r == selector_matches(self.parts(), branch.chain()),
    {
        let slice = SelectorEntry::new(&self.elements);
        node_fits(&branch.tail(), &slice)
    }

    /// The selector as text, outermost compound first.
    pub fn to_string(&self) -> (r: String)
        ensures
            r@ == selector_text(self.parts()),
    {
        let mut result = String::new();
        let n = elements_len(&self.elements);
        let mut i = n;
        proof {
            assert(self.parts().skip(n as int) =~= Seq::<Part>::empty());
        }
        while i > 0
            invariant
                n == self.parts().len(),
                i <= n,
                result@ == selector_text(self.parts().skip(i as int)),
            decreases i,
        {
            let token = elements_at(&self.elements, i - 1).to_string();
            proof {
                assert(self.parts().skip(i - 1).skip(1) =~= self.parts().skip(i as int));
            }
            result.append(token.as_str());
            i -= 1;
        }
        proof {
            assert(self.parts().skip(0) =~= self.parts());
        }
        result
    }
}

/// Whether a compound starts at offset `k`: a predicate at the front or just
/// after a combinator.
pub open spec fn starts_compound(parts: Seq<Part>, k: int) -> bool {
    0 <= k < parts.len() && !(parts[k] is Combinator) && (k == 0 || parts[k - 1] is Combinator)
}

/// The offsets from `off` on at which compounds start, in increasing order.
pub open spec fn compound_starts(parts: Seq<Part>, off: int) -> Seq<int>
    decreases parts.len() - off,
{
    if off < 0 || off >= parts.len() {
        Seq::empty()
    } else if starts_compound(parts, off) {
        seq![off] + compound_starts(parts, off + 1)
    } else {
        compound_starts(parts, off + 1)
    }
}

/// Inside a compound no other compound starts.
proof fn lemma_starts_within(parts: Seq<Part>, start: int, j: int)
    requires
        0 <= start < j <= compound_end(parts, start) <= parts.len(),
        forall|k: int| start <= k < compound_end(parts, start) ==> !(#[trigger] parts[k] is Combinator),
    ensures
        compound_starts(parts, j) == compound_starts(parts, compound_end(parts, start)),
    decreases compound_end(parts, start) - j,
{
    if j < compound_end(parts, start) {
        lemma_starts_within(parts, start, j + 1);
    }
}

/// The entries that a `SelectorEntries` holds, in order.
pub uninterp spec fn listed_entries(v: SelectorEntries) -> Seq<SelectorEntry>;

/// The offsets of a list of entries.
pub open spec fn entry_offsets(es: Seq<SelectorEntry>) -> Seq<int> {
    es.map_values(|e: SelectorEntry| e.offset())
}

/// Entries of one selector, one for each compound, held inline while there are
/// few of them.
#[verifier::external_body]
pub struct SelectorEntries<'a> {
    inner: SmallVec<[SelectorEntry<'a>; 8]>,
}

/// Relies on SmallVec::new: the vector starts empty.
#[verifier::external_body]
fn entries_new<'a>() -> (r: SelectorEntries<'a>)
    ensures
        listed_entries(r) == Seq::<SelectorEntry>::empty(),
{
    SelectorEntries { inner: SmallVec::new() }
}

/// Relies on SmallVec::insert at index 0: the entry goes in front of the
/// others, which keep their order. The length must leave room for one more.
#[verifier::external_body]
fn entries_insert_front<'a>(v: &mut SelectorEntries<'a>, e: SelectorEntry<'a>)
    requires
        listed_entries(*old(v)).len() < usize::MAX,
    ensures
        listed_entries(*final(v)) == seq![e] + listed_entries(*old(v)),
{
    v.inner.insert(0, e)
}

/// Relies on SmallVec::len: the number of entries held.
#[verifier::external_body]
fn entries_len(v: &SelectorEntries) -> (r: usize)
    ensures
        r == listed_entries(*v).len(),
{
    v.inner.len()
}

/// Relies on SmallVec's indexing: the entry at position `i`.
#[verifier::external_body]
fn entries_at<'a, 'b>(v: &'b SelectorEntries<'a>, i: usize) -> (r: &'b SelectorEntry<'a>)
    requires
        i < listed_entries(*v).len(),
    ensures
        *r == listed_entries(*v)[i as int],
{
    &v.inner[i]
}

impl<'a> SelectorEntries<'a> {
    /// The number of entries.
    pub fn len(&self) -> (r: usize)
        ensures
            r == listed_entries(*self).len(),
    {
        entries_len(self)
    }

    /// The entry at position `i`.
    pub fn get(&self, i: usize) -> (r: &SelectorEntry<'a>)
        requires
            i < listed_entries(*self).len(),
        ensures
            *r == listed_entries(*self)[i as int],
    {
        entries_at(self, i)
    }
}

impl Selector {
    /// One entry for each compound, at the compound's first element, the
    /// outermost compound first.
    pub fn entries(&self) -> (r: SelectorEntries<'_>)
        ensures
            entry_offsets(listed_entries(r)) == compound_starts(self.parts(), 0).reverse(),
            forall|k: int|
                0 <= k < listed_entries(r).len() ==> (#[trigger] listed_entries(r)[k]).parts()
                    == self.parts(),
    {
        let mut entries = entries_new();
        let n = elements_len(&self.elements);
        if n == 0 {
            proof {
                assert(entry_offsets(listed_entries(entries)) =~= compound_starts(self.parts(), 0).reverse());
            }
            return entries;
        }
        let mut tail = Some(self.tail());
        let ghost parts = self.parts();
        while tail.is_some()
            invariant
                n == parts.len(),
                parts == self.parts(),
                listed_entries(entries).len() <= n,
                forall|k: int|
                    0 <= k < listed_entries(entries).len() ==> (#[trigger] listed_entries(
                        entries,
                    )[k]).parts() == parts,
                tail matches Some(t) ==> {
                    &&& t.parts() == parts
                    &&& 0 <= t.offset() < n
                    &&& t.current() is Combinator || starts_compound(parts, t.offset())
                    &&& entry_offsets(listed_entries(entries)).reverse() + compound_starts(
                        parts,
                        t.offset(),
                    ) == compound_starts(parts, 0)
                    &&& listed_entries(entries).len() <= t.offset()
                },
                tail is None ==> entry_offsets(listed_entries(entries)).reverse() == compound_starts(
                    parts,
                    0,
                ),
            decreases
                match tail {
                    Some(t) => n - t.offset() + 1,
                    None => 0,
                },
        {
            let entry = tail.unwrap();
            let ghost before = listed_entries(entries);
            let ghost cur = entry.offset();
            proof {
                lemma_compound_end(parts, cur);
            }
            tail = entry.next();
            if entry.is_value() {
                let ghost end = compound_end(parts, cur);
                proof {
                    if cur + 1 <= end {
                        lemma_starts_within(parts, cur, cur + 1);
                    }
                    if end < n {
                        if end + 1 <= n {
                            assert(!starts_compound(parts, end));
                        }
                    }
                }
                entries_insert_front(&mut entries, entry);
                proof {
                    assert(entry_offsets(listed_entries(entries)).reverse() =~= entry_offsets(
                        before,
                    ).reverse().push(cur));
                    assert(entry_offsets(listed_entries(entries)).reverse() + compound_starts(
                        parts,
                        end,
                    ) =~= entry_offsets(before).reverse() + compound_starts(parts, cur));
                    if end >= n {
                        assert(compound_starts(parts, end) =~= Seq::<int>::empty());
                        assert(entry_offsets(listed_entries(entries)).reverse() =~= entry_offsets(
                            listed_entries(entries),
                        ).reverse() + compound_starts(parts, end));
                    }
                }
            } else {
                proof {
                    if cur + 1 >= n {
                        assert(compound_starts(parts, cur + 1) =~= Seq::<int>::empty());
                        assert(entry_offsets(before).reverse() =~= entry_offsets(before).reverse()
                            + compound_starts(parts, cur + 1));
                    }
                }
            }
        }
        proof {
            assert(entry_offsets(listed_entries(entries)).reverse().reverse() =~= entry_offsets(
                listed_entries(entries),
            ));
        }
        entries
    }
}

} // verus!
