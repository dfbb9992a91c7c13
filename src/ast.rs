use vstd::prelude::*;
use crate::text::{apostrophes_to_spaces, clean_value, push_text, trim_seq};

verus! {

/// An attribute list: each name with its values, names kept in the order
/// in which they were first added.
pub struct Attributes {
    keys: Vec<String>,
    values: Vec<Vec<String>>,
}

/// One attribute name with the values added under it, as plain text.
pub type AttrEntry = (Seq<char>, Seq<Seq<char>>);

/// What `add` does to an attribute list: the value joins the list of its
/// name, or the name is appended with that one value.
pub open spec fn attrs_add(a: Seq<AttrEntry>, key: Seq<char>, value: Seq<char>) -> Seq<AttrEntry> {
    if exists|i: int| 0 <= i < a.len() && (#[trigger] a[i]).0 == key {
        let i = choose|i: int| 0 <= i < a.len() && (#[trigger] a[i]).0 == key;
        a.update(i, (key, a[i].1.push(value)))
    } else {
        a.push((key, seq![value]))
    }
}

/// No name occurs twice.
pub open spec fn keys_unique(a: Seq<AttrEntry>) -> bool {
    forall|i: int, j: int| 0 <= i < a.len() && 0 <= j < a.len() && i != j ==> (#[trigger] a[i]).0 != (#[trigger] a[j]).0
}

impl View for Attributes {
    type V = Seq<AttrEntry>;

    closed spec fn view(&self) -> Seq<AttrEntry> {
        Seq::new(self.keys@.len(), |i: int| (self.keys@[i]@, self.values@[i].deep_view()))
    }
}

impl Attributes {
    pub closed spec fn wf(&self) -> bool {
        &&& self.keys@.len() == self.values@.len()
        &&& keys_unique(self@)
    }

    /// In a well-formed attribute list no name occurs twice.
    pub proof fn lemma_wf_keys_unique(&self)
        requires
            self.wf(),
        ensures
            keys_unique(self@),
    {
    }

    pub fn new() -> (r: Attributes)
        ensures
            r.wf(),
            r@ == Seq::<AttrEntry>::empty(),
    {
        let r = Attributes { keys: Vec::new(), values: Vec::new() };
        assert(r@ =~= Seq::<AttrEntry>::empty());
        r
    }

    pub fn len(&self) -> (n: usize)
        requires
            self.wf(),
        ensures
            n == self@.len(),
    {
        self.keys.len()
    }

    /// The name of the `i`-th attribute.
    pub fn key_at(&self, i: usize) -> (k: &String)
        requires
            self.wf(),
            i < self@.len(),
        ensures
            k@ == self@[i as int].0,
    {
        &self.keys[i]
    }

    /// The values of the `i`-th attribute.
    pub fn values_at(&self, i: usize) -> (v: &Vec<String>)
        requires
            self.wf(),
            i < self@.len(),
        ensures
            v.deep_view() == self@[i as int].1,
    {
        &self.values[i]
    }

    /// Adds `value` under `key`, after the values already there.
    pub fn add(&mut self, key: String, value: String)
        requires
            old(self).wf(),
        ensures
            final(self).wf(),
            final(self)@ == attrs_add(old(self)@, key@, value@),
    {
        let ghost a = self@;
        let n = self.keys.len();
        let mut i: usize = 0;
        while i < n
            invariant
                self.wf(),
                self@ == a,
                a == old(self)@,
                n == a.len(),
                i <= n,
                forall|j: int| 0 <= j < i ==> (#[trigger] a[j]).0 != key@,
            decreases n - i,
        {
            if self.keys[i] == key {
                let mut list = Vec::new();
                std::mem::swap(&mut list, &mut self.values[i]);
                let ghost before = list.deep_view();
                list.push(value);
                assert(list.deep_view() =~= before.push(value@));
                std::mem::swap(&mut list, &mut self.values[i]);
                proof {
                    assert(a[i as int].0 == key@);
                    let k = choose|k: int| 0 <= k < a.len() && (#[trigger] a[k]).0 == key@;
                    assert(k == i);
                    assert(self@ =~= a.update(i as int, (key@, a[i as int].1.push(value@))));
                    assert(attrs_add(a, key@, value@) == a.update(i as int, (key@, a[i as int].1.push(value@))));
                }
                return;
            }
            i = i + 1;
        }
        self.keys.push(key);
        let mut list = Vec::new();
        list.push(value);
        self.values.push(list);
        proof {
            assert(list.deep_view() =~= seq![value@]);
            assert(self@ =~= a.push((key@, seq![value@])));
        }
    }

    /// The attribute names in order, each with its values.
    pub fn raw(&self) -> (r: (&Vec<String>, &Vec<Vec<String>>))
        requires
            self.wf(),
        ensures
            r.0@.len() == self@.len(),
            r.1@.len() == self@.len(),
            forall|i: int| 0 <= i < self@.len() ==> (#[trigger] r.0@[i])@ == self@[i].0 && r.1@[i].deep_view() == self@[i].1,
    {
        (&self.keys, &self.values)
    }
}

/// A block of style sheet text.
pub struct CssElement {
    pub text: String,
}

impl CssElement {
    pub fn new(text: String) -> (r: CssElement)
        ensures
            r.text@ == text@,
    {
        CssElement { text }
    }
}

/// An element: its tag, its attributes, the text that follows it on its own
/// line, and whether it closes itself.
pub struct HtmlElement {
    pub tag: String,
    pub attributes: Attributes,
    pub inline_text: String,
    pub self_close: bool,
}

/// What `add_attribute` stores for a value: apostrophes become spaces and
/// the ends are trimmed.
pub open spec fn cleaned(v: Seq<char>) -> Seq<char> {
    trim_seq(apostrophes_to_spaces(v))
}

impl HtmlElement {
    pub open spec fn wf(&self) -> bool {
        self.attributes.wf()
    }

    pub fn new(tag: String) -> (r: HtmlElement)
        ensures
            r.wf(),
            r.tag@ == tag@,
            r.attributes@ == Seq::<AttrEntry>::empty(),
            r.inline_text@ == Seq::<char>::empty(),
            !r.self_close,
    {
        HtmlElement { tag, attributes: Attributes::new(), inline_text: String::new(), self_close: false }
    }

    pub fn tag(&self) -> (r: &str)
        ensures
            r@ == self.tag@,
    {
        self.tag.as_str()
    }

    pub fn attributes(&self) -> (r: &Attributes)
        ensures
            r == &self.attributes,
    {
        &self.attributes
    }

    /// Adds an attribute value after cleaning it (see `cleaned`).
    pub fn add_attribute(&mut self, key: String, value: String)
        requires
            old(self).wf(),
        ensures
            final(self).wf(),
            final(self).attributes@ == attrs_add(old(self).attributes@, key@, cleaned(value@)),
            final(self).tag == old(self).tag,
            final(self).inline_text == old(self).inline_text,
            final(self).self_close == old(self).self_close,
    {
        let clean = clean_value(value.as_str());
        self.attributes.add(key, clean);
    }
}

/// What a node of the tree holds.
pub enum Html {
    Comment(String),
    Text(String),
    Doctype(String),
    Element(HtmlElement),
    SilentComment(String),
    Css(CssElement),
}

/// An element as plain values.
pub struct ElementView {
    pub tag: Seq<char>,
    pub attributes: Seq<AttrEntry>,
    pub inline_text: Seq<char>,
    pub self_close: bool,
}

/// What a node holds, as plain values.
pub enum NodeView {
    Comment(Seq<char>),
    Text(Seq<char>),
    Doctype(Seq<char>),
    Element(ElementView),
    SilentComment(Seq<char>),
    Css(Seq<char>),
}

impl View for HtmlElement {
    type V = ElementView;

    open spec fn view(&self) -> ElementView {
        ElementView {
            tag: self.tag@,
            attributes: self.attributes@,
            inline_text: self.inline_text@,
            self_close: self.self_close,
        }
    }
}

impl View for Html {
    type V = NodeView;

    open spec fn view(&self) -> NodeView {
        match self {
            Html::Comment(c) => NodeView::Comment(c@),
            Html::Text(t) => NodeView::Text(t@),
            Html::Doctype(d) => NodeView::Doctype(d@),
            Html::Element(el) => NodeView::Element(el@),
            Html::SilentComment(c) => NodeView::SilentComment(c@),
            Html::Css(c) => NodeView::Css(c.text@),
        }
    }
}

impl Html {
    pub open spec fn wf(&self) -> bool {
        match self {
            Html::Element(el) => el.wf(),
            _ => true,
        }
    }
}

/// A node of the tree: its parent, its next sibling, its children in source
/// order, what it holds, and the indentation of its line.
pub struct Node {
    pub parent: usize,
    pub next_sibling: Option<usize>,
    pub children: Vec<usize>,
    pub data: Html,
    pub indentation: usize,
}

impl Node {
    pub fn next_sibling(&self) -> (r: Option<usize>)
        ensures
            r == self.next_sibling,
    {
        self.next_sibling
    }

    pub fn children(&self) -> (r: &Vec<usize>)
        ensures
            r@ == self.children@,
    {
        &self.children
    }
}

/// The well-formed trees: node 0 is the root; every child comes after its
/// parent and names it as its parent; children are listed in the order in
/// which they were created; `next_sibling` links each child to the one that
/// follows it; and every node under a node other than the root is indented
/// deeper than that node.
pub open spec fn tree_wf(s: Seq<Node>) -> bool {
    &&& 1 <= s.len() <= usize::MAX
    &&& s[0].parent == 0
    &&& s[0].next_sibling is None
    &&& forall|i: int| 0 <= i < s.len() ==> (#[trigger] s[i]).data.wf()
    &&& forall|i: int| 1 <= i < s.len() ==> (#[trigger] s[i]).parent < i
    &&& forall|p: int, k: int|
        0 <= p < s.len() && 0 <= k < s[p].children@.len() ==> {
            let c = #[trigger] s[p].children@[k];
            &&& p < c < s.len()
            &&& s[c as int].parent == p
        }
    &&& forall|p: int, k1: int, k2: int|
        0 <= p < s.len() && 0 <= k1 < k2 < s[p].children@.len() ==> #[trigger] s[p].children@[k1]
            < #[trigger] s[p].children@[k2]
    &&& forall|p: int, k: int|
        0 <= p < s.len() && 0 <= k < s[p].children@.len() ==> s[(#[trigger] s[p].children@[k]) as int].next_sibling
            == if k + 1 < s[p].children@.len() {
            Some(s[p].children@[k + 1])
        } else {
            None::<usize>
        }
    &&& forall|i: int|
        1 <= i < s.len() && (#[trigger] s[i]).next_sibling is Some ==> s[s[i].parent as int].children@.contains(
            i as usize,
        )
    &&& forall|i: int|
        1 <= i < s.len() && (#[trigger] s[i]).parent != 0 ==> s[i].indentation > s[s[i].parent as int].indentation
}

/// Every node but the root is listed among its parent's children.
pub open spec fn all_linked(s: Seq<Node>) -> bool {
    forall|i: int| 1 <= i < s.len() ==> s[(#[trigger] s[i]).parent as int].children@.contains(i as usize)
}

/// A node that is in no list of children yet.
pub open spec fn unlinked(s: Seq<Node>, i: int) -> bool {
    &&& 1 <= i < s.len()
    &&& s[i].parent == 0
    &&& !s[0].children@.contains(i as usize)
}

/// Going up from `id` (itself included), the first node that is the root or
/// is indented less than `indent`.
pub open spec fn ancestor_at(s: Seq<Node>, id: int, indent: int) -> int
    decreases id,
{
    if id <= 0 || id >= s.len() || s[id].indentation < indent || s[id].parent >= id {
        id
    } else {
        ancestor_at(s, s[id].parent as int, indent)
    }
}

/// The tree of nodes, kept in one vector and addressed by index.
pub struct Arena {
    nodes: Vec<Node>,
}

impl View for Arena {
    type V = Seq<Node>;

    closed spec fn view(&self) -> Seq<Node> {
        self.nodes@
    }
}

impl Arena {
    pub open spec fn wf(&self) -> bool {
        tree_wf(self@)
    }

    /// A tree that holds only the root.
    pub fn new() -> (r: Arena)
        ensures
            r.wf(),
            all_linked(r@),
            r@.len() == 1,
            r@[0].children@.len() == 0,
    {
        let root = Node {
            parent: 0,
            next_sibling: None,
            children: Vec::new(),
            data: Html::SilentComment(String::new()),
            indentation: 0,
        };
        let mut nodes = Vec::new();
        nodes.push(root);
        Arena { nodes }
    }

    pub fn len(&self) -> (n: usize)
        ensures
            n == self@.len(),
    {
        self.nodes.len()
    }

    /// Creates a node that is not yet attached to the tree.
    pub fn new_node(&mut self, data: Html, indentation: usize) -> (id: usize)
        requires
            old(self).wf(),
            data.wf(),
            old(self)@.len() < usize::MAX,
        ensures
            final(self).wf(),
            id == old(self)@.len(),
            final(self)@.len() == old(self)@.len() + 1,
            forall|i: int| 0 <= i < id ==> final(self)@[i] == old(self)@[i],
            final(self)@[id as int].data == data,
            final(self)@[id as int].indentation == indentation,
            final(self)@[id as int].children@.len() == 0,
            unlinked(final(self)@, id as int),
    {
        let id = self.nodes.len();
        let node = Node { parent: 0, next_sibling: None, children: Vec::new(), data, indentation };
        self.nodes.push(node);
        proof {
            let s = self@;
            let o = old(self)@;
            assert forall|p: int, k: int| 0 <= p < s.len() && 0 <= k < s[p].children@.len() implies {
                let c = #[trigger] s[p].children@[k];
                &&& p < c < s.len()
                &&& s[c as int].parent == p
            } by {
                assert(s[p] == o[p]);
            }
            if s[0].children@.contains(id) {
                let k = choose|k: int| 0 <= k < s[0].children@.len() && s[0].children@[k] == id;
                assert(s[0].children@[k] < o.len());
            }
        }
        id
    }

    /// Attaches the unattached node `child_id` as the last child of
    /// `parent_id`, after the children already there.
    pub fn add_child(&mut self, child_id: usize, parent_id: usize)
        requires
            old(self).wf(),
            parent_id < child_id,
            unlinked(old(self)@, child_id as int),
            old(self)@[parent_id as int].children@.len() > 0 ==> old(self)@[parent_id as int].children@.last()
                < child_id,
            parent_id != 0 ==> old(self)@[child_id as int].indentation > old(self)@[parent_id as int].indentation,
        ensures
            final(self).wf(),
            final(self)@.len() == old(self)@.len(),
            linked_as_last(old(self)@, final(self)@, child_id as int, parent_id as int),
    {
        let ghost o = self@;
        let n = self.nodes[parent_id].children.len();
        if n > 0 {
            let last = self.nodes[parent_id].children[n - 1];
            self.nodes[last].next_sibling = Some(child_id);
        }
        self.nodes[parent_id].children.push(child_id);
        self.nodes[child_id].parent = parent_id;
        proof {
            lemma_link_keeps_wf(o, self@, child_id as int, parent_id as int);
        }
    }

    /// Attaches the unattached node `sibling_id` right after `current_id`,
    /// which must be the last child of its parent.
    pub fn add_sibling(&mut self, current_id: usize, sibling_id: usize)
        requires
            old(self).wf(),
            1 <= current_id < sibling_id,
            unlinked(old(self)@, sibling_id as int),
            old(self)@[old(self)@[current_id as int].parent as int].children@.len() > 0,
            old(self)@[old(self)@[current_id as int].parent as int].children@.last() == current_id,
            old(self)@[current_id as int].parent != 0 ==> old(self)@[sibling_id as int].indentation
                > old(self)@[old(self)@[current_id as int].parent as int].indentation,
        ensures
            final(self).wf(),
            final(self)@.len() == old(self)@.len(),
            linked_as_last(old(self)@, final(self)@, sibling_id as int, old(self)@[current_id as int].parent as int),
            final(self)@[current_id as int].next_sibling == Some(sibling_id),
    {
        let parent_id = self.nodes[current_id].parent;
        self.add_child(sibling_id, parent_id);
    }

    pub fn parent(&self, id: usize) -> (r: usize)
        requires
            id < self@.len(),
        ensures
            r == self@[id as int].parent,
    {
        self.nodes[id].parent
    }

    pub fn node_at(&self, id: usize) -> (r: &Node)
        requires
            id < self@.len(),
        ensures
            *r == self@[id as int],
    {
        &self.nodes[id]
    }

    /// The node at `i`.
    pub fn item(&self, i: usize) -> (r: &Node)
        requires
            i < self@.len(),
        ensures
            *r == self@[i as int],
    {
        &self.nodes[i]
    }

    /// The root node.
    pub fn root(&self) -> (r: &Node)
        requires
            self.wf(),
        ensures
            *r == self@[0],
    {
        &self.nodes[0]
    }

    /// The children of node `i`, in source order.
    pub fn children_of(&self, i: usize) -> (r: &Vec<usize>)
        requires
            i < self@.len(),
        ensures
            r@ == self@[i as int].children@,
    {
        &self.nodes[i].children
    }

    /// Going up from `id`, itself included, the first node that is the root
    /// or is indented less than `indent`.
    pub fn ancestor_at_indent(&self, id: usize, indent: usize) -> (r: usize)
        requires
            self.wf(),
            id < self@.len(),
        ensures
            r == ancestor_at(self@, id as int, indent as int),
            r == 0 || self@[r as int].indentation < indent,
            r <= id,
    {
        let mut cur = id;
        while cur > 0 && self.nodes[cur].indentation >= indent
            invariant
                self.wf(),
                cur <= id < self@.len(),
                ancestor_at(self@, cur as int, indent as int) == ancestor_at(self@, id as int, indent as int),
            decreases cur,
        {
            cur = self.nodes[cur].parent;
        }
        cur
    }

    /// Creates a node and attaches it as the last child of `parent`.
    pub fn insert(&mut self, data: Html, indentation: usize, parent: usize) -> (id: usize)
        requires
            old(self).wf(),
            data.wf(),
            parent < old(self)@.len() < usize::MAX,
            parent != 0 ==> indentation > old(self)@[parent as int].indentation,
        ensures
            final(self).wf(),
            all_linked(old(self)@) ==> all_linked(final(self)@),
            id == old(self)@.len(),
            final(self)@.len() == old(self)@.len() + 1,
            final(self)@[id as int].data == data,
            final(self)@[id as int].indentation == indentation,
            final(self)@[id as int].parent == parent,
            final(self)@[id as int].children@.len() == 0,
            final(self)@[parent as int].children@ == old(self)@[parent as int].children@.push(id),
            forall|i: int| 0 <= i < old(self)@.len() ==> (#[trigger] final(self)@[i]).indentation == old(self)@[i].indentation
                && final(self)@[i].parent == old(self)@[i].parent && final(self)@[i].data == old(self)@[i].data,
            forall|i: int| 0 <= i < old(self)@.len() && i != parent ==> (#[trigger] final(self)@[i]).children == old(self)@[i].children,
    {
        let ghost o = self@;
        let id = self.new_node(data, indentation);
        let ghost m = self@;
        proof {
            if o[parent as int].children@.len() > 0 {
                assert(o[parent as int].children@[o[parent as int].children@.len() - 1] < o.len());
            }
        }
        self.add_child(id, parent);
        proof {
            let s = self@;
            if all_linked(o) {
                assert forall|i: int| 1 <= i < s.len() implies s[(#[trigger] s[i]).parent as int].children@.contains(i as usize) by {
                    if i == id {
                        assert(s[parent as int].children@.last() == id);
                    } else {
                        assert(o[(o[i]).parent as int].children@.contains(i as usize));
                        let k = choose|k: int| 0 <= k < o[o[i].parent as int].children@.len() && o[o[i].parent as int].children@[k] == i as usize;
                        if o[i].parent == parent {
                            assert(s[parent as int].children@[k] == i);
                        } else {
                            assert(s[o[i].parent as int].children@[k] == i);
                        }
                    }
                }
            }
        }
        id
    }
}

/// `t` is `s` with node `c` attached as the last child of `p`: the children
/// of `p` gain `c`, `c` names `p` as its parent, the former last child of `p`
/// now points to `c`, and nothing else changes.
pub open spec fn linked_as_last(s: Seq<Node>, t: Seq<Node>, c: int, p: int) -> bool {
    let kids = s[p].children@;
    &&& t.len() == s.len()
    &&& t[p].children@ == kids.push(c as usize)
    &&& t[c].parent == p as usize
    &&& kids.len() > 0 ==> t[kids.last() as int].next_sibling == Some(c as usize)
    &&& forall|i: int| 0 <= i < s.len() ==> (#[trigger] t[i]).data == s[i].data && t[i].indentation == s[i].indentation
    &&& forall|i: int| 0 <= i < s.len() && i != c ==> (#[trigger] t[i]).parent == s[i].parent
    &&& forall|i: int| 0 <= i < s.len() && i != p ==> (#[trigger] t[i]).children == s[i].children
    &&& forall|i: int|
        0 <= i < s.len() && (kids.len() == 0 || i != kids.last()) ==> (#[trigger] t[i]).next_sibling == s[i].next_sibling
}

proof fn lemma_link_keeps_wf(s: Seq<Node>, t: Seq<Node>, c: int, p: int)
    requires
        tree_wf(s),
        0 <= p < c,
        unlinked(s, c),
        s[p].children@.len() > 0 ==> s[p].children@.last() < c,
        p != 0 ==> s[c].indentation > s[p].indentation,
        linked_as_last(s, t, c, p),
    ensures
        tree_wf(t),
{
    let kids = s[p].children@;
    assert forall|q: int, k: int| 0 <= q < t.len() && 0 <= k < t[q].children@.len() implies {
        let d = #[trigger] t[q].children@[k];
        &&& q < d < t.len()
        &&& t[d as int].parent == q
    } by {
        if q == p && k == kids.len() {
            assert(t[p].children@[k] == c);
        } else {
            assert(t[q].children@[k] == s[q].children@[k]);
            let d = s[q].children@[k];
            if q == p && k < kids.len() - 1 {
                assert(s[p].children@[k] < s[p].children@[kids.len() - 1]);
            }
            if d as int == c {
                assert(s[q].children@[k] == c);
                assert(s[c].parent == q);
                assert(s[0].children@[k] == c);
                assert(s[0].children@.contains(c as usize));
            }
        }
    }
    assert forall|q: int, k1: int, k2: int|
        0 <= q < t.len() && 0 <= k1 < k2 < t[q].children@.len() implies #[trigger] t[q].children@[k1]
            < #[trigger] t[q].children@[k2] by {
        if q == p && k2 == kids.len() {
            assert(s[p].children@[k1] <= kids.last());
        } else {
            assert(t[q].children@[k1] == s[q].children@[k1]);
            assert(t[q].children@[k2] == s[q].children@[k2]);
        }
    }
    assert forall|q: int, k: int| 0 <= q < t.len() && 0 <= k < t[q].children@.len() implies t[(
    #[trigger] t[q].children@[k]) as int].next_sibling == if k + 1 < t[q].children@.len() {
        Some(t[q].children@[k + 1])
    } else {
        None::<usize>
    } by {
        let d = t[q].children@[k];
        if q == p {
            if k == kids.len() {
                // c itself: unlinked nodes carry no sibling in a well-formed tree
                if s[c].next_sibling is Some {
                    assert(s[0].children@.contains(c as usize));
                }
            } else if k == kids.len() - 1 {
            } else {
                assert(s[p].children@[k] == d);
                assert(d != kids.last());
                assert(s[p].children@[k] < s[p].children@[kids.len() - 1]);
            }
        } else {
            assert(s[q].children@[k] == d);
            if kids.len() > 0 && d == kids.last() {
                assert(s[d as int].parent == p);
                assert(s[d as int].parent == q);
            }
            if d as int == c {
                assert(s[0].children@[k] == c);
                assert(s[0].children@.contains(c as usize));
            }
            if k + 1 < s[q].children@.len() {
                assert(t[q].children@[k + 1] == s[q].children@[k + 1]);
            }
        }
    }
    assert forall|i: int| 1 <= i < t.len() && (#[trigger] t[i]).next_sibling is Some implies t[t[i].parent as int].children@.contains(
        i as usize,
    ) by {
        if i == c {
            assert(t[p].children@[kids.len() as int] == c);
        } else if kids.len() > 0 && i == kids.last() {
            assert(t[p].children@[kids.len() - 1] == i);
            assert(s[i].parent == p);
        } else {
            let q = s[i].parent as int;
            assert(s[q].children@.contains(i as usize));
            let k = choose|k: int| 0 <= k < s[q].children@.len() && s[q].children@[k] == i as usize;
            if q == p {
                assert(t[p].children@[k] == kids[k]);
            } else {
                assert(t[q].children == s[q].children);
            }
            assert(t[q].children@[k] == i);
        }
    }
}

/// How a node reads in a tree dump: its kind, a colon, and what it holds.
pub open spec fn payload_ast(id: int, h: Html) -> Seq<char> {
    if id == 0 {
        "root:"@
    } else {
        match h {
            Html::Element(el) => "element:"@ + el.tag@,
            Html::Text(t) => "text:"@ + t@,
            Html::Comment(c) => "comment:"@ + c@,
            Html::Doctype(d) => "doctype:"@ + d@,
            Html::SilentComment(c) => "silent:"@ + c@,
            Html::Css(c) => "css:"@ + c.text@,
        }
    }
}

/// `n` tab characters.
pub open spec fn tabs(n: nat) -> Seq<char> {
    Seq::new(n, |i: int| '\t')
}

/// The dump of node `id` and everything under it, one line per node,
/// indented by one tab per level.
pub open spec fn node_ast(s: Seq<Node>, id: int, depth: nat) -> Seq<char>
    decreases s.len() - id, 1int, 0int,
{
    if id < 0 || id >= s.len() {
        seq![]
    } else {
        tabs(depth) + payload_ast(id, s[id].data) + seq!['\n'] + children_ast(
            s,
            id,
            s[id].children@.len() as int,
            depth + 1,
        )
    }
}

/// The dumps of the first `k` children of node `p`.
pub open spec fn children_ast(s: Seq<Node>, p: int, k: int, depth: nat) -> Seq<char>
    decreases s.len() - p, 0int, k,
{
    if k <= 0 || p < 0 || p >= s.len() || k > s[p].children@.len() {
        seq![]
    } else {
        let c = s[p].children@[k - 1] as int;
        if c <= p || c >= s.len() {
            seq![]
        } else {
            children_ast(s, p, k - 1, depth) + node_ast(s, c, depth)
        }
    }
}

fn payload_to_ast(id: usize, h: &Html) -> (r: String)
    ensures
        r@ == payload_ast(id as int, *h),
{
    if id == 0 {
        return String::from_str("root:");
    }
    let (kind, text) = match h {
        Html::Element(el) => ("element:", el.tag.as_str()),
        Html::Text(t) => ("text:", t.as_str()),
        Html::Comment(c) => ("comment:", c.as_str()),
        Html::Doctype(d) => ("doctype:", d.as_str()),
        Html::SilentComment(c) => ("silent:", c.as_str()),
        Html::Css(c) => ("css:", c.text.as_str()),
    };
    let mut r = String::from_str(kind);
    push_text(&mut r, text);
    r
}

impl Arena {
    /// The dump of node `id` and everything under it, starting at `depth`
    /// tabs.
    fn node_to_ast(&self, id: usize, depth: usize) -> (r: String)
        requires
            self.wf(),
            depth <= id < self@.len(),
        ensures
            r@ == node_ast(self@, id as int, depth as nat),
        decreases self@.len() - id,
    {
        let ghost s = self@;
        let mut out = String::new();
        let mut t: usize = 0;
        while t < depth
            invariant
                t <= depth,
                out@ == tabs(t as nat),
            decreases depth - t,
        {
            push_text(&mut out, "\t");
            proof {
                reveal_strlit("\t");
            }
            assert(out@ =~= tabs((t + 1) as nat));
            t = t + 1;
        }
        let node = self.node_at(id);
        let line = payload_to_ast(id, &node.data);
        push_text(&mut out, line.as_str());
        push_text(&mut out, "\n");
        proof {
            reveal_strlit("\n");
        }
        let ghost head = out@;
        let n = node.children.len();
        let mut k: usize = 0;
        let mut kids = String::new();
        while k < n
            invariant
                self.wf(),
                s == self@,
                depth <= id < s.len(),
                *node == s[id as int],
                n == s[id as int].children@.len(),
                k <= n,
                kids@ == children_ast(s, id as int, k as int, (depth + 1) as nat),
            decreases n - k,
        {
            let c = node.children[k];
            proof {
                assert(id < c < s.len());
            }
            let part = self.node_to_ast(c, depth + 1);
            push_text(&mut kids, part.as_str());
            k = k + 1;
        }
        push_text(&mut out, kids.as_str());
        assert(out@ =~= node_ast(s, id as int, depth as nat));
        out
    }

    /// A dump of the whole tree, one `kind:payload` line per node, indented
    /// by depth.
    pub fn to_ast(&self) -> (r: String)
        requires
            self.wf(),
        ensures
            r@ == node_ast(self@, 0, 0),
    {
        self.node_to_ast(0, 0)
    }
}

} // verus!
