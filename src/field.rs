use crate::text::{trim, trim_bounds};
use std::ops::Range;
use vstd::prelude::*;
use vstd::slice::slice_subrange;
use vstd::string::StringSliceAdditionalSpecFns;

verus! {

/// Where a value sits inside its field when it is narrower than the field.
#[derive(Debug, Clone, Copy, PartialEq, Eq, Structural)]
pub enum Justify {
    /// Content first, padding after it.
    Left,
    /// Padding first, content after it.
    Right,
}

/// A byte with ASCII capitals made small.
pub open spec fn ascii_lower(b: u8) -> u8 {
    if 65 <= b <= 90 {
        (b + 32) as u8
    } else {
        b
    }
}

/// `t` spells `word` (in small letters), ignoring ASCII case.
pub open spec fn spells(t: Seq<u8>, word: Seq<u8>) -> bool {
    t.len() == word.len() && forall|i: int| 0 <= i < t.len() ==> ascii_lower(#[trigger] t[i]) == word[i]
}

fn spells_exec(t: &[u8], word: &[u8]) -> (r: bool)
    ensures
        r == spells(t@, word@),
{
    if t.len() != word.len() {
        return false;
    }
    let mut i: usize = 0;
    while i < t.len()
        invariant
            t@.len() == word@.len(),
            i <= t@.len(),
            forall|k: int| 0 <= k < i ==> ascii_lower(#[trigger] t@[k]) == word@[k],
        decreases t@.len() - i,
    {
        let b = t[i];
        let l = if 65 <= b && b <= 90 {
            b + 32
        } else {
            b
        };
        if l != word[i] {
            return false;
        }
        i += 1;
    }
    true
}

impl Justify {
    /// Reads a justification from its name, `left` or `right`, in any ASCII case and with
    /// surrounding whitespace.
    pub fn from_name(s: &str) -> (r: Option<Justify>)
        ensures
            r == (if spells(trim(s.spec_bytes()), seq![114u8, 105, 103, 104, 116]) {
                Some(Justify::Right)
            } else if spells(trim(s.spec_bytes()), seq![108u8, 101, 102, 116]) {
                Some(Justify::Left)
            } else {
                None
            }),
    {
        let b = s.as_bytes();
        let (i, j) = trim_bounds(b);
        let t = slice_subrange(b, i, j);
        let right: Vec<u8> = vec![114u8, 105, 103, 104, 116];
        let left: Vec<u8> = vec![108u8, 101, 102, 116];
        proof {
            assert(right@ =~= seq![114u8, 105, 103, 104, 116]);
            assert(left@ =~= seq![108u8, 101, 102, 116]);
        }
        if spells_exec(t, right.as_slice()) {
            Some(Justify::Right)
        } else if spells_exec(t, left.as_slice()) {
            Some(Justify::Left)
        } else {
            None
        }
    }
}

/// The mathematical content of one field descriptor.
pub struct FieldView {
    pub name: Option<Seq<char>>,
    pub start: usize,
    pub end: usize,
    pub pad_with: char,
    pub justify: Justify,
}

/// One addressable slot of a record: a half-open byte range, an optional name, the
/// character used for padding and the justification.
#[derive(Debug)]
pub struct FieldConfig {
    name: Option<String>,
    start: usize,
    end: usize,
    pad_with: char,
    justify: Justify,
}

impl View for FieldConfig {
    type V = FieldView;

    closed spec fn view(&self) -> FieldView {
        FieldView {
            name: match self.name {
                Some(s) => Some(s@),
                None => None,
            },
            start: self.start,
            end: self.end,
            pad_with: self.pad_with,
            justify: self.justify,
        }
    }
}

impl Clone for FieldConfig {
    fn clone(&self) -> (r: FieldConfig)
        ensures
            r@ == self@,
    {
        proof {
            use_type_invariant(self);
        }
        FieldConfig {
            name: self.name.clone(),
            start: self.start,
            end: self.end,
            pad_with: self.pad_with,
            justify: self.justify,
        }
    }
}

impl FieldConfig {
    #[verifier::type_invariant]
    spec fn well_formed(&self) -> bool {
        self.start <= self.end
    }

    /// A field over `range`, unnamed, padded with spaces and left-justified.
    pub fn new(range: Range<usize>) -> (r: FieldConfig)
        requires
            range.start <= range.end,
        ensures
            r@ == (FieldView {
                name: None,
                start: range.start,
                end: range.end,
                pad_with: ' ',
                justify: Justify::Left,
            }),
    {
        FieldConfig {
            name: None,
            start: range.start,
            end: range.end,
            pad_with: ' ',
            justify: Justify::Left,
        }
    }

    /// The number of bytes the field spans.
    pub fn width(&self) -> (r: usize)
        ensures
            self@.start <= self@.end,
            r == self@.end - self@.start,
    {
        proof {
            use_type_invariant(self);
        }
        self.end - self.start
    }

    /// The field's name, if it has one.
    pub fn name(&self) -> (r: &Option<String>)
        ensures
            match *r {
                Some(s) => self@.name == Some(s@),
                None => self@.name is None,
            },
    {
        &self.name
    }

    /// The field's byte range.
    pub fn range(&self) -> (r: Range<usize>)
        ensures
            r.start == self@.start,
            r.end == self@.end,
    {
        Range { start: self.start, end: self.end }
    }

    /// The character used to pad the field.
    pub fn pad_with(&self) -> (r: char)
        ensures
            r == self@.pad_with,
    {
        self.pad_with
    }

    /// The justification of the field.
    pub fn justify(&self) -> (r: Justify)
        ensures
            r == self@.justify,
    {
        self.justify
    }
}


impl FieldConfig {
    /// The same field with every setting but the name kept.
    fn renamed(self, name: String) -> (r: FieldConfig)
        ensures
            r@ == (FieldView { name: Some(name@), ..self@ }),
    {
        proof {
            use_type_invariant(&self);
        }
        FieldConfig { name: Some(name), ..self }
    }

    /// The same field with the pad character and the justification given where they are
    /// given.
    fn restyled(self, pad: Option<char>, justify: Option<Justify>) -> (r: FieldConfig)
        ensures
            r@ == restyle(self@, pad, justify),
    {
        proof {
            use_type_invariant(&self);
        }
        let pad_with = match pad {
            Some(c) => c,
            None => self.pad_with,
        };
        let justify = match justify {
            Some(j) => j,
            None => self.justify,
        };
        FieldConfig { pad_with, justify, ..self }
    }
}

/// A field with the pad character and the justification replaced where they are given.
pub open spec fn restyle(f: FieldView, pad: Option<char>, justify: Option<Justify>) -> FieldView {
    FieldView {
        pad_with: match pad {
            Some(c) => c,
            None => f.pad_with,
        },
        justify: match justify {
            Some(j) => j,
            None => f.justify,
        },
        ..f
    }
}

/// A tree of field descriptors: one field, or an ordered group of trees.
#[derive(Debug)]
pub enum FieldSet {
    /// A single field.
    Item(FieldConfig),
    /// An ordered group of field sets.
    Sequence(Vec<FieldSet>),
}

impl Clone for FieldSet {
    fn clone(&self) -> (r: FieldSet)
        ensures
            r.tree() == self.tree(),
        decreases self,
    {
        match self {
            FieldSet::Item(c) => {
                let d = c.clone();
                assert(d@ == c@);
                FieldSet::Item(d)
            },
            FieldSet::Sequence(v) => {
                let mut out: Vec<FieldSet> = Vec::new();
                let mut i: usize = 0;
                while i < v.len()
                    invariant
                        *self == FieldSet::Sequence(*v),
                        i <= v@.len(),
                        trees(out@) == trees(v@.subrange(0, i as int)),
                    decreases v@.len() - i,
                {
                    proof {
                        assert(decreases_to!(*self => self->Sequence_0));
                        assert(decreases_to!(*v => v@));
                    }
                    let c = v[i].clone();
                    let ghost prev = out@;
                    out.push(c);
                    proof {
                        assert(out@.drop_last() =~= prev);
                        assert(v@.subrange(0, i + 1).drop_last() =~= v@.subrange(0, i as int));
                    }
                    i += 1;
                }
                proof {
                    assert(v@.subrange(0, v@.len() as int) =~= v@);
                }
                FieldSet::Sequence(out)
            },
        }
    }
}

/// A field tree as plain values.
pub enum FieldTree {
    Leaf(FieldView),
    Node(Seq<FieldTree>),
}

impl FieldSet {
    /// The tree of field views this field set describes.
    pub open spec fn tree(self) -> FieldTree
        decreases self,
    {
        match self {
            FieldSet::Item(c) => FieldTree::Leaf(c@),
            FieldSet::Sequence(v) => FieldTree::Node(trees(v@)),
        }
    }
}

/// The trees of a list of field sets, in order.
pub open spec fn trees(s: Seq<FieldSet>) -> Seq<FieldTree>
    decreases s,
{
    if s.len() == 0 {
        seq![]
    } else {
        trees(s.drop_last()).push(s.last().tree())
    }
}

/// The fields of a tree in depth-first, left-to-right order.
pub open spec fn flat(t: FieldTree) -> Seq<FieldView>
    decreases t,
{
    match t {
        FieldTree::Leaf(f) => seq![f],
        FieldTree::Node(s) => flat_all(s),
    }
}

/// The fields of a list of trees, each flattened, joined in order.
pub open spec fn flat_all(s: Seq<FieldTree>) -> Seq<FieldView>
    decreases s,
{
    if s.len() == 0 {
        seq![]
    } else {
        flat_all(s.drop_last()) + flat(s.last())
    }
}

/// A tree with every field restyled.
pub open spec fn restyle_tree(t: FieldTree, pad: Option<char>, justify: Option<Justify>) -> FieldTree
    decreases t,
{
    match t {
        FieldTree::Leaf(f) => FieldTree::Leaf(restyle(f, pad, justify)),
        FieldTree::Node(s) => FieldTree::Node(restyle_all(s, pad, justify)),
    }
}

/// A list of trees with every field restyled.
pub open spec fn restyle_all(s: Seq<FieldTree>, pad: Option<char>, justify: Option<Justify>) -> Seq<
    FieldTree,
>
    decreases s,
{
    if s.len() == 0 {
        seq![]
    } else {
        restyle_all(s.drop_last(), pad, justify).push(restyle_tree(s.last(), pad, justify))
    }
}

/// The views of a list of field descriptors.
pub open spec fn views(s: Seq<FieldConfig>) -> Seq<FieldView> {
    s.map_values(|c: FieldConfig| c@)
}

/// The top-level members of a tree: a group's members, or the field itself.
pub open spec fn members(t: FieldTree) -> Seq<FieldTree> {
    match t {
        FieldTree::Leaf(_) => seq![t],
        FieldTree::Node(s) => s,
    }
}


/// The number of nodes of a tree, leaves and groups alike.
pub open spec fn size(t: FieldTree) -> nat
    decreases t,
{
    match t {
        FieldTree::Leaf(_) => 1,
        FieldTree::Node(s) => 1 + size_all(s),
    }
}

/// The number of nodes of a list of trees.
pub open spec fn size_all(s: Seq<FieldTree>) -> nat
    decreases s,
{
    if s.len() == 0 {
        0
    } else {
        size_all(s.drop_last()) + size(s.last())
    }
}

/// The fields still to be visited by a depth-first walk whose pending groups are `st`,
/// the innermost last.
pub open spec fn flat_stack(st: Seq<Vec<FieldSet>>) -> Seq<FieldView>
    decreases st.len(),
{
    if st.len() == 0 {
        seq![]
    } else {
        flat_all(trees(st.last()@)) + flat_stack(st.drop_last())
    }
}

/// The number of nodes still to be visited by such a walk.
pub open spec fn size_stack(st: Seq<Vec<FieldSet>>) -> nat
    decreases st.len(),
{
    if st.len() == 0 {
        0
    } else {
        size_all(trees(st.last()@)) + size_stack(st.drop_last())
    }
}

proof fn lemma_trees_concat(a: Seq<FieldSet>, b: Seq<FieldSet>)
    ensures
        trees(a + b) == trees(a) + trees(b),
    decreases b.len(),
{
    if b.len() == 0 {
        assert(a + b =~= a);
        assert(trees(a) + trees(b) =~= trees(a));
    } else {
        lemma_trees_concat(a, b.drop_last());
        assert((a + b).drop_last() =~= a + b.drop_last());
        assert(trees(a) + trees(b) =~= (trees(a) + trees(b.drop_last())).push(b.last().tree()));
    }
}

proof fn lemma_flat_all_concat(a: Seq<FieldTree>, b: Seq<FieldTree>)
    ensures
        flat_all(a + b) == flat_all(a) + flat_all(b),
    decreases b.len(),
{
    if b.len() == 0 {
        assert(a + b =~= a);
        assert(flat_all(a) + flat_all(b) =~= flat_all(a));
    } else {
        lemma_flat_all_concat(a, b.drop_last());
        assert((a + b).drop_last() =~= a + b.drop_last());
        assert(flat_all(a) + flat_all(b) =~= flat_all(a) + flat_all(b.drop_last()) + flat(
            b.last(),
        ));
    }
}

proof fn lemma_size_all_concat(a: Seq<FieldTree>, b: Seq<FieldTree>)
    ensures
        size_all(a + b) == size_all(a) + size_all(b),
    decreases b.len(),
{
    if b.len() == 0 {
        assert(a + b =~= a);
    } else {
        lemma_size_all_concat(a, b.drop_last());
        assert((a + b).drop_last() =~= a + b.drop_last());
    }
}

proof fn lemma_trees_one(x: FieldSet)
    ensures
        trees(seq![x]) == seq![x.tree()],
        flat_all(seq![x.tree()]) == flat(x.tree()),
        size_all(seq![x.tree()]) == size(x.tree()),
{
    assert(seq![x].drop_last() =~= Seq::<FieldSet>::empty());
    assert(seq![x.tree()].drop_last() =~= Seq::<FieldTree>::empty());
    assert(trees(Seq::<FieldSet>::empty()) =~= Seq::<FieldTree>::empty());
    assert(flat_all(Seq::<FieldTree>::empty()) =~= Seq::<FieldView>::empty());
    assert(size_all(Seq::<FieldTree>::empty()) == 0);
    assert(trees(seq![x]) =~= seq![x.tree()]);
    assert(flat_all(seq![x.tree()]) =~= flat(x.tree()));
}

proof fn lemma_trees_push(s: Seq<FieldSet>, x: FieldSet)
    ensures
        trees(s.push(x)) == trees(s).push(x.tree()),
{
    assert(s.push(x).drop_last() =~= s);
}

impl FieldSet {
    /// A single unnamed field over `range`, padded with spaces and left-justified.
    pub fn new_field(range: Range<usize>) -> (r: FieldSet)
        requires
            range.start <= range.end,
        ensures
            r.tree() == FieldTree::Leaf(
                FieldView {
                    name: None,
                    start: range.start,
                    end: range.end,
                    pad_with: ' ',
                    justify: Justify::Left,
                },
            ),
    {
        FieldSet::Item(FieldConfig::new(range))
    }

    /// Names this field. A group has no single name, so only a single field can be named.
    pub fn name(self, val: &str) -> (r: FieldSet)
        requires
            self is Item,
        ensures
            r.tree() == FieldTree::Leaf(
                FieldView { name: Some(val@), ..self->Item_0@ },
            ),
    {
        match self {
            FieldSet::Item(c) => FieldSet::Item(c.renamed(val.to_owned())),
            FieldSet::Sequence(_) => self,
        }
    }

    /// Sets the pad character of every field of this set.
    pub fn pad_with(self, val: char) -> (r: FieldSet)
        ensures
            r.tree() == restyle_tree(self.tree(), Some(val), None),
    {
        self.restyle(Some(val), None)
    }

    /// Sets the justification of every field of this set.
    pub fn justify(self, val: Justify) -> (r: FieldSet)
        ensures
            r.tree() == restyle_tree(self.tree(), None, Some(val)),
    {
        self.restyle(None, Some(val))
    }

    fn restyle(self, pad: Option<char>, justify: Option<Justify>) -> (r: FieldSet)
        ensures
            r.tree() == restyle_tree(self.tree(), pad, justify),
        decreases self,
    {
        match self {
            FieldSet::Item(c) => FieldSet::Item(c.restyled(pad, justify)),
            FieldSet::Sequence(v) => {
                let ghost s0 = v@;
                let mut rest = v;
                let mut out: Vec<FieldSet> = Vec::new();
                let ghost mut i: int = 0;
                while rest.len() > 0
                    invariant
                        self is Sequence,
                        self->Sequence_0@ == s0,
                        0 <= i <= s0.len(),
                        rest@ == s0.subrange(i, s0.len() as int),
                        trees(out@) == restyle_all(trees(s0.subrange(0, i)), pad, justify),
                    decreases rest@.len(),
                {
                    let x = rest.remove(0);
                    proof {
                        assert(x == s0[i]);
                        assert(decreases_to!(self => self->Sequence_0));
                        assert(decreases_to!(self->Sequence_0 => s0));
                    }
                    let y = x.restyle(pad, justify);
                    let ghost prev = out@;
                    out.push(y);
                    proof {
                        lemma_trees_push(prev, y);
                        assert(s0.subrange(0, i + 1) =~= s0.subrange(0, i).push(x));
                        lemma_trees_push(s0.subrange(0, i), x);
                        assert(trees(s0.subrange(0, i)).push(x.tree()).drop_last() =~= trees(
                            s0.subrange(0, i),
                        ));
                        i = i + 1;
                    }
                }
                proof {
                    assert(s0.subrange(0, i) =~= s0);
                }
                FieldSet::Sequence(out)
            },
        }
    }

    /// The top-level members of this set: a group's members, or the field itself.
    pub fn into_items(self) -> (r: Vec<FieldSet>)
        ensures
            trees(r@) == members(self.tree()),
    {
        match self {
            FieldSet::Item(_) => {
                let ghost me = self;
                let r = vec![self];
                proof {
                    assert(r@ =~= seq![me]);
                    lemma_trees_one(me);
                }
                r
            },
            FieldSet::Sequence(v) => v,
        }
    }

    /// This set followed by `item`, as one more member of a group: a single field becomes a
    /// group of two, and a group gains `item` as its last member, whatever `item` holds.
    pub fn append(self, item: FieldSet) -> (r: FieldSet)
        ensures
            r.tree() == FieldTree::Node(members(self.tree()).push(item.tree())),
    {
        match self {
            FieldSet::Item(_) => {
                let ghost me = self;
                let v = vec![self, item];
                proof {
                    assert(v@ =~= seq![me].push(item));
                    lemma_trees_one(me);
                    lemma_trees_push(seq![me], item);
                }
                FieldSet::Sequence(v)
            },
            FieldSet::Sequence(mut v) => {
                let ghost prev = v@;
                v.push(item);
                proof {
                    lemma_trees_push(prev, item);
                }
                FieldSet::Sequence(v)
            },
        }
    }

    /// This set's members followed by the members of `item`, in one group: where `append`
    /// nests a group, `extend` splices its members in.
    pub fn extend(self, item: FieldSet) -> (r: FieldSet)
        ensures
            r.tree() == FieldTree::Node(members(self.tree()) + members(item.tree())),
    {
        let mut v = self.into_items();
        let mut w = item.into_items();
        let ghost a = v@;
        let ghost b = w@;
        v.append(&mut w);
        proof {
            lemma_trees_concat(a, b);
        }
        FieldSet::Sequence(v)
    }

    /// The fields of this set in depth-first, left-to-right order.
    pub fn flatten(self) -> (r: Vec<FieldConfig>)
        ensures
            views(r@) == flat(self.tree()),
    {
        let ghost me = self;
        let mut out: Vec<FieldConfig> = Vec::new();
        let mut stack: Vec<Vec<FieldSet>> = Vec::new();
        stack.push(vec![self]);
        proof {
            lemma_trees_one(me);
            assert(stack@.drop_last() =~= Seq::<Vec<FieldSet>>::empty());
            assert(stack@.last()@ =~= seq![me]);
            assert(flat_stack(Seq::<Vec<FieldSet>>::empty()) =~= Seq::<FieldView>::empty());
            assert(views(out@) =~= Seq::<FieldView>::empty());
            assert(views(out@) + flat_stack(stack@) =~= flat(me.tree()));
        }
        while stack.len() > 0
            invariant
                views(out@) + flat_stack(stack@) == flat(me.tree()),
            decreases size_stack(stack@), stack@.len(),
        {
            let ghost st = stack@;
            let mut last = stack.pop().unwrap();
            if last.len() > 0 {
                let ghost whole = last@;
                let first = last.remove(0);
                let ghost rest = last@;
                let ghost below = stack@;
                proof {
                    assert(whole =~= seq![first] + rest);
                    lemma_trees_concat(seq![first], rest);
                    lemma_trees_one(first);
                    lemma_flat_all_concat(seq![first.tree()], trees(rest));
                    lemma_size_all_concat(seq![first.tree()], trees(rest));
                    assert(below =~= st.drop_last());
                }
                stack.push(last);
                proof {
                    assert(stack@.drop_last() =~= below);
                    assert(stack@.last()@ == rest);
                    assert(flat_stack(st) == flat(first.tree()) + flat_all(trees(rest)) + flat_stack(
                        below,
                    ));
                    assert(flat_stack(stack@) == flat_all(trees(rest)) + flat_stack(below));
                    assert(size_stack(st) == size(first.tree()) + size_all(trees(rest)) + size_stack(
                        below,
                    ));
                    assert(size_stack(stack@) == size_all(trees(rest)) + size_stack(below));
                }
                let ghost fst = first;
                match first {
                    FieldSet::Item(c) => {
                        let ghost before = out@;
                        out.push(c);
                        proof {
                            assert(views(out@) =~= views(before).push(c@));
                            assert(views(out@) + flat_stack(stack@) =~= views(before) + flat_stack(
                                st,
                            ));
                        }
                    },
                    FieldSet::Sequence(children) => {
                        let ghost mid = stack@;
                        stack.push(children);
                        proof {
                            assert(fst.tree() == FieldTree::Node(trees(children@)));
                            assert(flat(fst.tree()) == flat_all(trees(children@)));
                            assert(size(fst.tree()) == 1 + size_all(trees(children@)));
                            assert(stack@.drop_last() =~= mid);
                            assert(stack@.last() == children);
                            assert(flat_stack(stack@) == flat_all(trees(children@)) + flat_stack(
                                mid,
                            ));
                            assert(size_stack(stack@) == size_all(trees(children@)) + size_stack(
                                mid,
                            ));
                            assert(views(out@) + flat_stack(stack@) =~= views(out@) + flat_stack(
                                st,
                            ));
                        }
                    },
                }
            } else {
                proof {
                    assert(trees(last@) =~= Seq::<FieldTree>::empty());
                    assert(stack@ =~= st.drop_last());
                    assert(flat_stack(st) =~= flat_stack(stack@));
                }
            }
        }
        proof {
            assert(views(out@) + flat_stack(stack@) =~= views(out@));
        }
        out
    }
}

} // verus!
