//! The canonical arrangement of a tree, and what makes two trees the same.

use crate::node::{Node, content_of, lemma_seq_at, lemma_seq_push, marks_of, seq_content, seq_marks};
use vstd::prelude::*;

verus! {

broadcast use Node::lemma_parts;

/// Whether every node of `kids` is of use, no two leaves without
/// attributes stand side by side, and no two neighbours share an attribute.
pub open spec fn tidy<T>(kids: Seq<Node<T>>) -> bool {
    &&& all_of_use(kids)
    &&& no_plain_pair(kids)
    &&& no_shared_pair(kids)
}

/// Every node of `kids` is of use: it covers text, and it carries an
/// attribute if it is an inner node.
pub open spec fn all_of_use<T>(kids: Seq<Node<T>>) -> bool {
    forall|i: int| 0 <= i < kids.len() ==> (#[trigger] kids[i]).of_use()
}

/// No two leaves without attributes stand side by side in `kids`.
pub open spec fn no_plain_pair<T>(kids: Seq<Node<T>>) -> bool {
    forall|i: int|
        #![trigger kids[i]]
        0 <= i < kids.len() - 1 ==> !(kids[i].plain_leaf() && kids[i + 1].plain_leaf())
}

/// No two neighbours in `kids` share an attribute.
pub open spec fn no_shared_pair<T>(kids: Seq<Node<T>>) -> bool {
    forall|i: int|
        #![trigger kids[i]]
        0 <= i < kids.len() - 1 ==> kids[i].own().disjoint(kids[i + 1].own())
}

/// Every node of `kids` is canonical below itself.
pub open spec fn all_canonical<T>(kids: Seq<Node<T>>) -> bool {
    forall|i: int| 0 <= i < kids.len() ==> (#[trigger] kids[i]).canonical()
}

/// A list of siblings in canonical arrangement.
pub open spec fn settled<T>(kids: Seq<Node<T>>) -> bool {
    all_canonical(kids) && tidy(kids)
}

/// The list is one leaf and nothing else.
pub open spec fn lone_leaf<T>(kids: Seq<Node<T>>) -> bool {
    kids.len() == 1 && kids[0].leaf()
}

impl<T> Node<T> {
    /// An inner node without attributes of its own.
    pub open spec fn bare_inner(self) -> bool {
        !self.leaf() && self.own() == Set::<T>::empty()
    }

    /// A leaf without attributes of its own.
    pub open spec fn plain_leaf(self) -> bool {
        self.leaf() && self.own() == Set::<T>::empty()
    }

    /// Whether the node has a place among its siblings: it covers text,
    /// and it carries an attribute if it is an inner node.
    pub open spec fn of_use(self) -> bool {
        !self.bare_inner() && self.content().len() > 0
    }

    /// Whether the tree below this node is in canonical arrangement: at
    /// every level the children are tidy, and no node has a leaf as its
    /// only child. So below the root every node covers text, every inner
    /// node carries an attribute, and no run of siblings could be joined or
    /// grouped.
    pub closed spec fn canonical(self) -> bool
        decreases self,
    {
        &&& forall|i: int|
            0 <= i < self.children@.len() ==> (#[trigger] self.children@[i]).canonical()
        &&& tidy(self.children@)
        &&& !lone_leaf(self.children@)
    }

    pub broadcast proof fn lemma_canonical(self)
        ensures
            #[trigger] self.canonical() == (settled(self.kids()) && !lone_leaf(self.kids())),
    {
    }
}

impl<T> Node<T> {
    /// Whether `other` is this tree with more text in its leaves, or the
    /// same: the same attributes on the same arrangement of nodes, and no
    /// leaf with less text than it had.
    pub closed spec fn same_frame(self, other: Node<T>) -> bool
        decreases self,
    {
        &&& self.attrs.order() == other.attrs.order()
        &&& self.root == other.root
        &&& self.id@ == other.id@
        &&& self.children@.len() == other.children@.len()
        &&& self.children@.len() == 0 ==> self.text@.len() <= other.text@.len()
        &&& forall|i: int|
            0 <= i < self.children@.len() ==> (#[trigger] self.children@[i]).same_frame(
                other.children@[i],
            )
    }

    /// What `same_frame` says of the two nodes themselves and of each pair of
    /// children.
    pub broadcast proof fn lemma_same_frame(self, other: Node<T>)
        ensures
            #[trigger] self.same_frame(other) == {
                &&& self.own_order() == other.own_order()
                &&& self.at_root() == other.at_root()
                &&& self.ident() == other.ident()
                &&& self.kids().len() == other.kids().len()
                &&& self.leaf() ==> self.fragment().len() <= other.fragment().len()
                &&& forall|i: int|
                    0 <= i < self.kids().len() ==> (#[trigger] self.kids()[i]).same_frame(
                        other.kids()[i],
                    )
            },
            self.same_frame(other) ==> self.own() == other.own(),
    {
    }

    pub proof fn lemma_same_frame_refl(self)
        ensures
            self.same_frame(self),
        decreases self,
    {
        assert forall|i: int| 0 <= i < self.children@.len() implies (
        #[trigger] self.children@[i]).same_frame(self.children@[i]) by {
            self.children@[i].lemma_same_frame_refl();
        }
    }
}

/// A list of siblings covers no less text than another whose siblings
/// cover no more, one by one.
pub proof fn lemma_seq_longer<T>(x: Seq<Node<T>>, y: Seq<Node<T>>)
    requires
        x.len() == y.len(),
        forall|i: int|
            0 <= i < x.len() ==> (#[trigger] x[i]).content().len() <= y[i].content().len(),
    ensures
        seq_content(x).len() <= seq_content(y).len(),
    decreases x.len(),
{
    if x.len() == 0 {
        assert(x =~= y);
    } else {
        assert(x =~= x.drop_last().push(x.last()));
        assert(y =~= y.drop_last().push(y.last()));
        lemma_seq_push(x.drop_last(), x.last());
        lemma_seq_push(y.drop_last(), y.last());
        assert forall|i: int| 0 <= i < x.drop_last().len() implies (
        #[trigger] x.drop_last()[i]).content().len() <= y.drop_last()[i].content().len() by {
            assert(x[i].content().len() <= y[i].content().len());
        }
        lemma_seq_longer(x.drop_last(), y.drop_last());
        assert(x[x.len() - 1].content().len() <= y[x.len() - 1].content().len());
    }
}

impl<T> Node<T> {
    /// A tree with the same attributes on the same arrangement of nodes and
    /// no less text in its leaves covers no less text, and is canonical
    /// where this one is.
    pub proof fn lemma_frame_canonical(self, other: Node<T>)
        requires
            self.same_frame(other),
        ensures
            self.content().len() <= other.content().len(),
            self.canonical() ==> other.canonical(),
            self.carried() == other.carried(),
            self.pure() == other.pure(),
        decreases self,
    {
        let mine = self.children@;
        let theirs = other.children@;
        self.lemma_content();
        other.lemma_content();
        assert forall|i: int| 0 <= i < theirs.len() implies (#[trigger] mine[i]).content().len()
            <= theirs[i].content().len() && (mine[i].canonical() ==> theirs[i].canonical())
            && theirs[i].own() == mine[i].own() && theirs[i].leaf() == mine[i].leaf()
            && mine[i].carried() == theirs[i].carried() && mine[i].pure() == theirs[i].pure() by {
            assert(mine[i].same_frame(theirs[i]));
            mine[i].lemma_frame_canonical(theirs[i]);
        }
        assert(self.carried() =~= other.carried()) by {
            assert forall|a: T| self.carried().contains(a) == other.carried().contains(a) by {
                if exists|i: int|
                    0 <= i < mine.len() && (#[trigger] mine[i]).carried().contains(a) {
                    let i = choose|i: int|
                        0 <= i < mine.len() && (#[trigger] mine[i]).carried().contains(a);
                    assert(theirs[i].carried().contains(a));
                }
                if exists|i: int|
                    0 <= i < theirs.len() && (#[trigger] theirs[i]).carried().contains(a) {
                    let i = choose|i: int|
                        0 <= i < theirs.len() && (#[trigger] theirs[i]).carried().contains(a);
                    assert(mine[i].carried().contains(a));
                }
            }
        }
        assert(self.pure() == other.pure()) by {
            if self.pure() {
                assert forall|i: int| 0 <= i < theirs.len() implies (#[trigger] theirs[i]).pure()
                    && theirs[i].carried().disjoint(other.attrs@) by {
                    assert(mine[i].pure() && mine[i].carried().disjoint(self.attrs@));
                }
            }
            if other.pure() {
                assert forall|i: int| 0 <= i < mine.len() implies (#[trigger] mine[i]).pure()
                    && mine[i].carried().disjoint(self.attrs@) by {
                    assert(theirs[i].pure() && theirs[i].carried().disjoint(other.attrs@));
                }
            }
        }
        lemma_seq_longer(mine, theirs);
        if self.canonical() {
            assert forall|i: int| 0 <= i < theirs.len() implies (#[trigger] theirs[i]).canonical()
                && theirs[i].of_use() by {
                assert(mine[i].canonical() && mine[i].of_use());
            }
            assert forall|i: int| #![trigger theirs[i]] 0 <= i < theirs.len() - 1 implies !(
            theirs[i].plain_leaf() && theirs[i + 1].plain_leaf()) && theirs[i].own().disjoint(
                theirs[i + 1].own(),
            ) by {
                assert(!(mine[i].plain_leaf() && mine[i + 1].plain_leaf()));
                assert(mine[i].own().disjoint(mine[i + 1].own()));
            }
        }
    }
}

/// Whether two lists of siblings hold the same trees, pair by pair.
pub open spec fn seq_alike<T>(x: Seq<Node<T>>, y: Seq<Node<T>>) -> bool {
    &&& x.len() == y.len()
    &&& forall|i: int| 0 <= i < x.len() ==> (#[trigger] x[i]).alike(y[i])
}

impl<T> Node<T> {
    /// Whether `other` is the same tree as this one: the same nodes with
    /// the same attributes in the same arrangement, and the same text in
    /// the leaves.
    pub closed spec fn alike(self, other: Node<T>) -> bool
        decreases self,
    {
        &&& self.attrs.order() == other.attrs.order()
        &&& self.root == other.root
        &&& self.id@ == other.id@
        &&& self.children@.len() == other.children@.len()
        &&& self.children@.len() == 0 ==> self.text@ == other.text@
        &&& forall|i: int|
            0 <= i < self.children@.len() ==> (#[trigger] self.children@[i]).alike(
                other.children@[i],
            )
    }

    /// What `alike` says of the two nodes themselves and of their children.
    pub broadcast proof fn lemma_alike(self, other: Node<T>)
        ensures
            #[trigger] self.alike(other) == {
                &&& self.own_order() == other.own_order()
                &&& self.at_root() == other.at_root()
                &&& self.ident() == other.ident()
                &&& self.leaf() ==> self.fragment() == other.fragment()
                &&& seq_alike(self.kids(), other.kids())
            },
            self.alike(other) ==> self.own() == other.own(),
    {
    }

    pub proof fn lemma_alike_refl(self)
        ensures
            self.alike(self),
        decreases self,
    {
        assert forall|i: int| 0 <= i < self.children@.len() implies (
        #[trigger] self.children@[i]).alike(self.children@[i]) by {
            self.children@[i].lemma_alike_refl();
        }
    }

    /// The same tree covers the same text, marks it alike, and is
    /// canonical where the other is.
    pub proof fn lemma_alike_same(self, other: Node<T>)
        requires
            self.alike(other),
        ensures
            self.content() == other.content(),
            self.marks() == other.marks(),
            self.canonical() == other.canonical(),
            self.own() == other.own(),
            self.leaf() == other.leaf(),
        decreases self, 1nat,
    {
        self.lemma_content();
        other.lemma_content();
        self.lemma_marks();
        other.lemma_marks();
        lemma_seq_alike_same(self.children@, other.children@);
        assert(self.marks() =~= other.marks());
    }
}

/// Lists of the same trees cover the same text, mark it alike, and are in
/// canonical arrangement where the others are.
pub proof fn lemma_seq_alike_same<T>(x: Seq<Node<T>>, y: Seq<Node<T>>)
    requires
        seq_alike(x, y),
    ensures
        seq_content(x) == seq_content(y),
        seq_marks(x) == seq_marks(y),
        settled(x) == settled(y),
        lone_leaf(x) == lone_leaf(y),
    decreases x, 0nat,
{
    assert forall|i: int| 0 <= i < x.len() implies (#[trigger] x[i]).content() == y[i].content()
        && x[i].marks() == y[i].marks() && x[i].canonical() == y[i].canonical() && x[i].own()
        == y[i].own() && x[i].leaf() == y[i].leaf() by {
        x[i].lemma_alike_same(y[i]);
    }
    assert(x.map_values(content_of()) =~= y.map_values(content_of()));
    assert(x.map_values(marks_of()) =~= y.map_values(marks_of()));
    if settled(x) {
        assert forall|i: int| 0 <= i < y.len() implies (#[trigger] y[i]).canonical()
            && y[i].of_use() by {
            assert(x[i].canonical() && x[i].of_use());
        }
        assert forall|i: int| #![trigger y[i]] 0 <= i < y.len() - 1 implies !(y[i].plain_leaf()
            && y[i + 1].plain_leaf()) && y[i].own().disjoint(y[i + 1].own()) by {
            assert(!(x[i].plain_leaf() && x[i + 1].plain_leaf()));
            assert(x[i].own().disjoint(x[i + 1].own()));
        }
    }
    if settled(y) {
        assert forall|i: int| 0 <= i < x.len() implies (#[trigger] x[i]).canonical()
            && x[i].of_use() by {
            assert(y[i].canonical() && y[i].of_use());
        }
        assert forall|i: int| #![trigger x[i]] 0 <= i < x.len() - 1 implies !(x[i].plain_leaf()
            && x[i + 1].plain_leaf()) && x[i].own().disjoint(x[i + 1].own()) by {
            assert(!(y[i].plain_leaf() && y[i + 1].plain_leaf()));
            assert(y[i].own().disjoint(y[i + 1].own()));
        }
    }
    if x.len() == 1 {
        assert(x[0].leaf() == y[0].leaf());
    }
}

impl<T> Node<T> {
    /// Whether setting `attr` on the bytes from `start` up to `end` would
    /// find its work done: each node on the way carries `attr` itself, or is
    /// an inner node which the range covers in part only and whose children
    /// are painted as far as the range falls on them.
    pub closed spec fn painted(self, start: int, end: int, attr: T) -> bool
        decreases self,
    {
        ||| end <= 0 || start >= self.content().len() || start >= end || self.content().len() == 0
        ||| self.attrs@.contains(attr)
        ||| {
            &&& self.children@.len() > 0
            &&& !(start <= 0 && end >= self.content().len())
            &&& forall|i: int|
                0 <= i < self.children@.len() ==> (#[trigger] self.children@[i]).painted(
                    start - seq_content(self.children@.take(i)).len(),
                    end - seq_content(self.children@.take(i)).len(),
                    attr,
                )
        }
    }

    /// Whether no node of the subtree carries `attr`.
    pub closed spec fn absent(self, attr: T) -> bool
        decreases self,
    {
        &&& !self.attrs@.contains(attr)
        &&& forall|i: int|
            0 <= i < self.children@.len() ==> (#[trigger] self.children@[i]).absent(attr)
    }

    pub broadcast proof fn lemma_painted(self, start: int, end: int, attr: T)
        ensures
            #[trigger] self.painted(start, end, attr) == {
                ||| end <= 0 || start >= self.content().len() || start >= end
                    || self.content().len() == 0
                ||| self.own().contains(attr)
                ||| {
                    &&& !self.leaf()
                    &&& !(start <= 0 && end >= self.content().len())
                    &&& forall|i: int|
                        0 <= i < self.kids().len() ==> (#[trigger] self.kids()[i]).painted(
                            start - seq_content(self.kids().take(i)).len(),
                            end - seq_content(self.kids().take(i)).len(),
                            attr,
                        )
                }
            },
    {
    }

    pub broadcast proof fn lemma_absent(self, attr: T)
        ensures
            #[trigger] self.absent(attr) == {
                &&& !self.own().contains(attr)
                &&& forall|i: int|
                    0 <= i < self.kids().len() ==> (#[trigger] self.kids()[i]).absent(attr)
            },
    {
        if self.absent(attr) {
            assert forall|i: int| 0 <= i < self.kids().len() implies (
            #[trigger] self.kids()[i]).absent(attr) by {
                assert(self.children@[i].absent(attr));
            }
        }
        if !self.own().contains(attr) && forall|i: int|
            0 <= i < self.kids().len() ==> (#[trigger] self.kids()[i]).absent(attr) {
            assert forall|i: int| 0 <= i < self.children@.len() implies (
            #[trigger] self.children@[i]).absent(attr) by {
                assert(self.kids()[i].absent(attr));
            }
        }
    }

    /// Only the part of the range that lies within the node counts.
    pub proof fn lemma_painted_clamp(self, start: int, end: int, from: int, to: int, attr: T)
        requires
            from == (if start < 0 {
                0
            } else {
                start
            }),
            to == (if end > self.content().len() {
                self.content().len() as int
            } else {
                end
            }),
        ensures
            self.painted(start, end, attr) == self.painted(from, to, attr),
        decreases self,
    {
        let kids = self.children@;
        self.lemma_content();
        assert forall|i: int| 0 <= i < kids.len() implies (#[trigger] kids[i]).painted(
            start - seq_content(kids.take(i)).len(),
            end - seq_content(kids.take(i)).len(),
            attr,
        ) == kids[i].painted(
            from - seq_content(kids.take(i)).len(),
            to - seq_content(kids.take(i)).len(),
            attr,
        ) by {
            let off = seq_content(kids.take(i)).len() as int;
            let len = kids[i].content().len() as int;
            lemma_seq_at(kids, i);
            let lo = if start - off < 0 {
                0
            } else {
                start - off
            };
            let hi = if end - off > len {
                len
            } else {
                end - off
            };
            kids[i].lemma_painted_clamp(start - off, end - off, lo, hi, attr);
            kids[i].lemma_painted_clamp(from - off, to - off, lo, hi, attr);
        }
        let inner_a = forall|i: int|
            0 <= i < kids.len() ==> (#[trigger] kids[i]).painted(
                start - seq_content(kids.take(i)).len(),
                end - seq_content(kids.take(i)).len(),
                attr,
            );
        let inner_b = forall|i: int|
            0 <= i < kids.len() ==> (#[trigger] kids[i]).painted(
                from - seq_content(kids.take(i)).len(),
                to - seq_content(kids.take(i)).len(),
                attr,
            );
        if inner_a {
            assert forall|i: int| 0 <= i < kids.len() implies (#[trigger] kids[i]).painted(
                from - seq_content(kids.take(i)).len(),
                to - seq_content(kids.take(i)).len(),
                attr,
            ) by {
                assert(kids[i].painted(
                    start - seq_content(kids.take(i)).len(),
                    end - seq_content(kids.take(i)).len(),
                    attr,
                ));
            }
        }
        if inner_b {
            assert forall|i: int| 0 <= i < kids.len() implies (#[trigger] kids[i]).painted(
                start - seq_content(kids.take(i)).len(),
                end - seq_content(kids.take(i)).len(),
                attr,
            ) by {
                assert(kids[i].painted(
                    from - seq_content(kids.take(i)).len(),
                    to - seq_content(kids.take(i)).len(),
                    attr,
                ));
            }
        }
        assert(inner_a == inner_b);
    }
}

/// The attributes that the nodes of a list of siblings and the nodes
/// below them carry.
pub open spec fn seq_carried<T>(nodes: Seq<Node<T>>) -> Set<T> {
    Set::new(
        |a: T| exists|i: int| 0 <= i < nodes.len() && (#[trigger] nodes[i]).carried().contains(a),
    )
}

/// Whether the list `after` carries no attribute that the list `before`
/// does not carry, and is pure where `before` is.
pub open spec fn no_more<T>(before: Seq<Node<T>>, after: Seq<Node<T>>) -> bool {
    &&& seq_carried(after).subset_of(seq_carried(before))
    &&& all_pure(before) ==> all_pure(after)
}

/// Whether no node of a list of siblings carries an attribute that a node
/// below it carries too.
pub open spec fn all_pure<T>(nodes: Seq<Node<T>>) -> bool {
    forall|i: int| 0 <= i < nodes.len() ==> (#[trigger] nodes[i]).pure()
}

impl<T> Node<T> {
    /// The attributes that this node and the nodes below it carry.
    pub closed spec fn carried(self) -> Set<T>
        decreases self,
    {
        Set::new(
            |a: T|
                self.attrs@.contains(a) || exists|i: int|
                    0 <= i < self.children@.len() && (
                    #[trigger] self.children@[i]).carried().contains(a),
        )
    }

    /// Whether no node of the subtree carries an attribute that a node
    /// below it carries too: no byte is given an attribute twice.
    pub closed spec fn pure(self) -> bool
        decreases self,
    {
        forall|i: int|
            0 <= i < self.children@.len() ==> (#[trigger] self.children@[i]).pure()
                && self.children@[i].carried().disjoint(self.attrs@)
    }

    /// A node carries its own attributes and what its children carry.
    pub broadcast proof fn lemma_carried(self)
        ensures
            #[trigger] self.carried() == self.own().union(seq_carried(self.kids())),
    {
        assert(self.carried() =~= self.own().union(seq_carried(self.kids())));
    }

    /// A node is pure where its children are and carry none of its own
    /// attributes.
    pub broadcast proof fn lemma_pure(self)
        ensures
            #[trigger] self.pure() == (all_pure(self.kids()) && seq_carried(self.kids()).disjoint(
                self.own(),
            )),
    {
        if self.pure() {
            assert forall|a: T| seq_carried(self.kids()).contains(a) implies !self.own().contains(
                a,
            ) by {
                let i = choose|i: int|
                    0 <= i < self.kids().len() && (#[trigger] self.kids()[i]).carried().contains(a);
                assert(self.children@[i].carried().disjoint(self.attrs@));
            }
        }
        if all_pure(self.kids()) && seq_carried(self.kids()).disjoint(self.own()) {
            assert forall|i: int| 0 <= i < self.children@.len() implies (
            #[trigger] self.children@[i]).pure() && self.children@[i].carried().disjoint(
                self.attrs@,
            ) by {
                assert(self.kids()[i].pure());
                assert forall|a: T|
                    self.children@[i].carried().contains(a) implies !self.attrs@.contains(a) by {
                    assert(seq_carried(self.kids()).contains(a));
                }
            }
        }
    }

    /// No node of the subtree carries an attribute that the subtree does
    /// not carry.
    pub proof fn lemma_absent_carried(self, attr: T)
        ensures
            self.absent(attr) == !self.carried().contains(attr),
        decreases self,
    {
        self.lemma_absent(attr);
        assert forall|i: int| 0 <= i < self.children@.len() implies (
        #[trigger] self.children@[i]).absent(attr) == !self.children@[i].carried().contains(
            attr,
        ) by {
            self.children@[i].lemma_absent_carried(attr);
        }
        if self.absent(attr) {
            assert(!self.carried().contains(attr));
        } else {
            if !self.own().contains(attr) {
                let i = choose|i: int|
                    0 <= i < self.kids().len() && !(#[trigger] self.kids()[i]).absent(attr);
                assert(self.children@[i].carried().contains(attr));
            }
        }
    }
}

/// What a list carries with one more node behind it.
pub proof fn lemma_carried_push<T>(list: Seq<Node<T>>, node: Node<T>)
    ensures
        seq_carried(list.push(node)) == seq_carried(list).union(node.carried()),
        all_pure(list.push(node)) == (all_pure(list) && node.pure()),
{
    let more = list.push(node);
    assert forall|a: T| seq_carried(more).contains(a) == seq_carried(list).union(
        node.carried(),
    ).contains(a) by {
        if seq_carried(more).contains(a) {
            let i = choose|i: int|
                0 <= i < more.len() && (#[trigger] more[i]).carried().contains(a);
            if i < list.len() {
                assert(list[i].carried().contains(a));
            }
        }
        if seq_carried(list).contains(a) {
            let i = choose|i: int|
                0 <= i < list.len() && (#[trigger] list[i]).carried().contains(a);
            assert(more[i].carried().contains(a));
        }
        if node.carried().contains(a) {
            assert(more[list.len() as int].carried().contains(a));
        }
    }
    assert(seq_carried(more) =~= seq_carried(list).union(node.carried()));
    if all_pure(more) {
        assert forall|i: int| 0 <= i < list.len() implies (#[trigger] list[i]).pure() by {
            assert(more[i].pure());
        }
        assert(more[list.len() as int].pure());
    }
    if all_pure(list) && node.pure() {
        assert forall|i: int| 0 <= i < more.len() implies (#[trigger] more[i]).pure() by {
            if i < list.len() {
                assert(list[i].pure());
            }
        }
    }
}

/// What two lists carry when put end to end.
pub proof fn lemma_carried_concat<T>(x: Seq<Node<T>>, y: Seq<Node<T>>)
    ensures
        seq_carried(x + y) == seq_carried(x).union(seq_carried(y)),
        all_pure(x + y) == (all_pure(x) && all_pure(y)),
    decreases y.len(),
{
    if y.len() == 0 {
        assert(x + y =~= x);
        assert(seq_carried(y) =~= Set::<T>::empty());
        assert(seq_carried(x).union(seq_carried(y)) =~= seq_carried(x));
    } else {
        assert(x + y =~= (x + y.drop_last()).push(y.last()));
        assert(y =~= y.drop_last().push(y.last()));
        lemma_carried_concat(x, y.drop_last());
        lemma_carried_push(x + y.drop_last(), y.last());
        lemma_carried_push(y.drop_last(), y.last());
        assert(seq_carried(x + y) =~= seq_carried(x).union(seq_carried(y)));
    }
}

/// An empty list carries nothing.
pub proof fn lemma_carried_empty<T>()
    ensures
        seq_carried(Seq::<Node<T>>::empty()) == Set::<T>::empty(),
        all_pure(Seq::<Node<T>>::empty()),
{
    assert(seq_carried(Seq::<Node<T>>::empty()) =~= Set::<T>::empty());
}

/// A stretch of a list carries nothing that the list does not carry, and
/// is pure where the list is.
pub proof fn lemma_carried_part<T>(list: Seq<Node<T>>, from: int, to: int)
    requires
        0 <= from <= to <= list.len(),
    ensures
        no_more(list, list.subrange(from, to)),
{
    let part = list.subrange(from, to);
    assert forall|a: T| seq_carried(part).contains(a) implies seq_carried(list).contains(a) by {
        let i = choose|i: int| 0 <= i < part.len() && (#[trigger] part[i]).carried().contains(a);
        assert(list[from + i].carried().contains(a));
    }
    if all_pure(list) {
        assert forall|i: int| 0 <= i < part.len() implies (#[trigger] part[i]).pure() by {
            assert(list[from + i].pure());
        }
    }
}

/// What a single node carries as a list.
pub proof fn lemma_carried_one<T>(node: Node<T>)
    ensures
        seq_carried(seq![node]) == node.carried(),
        all_pure(seq![node]) == node.pure(),
{
    lemma_carried_empty::<T>();
    lemma_carried_push(Seq::<Node<T>>::empty(), node);
    assert(seq![node] =~= Seq::<Node<T>>::empty().push(node));
    assert(Set::<T>::empty().union(node.carried()) =~= node.carried());
}

impl<T> Node<T> {
    /// A node with other attributes of its own carries them in place of
    /// the old ones, and is pure where its children are and carry none of
    /// them.
    pub proof fn lemma_recarried(self, after: Node<T>)
        requires
            after.kids() == self.kids(),
        ensures
            after.carried() == after.own().union(seq_carried(self.kids())),
            self.carried() == self.own().union(seq_carried(self.kids())),
            after.pure() == (all_pure(self.kids()) && seq_carried(self.kids()).disjoint(
                after.own(),
            )),
            self.pure() == (all_pure(self.kids()) && seq_carried(self.kids()).disjoint(
                self.own(),
            )),
    {
        self.lemma_carried();
        after.lemma_carried();
        self.lemma_pure();
        after.lemma_pure();
    }
}

} // verus!
