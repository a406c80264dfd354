use crate::measure::{Measure, MeasurePredicate, Measured};
use vstd::prelude::*;

verus! {

/// A measure-augmented binary sequence tree. `Leaf` is the empty sequence;
/// `Fork` represents `inorder(left) ++ [element] ++ inorder(right)` and caches
/// the measure of that whole sequence.
pub enum SplayTree<M, T> {
    Leaf,
    Fork(Box<SplayTreeFork<M, T>>),
}

/// One interior node of a `SplayTree`, with the cached measure of the whole
/// subtree rooted here.
pub struct SplayTreeFork<M, T> {
    pub left: SplayTree<M, T>,
    pub element: T,
    pub right: SplayTree<M, T>,
    pub measure: M,
}

/// The measure of a sequence of elements: the left-to-right combination of
/// each element's measure, starting from zero.
pub open spec fn seq_measure<M: Measure, T: Measured<M>>(s: Seq<T>) -> M
    decreases s.len(),
{
    if s.len() == 0 {
        M::spec_zero()
    } else {
        seq_measure(s.drop_last()).spec_combine(s.last().spec_measure())
    }
}

/// The outcome of `split`. `Inside` is a genuine three-way partition at the
/// boundary element. `RightOf` reports that the predicate never became true,
/// so the whole sequence lies left of any boundary; `LeftOf` reports that it
/// was already true on the empty prefix, so the whole sequence lies right of
/// the boundary. `NonMonotonic` reports a predicate that flipped back from
/// true to false; with a predicate that is a function of the measure alone it
/// cannot arise, and it is kept so that no data would ever be dropped.
pub enum SplitResult<M, T> {
    NonMonotonic(SplayTree<M, T>, SplayTree<M, T>),
    LeftOf(SplayTree<M, T>),
    RightOf(SplayTree<M, T>),
    Inside(SplayTreeFork<M, T>),
}

/// The measure of a one-element sequence is that element's measure.
pub proof fn lemma_seq_measure_singleton<M: Measure, T: Measured<M>>(x: T)
    ensures
        seq_measure(seq![x]) == x.spec_measure(),
{
    let s = seq![x];
    assert(s.drop_last() =~= Seq::<T>::empty());
    assert(s.last() == x);
    assert(seq_measure(s) == seq_measure(Seq::<T>::empty()).spec_combine(x.spec_measure()));
    assert(seq_measure(Seq::<T>::empty()) == M::spec_zero());
    M::lemma_zero_identity(x.spec_measure());
}

/// `seq_measure` distributes over sequence concatenation.
pub proof fn lemma_seq_measure_concat<M: Measure, T: Measured<M>>(a: Seq<T>, b: Seq<T>)
    ensures
        seq_measure(a + b) == seq_measure(a).spec_combine(seq_measure(b)),
    decreases b.len(),
{
    if b.len() == 0 {
        assert(a + b =~= a);
        M::lemma_zero_identity(seq_measure(a));
    } else {
        assert((a + b).drop_last() =~= a + b.drop_last());
        assert((a + b).last() == b.last());
        lemma_seq_measure_concat::<M, T>(a, b.drop_last());
        M::lemma_combine_associative(
            seq_measure(a),
            seq_measure(b.drop_last()),
            b.last().spec_measure(),
        );
    }
}

/// A tree represents the empty sequence exactly when it is a leaf.
pub proof fn lemma_inorder_len<M: Measure, T: Measured<M>>(t: SplayTree<M, T>)
    ensures
        (t.inorder().len() == 0) <==> (t is Leaf),
{
    match t {
        SplayTree::Leaf => {
        },
        SplayTree::Fork(f) => {
            assert(t.inorder().len() >= seq![f.element].len());
        },
    }
}

/// What `split` guarantees of its outcome, given the predicate and the
/// inorder sequence `s` of the tree that was split.
pub open spec fn split_post<M: Measure, T: Measured<M>, P: MeasurePredicate<M>>(
    pred: P,
    s: Seq<T>,
    r: SplitResult<M, T>,
) -> bool {
    match r {
        SplitResult::Inside(f) => {
            &&& f.wf()
            &&& f.inorder() == s
            &&& !pred.spec_test(seq_measure(f.left.inorder()))
            &&& pred.spec_test(seq_measure(f.left.inorder() + seq![f.element]))
        },
        SplitResult::RightOf(t) => t.wf() && t.inorder() == s && !pred.spec_test(seq_measure(s)),
        SplitResult::LeftOf(t) => t.wf() && t.inorder() == s && pred.spec_test(M::spec_zero()),
        SplitResult::NonMonotonic(_, _) => false,
    }
}

/// Associativity of concatenation: however the three operands are grouped,
/// the two results have the same inorder content and the same measure. The
/// hypotheses are exactly what `concatenate` ensures of each grouping.
pub proof fn lemma_concatenate_associative<M: Measure, T: Measured<M>>(
    a: SplayTree<M, T>,
    b: SplayTree<M, T>,
    c: SplayTree<M, T>,
    ab: SplayTree<M, T>,
    ab_c: SplayTree<M, T>,
    bc: SplayTree<M, T>,
    a_bc: SplayTree<M, T>,
)
    requires
        ab.inorder() == a.inorder() + b.inorder(),
        ab_c.inorder() == ab.inorder() + c.inorder(),
        bc.inorder() == b.inorder() + c.inorder(),
        a_bc.inorder() == a.inorder() + bc.inorder(),
    ensures
        ab_c.inorder() == a_bc.inorder(),
        seq_measure(ab_c.inorder()) == seq_measure(a_bc.inorder()),
{
    assert((a.inorder() + b.inorder()) + c.inorder() =~= a.inorder() + (b.inorder()
        + c.inorder()));
}

/// The cached measure of any well-formed node is the combination of the
/// measures of its three parts, each recomputed from the sequence it
/// represents. Since well-formedness is inherited by both subtrees, the same
/// holds of every node reachable from a well-formed tree.
pub proof fn lemma_measure_recomputed<M: Measure, T: Measured<M>>(t: SplayTree<M, T>)
    requires
        t.wf(),
    ensures
        t matches SplayTree::Fork(f) ==> f.measure == seq_measure(f.left.inorder()).spec_combine(
            f.element.spec_measure(),
        ).spec_combine(seq_measure(f.right.inorder())),
{
    match t {
        SplayTree::Leaf => {
        },
        SplayTree::Fork(f) => {
            assert(t.inorder() == f.left.inorder() + seq![f.element] + f.right.inorder());
            lemma_seq_measure_singleton::<M, T>(f.element);
            lemma_seq_measure_concat::<M, T>(f.left.inorder(), seq![f.element]);
            lemma_seq_measure_concat::<M, T>(f.left.inorder() + seq![f.element], f.right.inorder());
        },
    }
}

/// Round trip through `uncons`: re-attaching the removed first element in
/// front of the remainder restores the original sequence, content and
/// measure alike. The hypotheses are what `uncons`, `singleton` and
/// `concatenate` ensure.
pub proof fn lemma_uncons_roundtrip<M: Measure, T: Measured<M>>(
    s: SplayTree<M, T>,
    fst: T,
    rest: SplayTree<M, T>,
    single: SplayTree<M, T>,
    joined: SplayTree<M, T>,
)
    requires
        s.inorder().len() > 0,
        fst == s.inorder()[0],
        rest.inorder() == s.inorder().drop_first(),
        single.inorder() == seq![fst],
        joined.inorder() == single.inorder() + rest.inorder(),
    ensures
        joined.inorder() == s.inorder(),
        seq_measure(joined.inorder()) == seq_measure(s.inorder()),
{
    assert(seq![fst] + s.inorder().drop_first() =~= s.inorder());
}

/// Round trip through `unsnoc`: re-attaching the removed last element after
/// the remainder restores the original sequence, content and measure alike.
pub proof fn lemma_unsnoc_roundtrip<M: Measure, T: Measured<M>>(
    s: SplayTree<M, T>,
    rest: SplayTree<M, T>,
    lst: T,
    single: SplayTree<M, T>,
    joined: SplayTree<M, T>,
)
    requires
        s.inorder().len() > 0,
        lst == s.inorder().last(),
        rest.inorder() == s.inorder().drop_last(),
        single.inorder() == seq![lst],
        joined.inorder() == rest.inorder() + single.inorder(),
    ensures
        joined.inorder() == s.inorder(),
        seq_measure(joined.inorder()) == seq_measure(s.inorder()),
{
    assert(s.inorder().drop_last() + seq![lst] =~= s.inorder());
}

impl<M: Measure, T: Measured<M>> SplayTreeFork<M, T> {
    /// The sequence represented by the tree rooted at this node.
    pub open spec fn inorder(self) -> Seq<T> {
        self.left.inorder() + seq![self.element] + self.right.inorder()
    }

    /// Well-formedness of the tree rooted at this node.
    pub open spec fn wf(self) -> bool {
        self.left.wf() && self.right.wf() && self.measure == seq_measure(self.inorder())
    }
}

impl<M: Measure, T: Measured<M>> SplayTree<M, T> {
    /// The sequence this tree represents, read off in inorder.
    pub open spec fn inorder(self) -> Seq<T>
        decreases self,
    {
        match self {
            SplayTree::Leaf => Seq::empty(),
            SplayTree::Fork(f) => f.left.inorder() + seq![f.element] + f.right.inorder(),
        }
    }

    /// Well-formedness: every cached measure equals the measure of the
    /// sequence its subtree represents.
    pub open spec fn wf(self) -> bool
        decreases self,
    {
        match self {
            SplayTree::Leaf => true,
            SplayTree::Fork(f) => f.left.wf() && f.right.wf() && f.measure == seq_measure(
                self.inorder(),
            ),
        }
    }

    /// The empty sequence.
    pub fn empty() -> (r: Self)
        ensures
            r == SplayTree::<M, T>::Leaf,
            r.wf(),
            r.inorder() == Seq::<T>::empty(),
    {
        SplayTree::Leaf
    }

    pub fn is_empty(&self) -> (r: bool)
        ensures
            r == (self.inorder().len() == 0),
            r == (*self is Leaf),
    {
        match self {
            SplayTree::Leaf => true,
            SplayTree::Fork(_) => false,
        }
    }

    /// The length of the chain of nodes reached by always descending right.
    pub open spec fn right_spine_len(self) -> nat
        decreases self,
    {
        match self {
            SplayTree::Leaf => 0,
            SplayTree::Fork(f) => 1 + f.right.right_spine_len(),
        }
    }

    /// The length of the chain of nodes reached by always descending left.
    pub open spec fn left_spine_len(self) -> nat
        decreases self,
    {
        match self {
            SplayTree::Leaf => 0,
            SplayTree::Fork(f) => 1 + f.left.left_spine_len(),
        }
    }

    /// Builds a node around a caller-supplied cached measure, which must
    /// already be the measure of the represented sequence.
    pub fn fork_measure(l: Self, t: T, r: Self, m: M) -> (res: Self)
        requires
            l.wf(),
            r.wf(),
            m == seq_measure(l.inorder() + seq![t] + r.inorder()),
        ensures
            res.wf(),
            res.inorder() == l.inorder() + seq![t] + r.inorder(),
            res == (SplayTree::Fork(
                Box::new(SplayTreeFork { left: l, element: t, right: r, measure: m }),
            )),
    {
        SplayTree::Fork(Box::new(SplayTreeFork { left: l, element: t, right: r, measure: m }))
    }

    /// Builds a node, recomputing the cached measure from its parts.
    pub fn fork(l: Self, t: T, r: Self) -> (res: Self)
        requires
            l.wf(),
            r.wf(),
        ensures
            res.wf(),
            res.inorder() == l.inorder() + seq![t] + r.inorder(),
    {
        let lm = l.measure();
        let tm = t.measure();
        let rm = r.measure();
        let m = lm.combine(&tm).combine(&rm);
        proof {
            lemma_seq_measure_singleton::<M, T>(t);
            lemma_seq_measure_concat::<M, T>(l.inorder(), seq![t]);
            lemma_seq_measure_concat::<M, T>(l.inorder() + seq![t], r.inorder());
        }
        Self::fork_measure(l, t, r, m)
    }

    /// The one-element sequence.
    pub fn singleton(t: T) -> (res: Self)
        ensures
            res.wf(),
            res.inorder() == seq![t],
    {
        let r = Self::fork(SplayTree::Leaf, t, SplayTree::Leaf);
        proof {
            assert(r.inorder() =~= seq![t]);
        }
        r
    }

    /// Reads the measure of the represented sequence from the cache.
    pub fn measure(&self) -> (r: M)
        requires
            self.wf(),
        ensures
            r == seq_measure(self.inorder()),
    {
        match self {
            SplayTree::Leaf => M::zero(),
            SplayTree::Fork(f) => f.measure,
        }
    }

    /// Appends `b`'s sequence after `a`'s by walking down `a`'s right spine
    /// and `b`'s left spine simultaneously, absorbing one node from each side
    /// per step, until one spine bottoms out and the other tree is grafted
    /// whole. Either empty operand is returned unchanged. No rebalancing.
    pub fn concatenate(a: Self, b: Self) -> (r: Self)
        requires
            a.wf(),
            b.wf(),
        ensures
            r.wf(),
            r.inorder() == a.inorder() + b.inorder(),
            seq_measure(r.inorder()) == seq_measure(a.inorder()).spec_combine(
                seq_measure(b.inorder()),
            ),
            a is Leaf ==> r == b,
            b is Leaf ==> r == a,
        decreases a.right_spine_len() + b.left_spine_len(),
    {
        proof {
            lemma_seq_measure_concat::<M, T>(a.inorder(), b.inorder());
        }
        match (a, b) {
            (SplayTree::Leaf, b2) => {
                proof {
                    assert(Seq::<T>::empty() + b2.inorder() =~= b2.inorder());
                }
                b2
            },
            (a2, SplayTree::Leaf) => {
                proof {
                    assert(a2.inorder() + Seq::<T>::empty() =~= a2.inorder());
                }
                a2
            },
            (SplayTree::Fork(abox), SplayTree::Fork(bbox)) => {
                let SplayTreeFork { left: al, element: ae, right: ar, measure: am } = *abox;
                let SplayTreeFork { left: bl, element: be, right: br, measure: bm } = *bbox;
                proof {
                    assert(al.wf() && ar.wf() && bl.wf() && br.wf());
                    assert(a.inorder() == al.inorder() + seq![ae] + ar.inorder());
                    assert(b.inorder() == bl.inorder() + seq![be] + br.inorder());
                    assert(am == seq_measure(a.inorder()));
                    assert(bm == seq_measure(b.inorder()));
                }
                match (ar, bl) {
                    (SplayTree::Leaf, bl2) => {
                        let inner = Self::fork_measure(bl2, be, br, bm);
                        let m = am.combine(&bm);
                        proof {
                            assert(al.inorder() + seq![ae] + inner.inorder() =~= (al.inorder()
                                + seq![ae] + Seq::<T>::empty()) + inner.inorder());
                        }
                        Self::fork_measure(al, ae, inner, m)
                    },
                    (ar2, SplayTree::Leaf) => {
                        let inner = Self::fork_measure(al, ae, ar2, am);
                        let m = am.combine(&bm);
                        proof {
                            assert(inner.inorder() + seq![be] + br.inorder() =~= inner.inorder()
                                + (Seq::<T>::empty() + seq![be] + br.inorder()));
                        }
                        Self::fork_measure(inner, be, br, m)
                    },
                    (SplayTree::Fork(arbox), SplayTree::Fork(blbox)) => {
                        // Both spines still have structure: absorb one node
                        // from each side and continue one level down.
                        let SplayTreeFork { left: arl, element: are, right: arr, measure: _arm } =
                            *arbox;
                        let SplayTreeFork { left: bll, element: ble, right: blr, measure: _blm } =
                            *blbox;
                        proof {
                            assert(ar.wf());
                            assert(bl.wf());
                            assert(arl.wf() && arr.wf() && bll.wf() && blr.wf());
                            assert(ar.right_spine_len() == 1 + arr.right_spine_len());
                            assert(bl.left_spine_len() == 1 + bll.left_spine_len());
                        }
                        let a_inner = Self::fork(al, ae, arl);
                        proof {
                            assert(a_inner.inorder() + seq![are] + arr.inorder() =~= (al.inorder()
                                + seq![ae] + (arl.inorder() + seq![are] + arr.inorder())));
                        }
                        let a2 = Self::fork_measure(a_inner, are, arr, am);
                        let b_inner = Self::fork(blr, be, br);
                        proof {
                            assert(bll.inorder() + seq![ble] + b_inner.inorder() =~= ((bll.inorder()
                                + seq![ble] + blr.inorder()) + seq![be] + br.inorder()));
                        }
                        let b2 = Self::fork_measure(bll, ble, b_inner, bm);
                        Self::concatenate(a2, b2)
                    },
                }
            },
        }
    }

    /// Removes the first element, descending the left spine and re-attaching
    /// the subtrees left behind. Yields nothing exactly on the empty tree.
    pub fn uncons(self) -> (r: Option<(T, Self)>)
        requires
            self.wf(),
        ensures
            match r {
                None => self.inorder().len() == 0,
                Some(p) => {
                    &&& self.inorder().len() > 0
                    &&& p.0 == self.inorder()[0]
                    &&& p.1.wf()
                    &&& p.1.inorder() == self.inorder().drop_first()
                },
            },
        decreases self.left_spine_len(),
    {
        match self {
            SplayTree::Leaf => None,
            SplayTree::Fork(fbox) => {
                let SplayTreeFork { left, element, right, measure } = *fbox;
                proof {
                    assert(left.wf() && right.wf());
                    assert(self.inorder() == left.inorder() + seq![element] + right.inorder());
                    assert(measure == seq_measure(self.inorder()));
                }
                match left {
                    SplayTree::Leaf => {
                        proof {
                            assert(self.inorder() =~= seq![element] + right.inorder());
                            assert(self.inorder().drop_first() =~= right.inorder());
                        }
                        Some((element, right))
                    },
                    SplayTree::Fork(lbox) => {
                        let SplayTreeFork { left: ll, element: le, right: lr, measure: _lm } =
                            *lbox;
                        proof {
                            assert(left.wf());
                            assert(ll.wf() && lr.wf());
                            assert(left.left_spine_len() == 1 + ll.left_spine_len());
                        }
                        let new_right = Self::fork(lr, element, right);
                        proof {
                            assert(ll.inorder() + seq![le] + new_right.inorder() =~= ((ll.inorder()
                                + seq![le] + lr.inorder()) + seq![element] + right.inorder()));
                        }
                        let t2 = Self::fork_measure(ll, le, new_right, measure);
                        Self::uncons(t2)
                    },
                }
            },
        }
    }

    /// Removes the last element, descending the right spine; the mirror image
    /// of `uncons`. Yields nothing exactly on the empty tree.
    pub fn unsnoc(self) -> (r: Option<(Self, T)>)
        requires
            self.wf(),
        ensures
            match r {
                None => self.inorder().len() == 0,
                Some(p) => {
                    &&& self.inorder().len() > 0
                    &&& p.1 == self.inorder().last()
                    &&& p.0.wf()
                    &&& p.0.inorder() == self.inorder().drop_last()
                },
            },
        decreases self.right_spine_len(),
    {
        match self {
            SplayTree::Leaf => None,
            SplayTree::Fork(fbox) => {
                let SplayTreeFork { left, element, right, measure } = *fbox;
                proof {
                    assert(left.wf() && right.wf());
                    assert(self.inorder() == left.inorder() + seq![element] + right.inorder());
                    assert(measure == seq_measure(self.inorder()));
                }
                match right {
                    SplayTree::Leaf => {
                        proof {
                            assert(self.inorder() =~= left.inorder() + seq![element]);
                            assert(self.inorder().drop_last() =~= left.inorder());
                        }
                        Some((left, element))
                    },
                    SplayTree::Fork(rbox) => {
                        let SplayTreeFork { left: rl, element: re, right: rr, measure: _rm } =
                            *rbox;
                        proof {
                            assert(right.wf());
                            assert(rl.wf() && rr.wf());
                            assert(right.right_spine_len() == 1 + rr.right_spine_len());
                        }
                        let new_left = Self::fork(left, element, rl);
                        proof {
                            assert(new_left.inorder() + seq![re] + rr.inorder() =~= (left.inorder()
                                + seq![element] + (rl.inorder() + seq![re] + rr.inorder())));
                        }
                        let t2 = Self::fork_measure(new_left, re, rr, measure);
                        Self::unsnoc(t2)
                    },
                }
            },
        }
    }

    /// The recursive worker behind `split`. `v` is the measure of the prefix
    /// already accumulated in `left`; `right` holds what is already known to
    /// lie at or beyond the boundary.
    #[verifier::rlimit(60)]
    fn split_rec<P: MeasurePredicate<M>>(
        v: M,
        left: Self,
        tree: Self,
        right: Self,
        pred: &P,
    ) -> (r: SplitResult<M, T>)
        requires
            left.wf(),
            tree.wf(),
            right.wf(),
            v == seq_measure(left.inorder()),
            left.inorder().len() > 0 ==> !pred.spec_test(seq_measure(left.inorder())),
            right.inorder().len() > 0 ==> pred.spec_test(
                seq_measure(left.inorder() + tree.inorder()),
            ),
        ensures
            split_post(*pred, left.inorder() + tree.inorder() + right.inorder(), r),
        decreases tree,
    {
        match tree {
            SplayTree::Leaf => {
                proof {
                    assert(left.inorder() + tree.inorder() =~= left.inorder());
                    assert(left.inorder() + tree.inorder() + right.inorder() =~= left.inorder()
                        + right.inorder());
                }
                match (left, right) {
                    (SplayTree::Leaf, SplayTree::Leaf) => {
                        let z = M::zero();
                        proof {
                            assert(Seq::<T>::empty() + Seq::<T>::empty() =~= Seq::<T>::empty());
                            assert(seq_measure(Seq::<T>::empty()) == M::spec_zero());
                        }
                        if pred.test(&z) {
                            SplitResult::LeftOf(SplayTree::Leaf)
                        } else {
                            SplitResult::RightOf(SplayTree::Leaf)
                        }
                    },
                    (SplayTree::Leaf, r2) => {
                        proof {
                            lemma_inorder_len::<M, T>(r2);
                            assert(Seq::<T>::empty() + r2.inorder() =~= r2.inorder());
                            assert(seq_measure(Seq::<T>::empty()) == M::spec_zero());
                        }
                        SplitResult::LeftOf(r2)
                    },
                    (l2, SplayTree::Leaf) => {
                        proof {
                            lemma_inorder_len::<M, T>(l2);
                            assert(l2.inorder() + Seq::<T>::empty() =~= l2.inorder());
                        }
                        SplitResult::RightOf(l2)
                    },
                    (l2, r2) => {
                        proof {
                            lemma_inorder_len::<M, T>(l2);
                            lemma_inorder_len::<M, T>(r2);
                            assert(!pred.spec_test(seq_measure(l2.inorder())));
                            assert(pred.spec_test(seq_measure(l2.inorder())));
                            assert(false);
                        }
                        SplitResult::NonMonotonic(l2, r2)
                    },
                }
            },
            SplayTree::Fork(fbox) => {
                let SplayTreeFork { left: fl, element: fe, right: fr, measure: _fm } = *fbox;
                proof {
                    assert(fl.wf() && fr.wf());
                    assert(tree.inorder() == fl.inorder() + seq![fe] + fr.inorder());
                }
                let ml = fl.measure();
                let vl = v.combine(&ml);
                proof {
                    lemma_seq_measure_concat::<M, T>(left.inorder(), fl.inorder());
                }
                if pred.test(&vl) {
                    // The boundary lies within or before the left subtree.
                    let se = Self::singleton(fe);
                    let t1 = Self::concatenate(se, fr);
                    let new_right = Self::concatenate(t1, right);
                    proof {
                        assert(new_right.inorder().len() > 0);
                        assert(left.inorder() + fl.inorder() + new_right.inorder()
                            =~= left.inorder() + tree.inorder() + right.inorder());
                    }
                    Self::split_rec(v, left, fl, new_right, pred)
                } else {
                    let me_ = fe.measure();
                    let vla = vl.combine(&me_);
                    proof {
                        lemma_seq_measure_singleton::<M, T>(fe);
                        lemma_seq_measure_concat::<M, T>(left.inorder() + fl.inorder(), seq![fe]);
                    }
                    if pred.test(&vla) {
                        // The root element itself is the boundary.
                        let new_l = Self::concatenate(left, fl);
                        let new_r = Self::concatenate(fr, right);
                        let lm = new_l.measure();
                        let rm = new_r.measure();
                        let m = lm.combine(&me_).combine(&rm);
                        proof {
                            lemma_seq_measure_concat::<M, T>(new_l.inorder(), seq![fe]);
                            lemma_seq_measure_concat::<M, T>(
                                new_l.inorder() + seq![fe],
                                new_r.inorder(),
                            );
                            assert(new_l.inorder() + seq![fe] + new_r.inorder() =~= left.inorder()
                                + tree.inorder() + right.inorder());
                        }
                        SplitResult::Inside(
                            SplayTreeFork { left: new_l, element: fe, right: new_r, measure: m },
                        )
                    } else {
                        // The boundary lies beyond the root element.
                        let se = Self::singleton(fe);
                        let t1 = Self::concatenate(left, fl);
                        let new_left = Self::concatenate(t1, se);
                        proof {
                            assert(new_left.inorder().len() > 0);
                            assert(new_left.inorder() + fr.inorder() =~= left.inorder()
                                + tree.inorder());
                            assert(new_left.inorder() + fr.inorder() + right.inorder()
                                =~= left.inorder() + tree.inorder() + right.inorder());
                        }
                        Self::split_rec(vla, new_left, fr, right, pred)
                    }
                }
            },
        }
    }

    /// Partitions the sequence at the boundary where a predicate over the
    /// running prefix measure first flips from false to true: `Inside` hands
    /// back the boundary element between the two halves, `RightOf` a sequence
    /// on which the predicate never became true, `LeftOf` one where it was
    /// already true on the empty prefix.
    pub fn split<P: MeasurePredicate<M>>(self, pred: &P) -> (r: SplitResult<M, T>)
        requires
            self.wf(),
        ensures
            split_post(*pred, self.inorder(), r),
    {
        proof {
            assert(seq_measure(Seq::<T>::empty()) == M::spec_zero());
            assert(Seq::<T>::empty() + self.inorder() + Seq::<T>::empty() =~= self.inorder());
        }
        let z = M::zero();
        Self::split_rec(z, SplayTree::Leaf, self, SplayTree::Leaf, pred)
    }

    /// Materializes the represented sequence in order.
    pub fn iter(self) -> (r: Vec<T>)
        ensures
            r@ == self.inorder(),
        decreases self,
    {
        match self {
            SplayTree::Leaf => Vec::new(),
            SplayTree::Fork(fbox) => {
                let SplayTreeFork { left, element, right, measure: _m } = *fbox;
                let mut v = left.iter();
                v.push(element);
                let mut rv = right.iter();
                v.append(&mut rv);
                proof {
                    assert(v@ =~= left.inorder() + seq![element] + right.inorder());
                }
                v
            },
        }
    }
}

} // verus!
