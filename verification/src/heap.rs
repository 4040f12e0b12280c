//! A tournament (winner-tree) heap optimised for repeated pop-then-push on
//! the same leaf slot, as used by the k-way merger.  `pop` yields a greatest
//! element under the item order; empty leaves lose every comparison.

use vstd::prelude::*;

use vstd::multiset::Multiset;
use vstd::pervasive::VecAdditionalExecFns;

verus! {

broadcast use vstd::multiset::group_multiset_axioms, vstd::seq_lib::group_to_multiset_ensures;

/// A total preorder that heap items are ranked by.  `le_spec` must be total
/// and transitive; `le` decides it.
pub trait HeapOrd: Sized {
    spec fn le_spec(self, other: Self) -> bool;

    proof fn lemma_le_total(a: Self, b: Self)
        ensures
            a.le_spec(b) || b.le_spec(a),
    ;

    proof fn lemma_le_trans(a: Self, b: Self, c: Self)
        requires
            a.le_spec(b),
            b.le_spec(c),
        ensures
            a.le_spec(c),
    ;

    fn le(&self, other: &Self) -> (r: bool)
        ensures
            r == self.le_spec(*other),
    ;
}

impl HeapOrd for u32 {
    open spec fn le_spec(self, other: Self) -> bool {
        self <= other
    }

    proof fn lemma_le_total(a: Self, b: Self) {
    }

    proof fn lemma_le_trans(a: Self, b: Self, c: Self) {
    }

    fn le(&self, other: &Self) -> (r: bool) {
        *self <= *other
    }
}

impl HeapOrd for i32 {
    open spec fn le_spec(self, other: Self) -> bool {
        self <= other
    }

    proof fn lemma_le_total(a: Self, b: Self) {
    }

    proof fn lemma_le_trans(a: Self, b: Self, c: Self) {
    }

    fn le(&self, other: &Self) -> (r: bool) {
        *self <= *other
    }
}

/// One leaf slot of the tree: either holds an item or is empty.
#[derive(PartialEq, Eq, Debug)]
pub struct Leaf<T> {
    pub value: Option<T>,
}

impl<T> Leaf<T> {
    pub fn new(value: T) -> (r: Self)
        ensures
            r.value == Some(value),
    {
        Leaf { value: Some(value) }
    }

    pub fn take_value(&mut self) -> (r: Option<T>)
        ensures
            r == old(self).value,
            final(self).value is None,
    {
        let mut tmp: Option<T> = None;
        std::mem::swap(&mut self.value, &mut tmp);
        tmp
    }

    pub fn fill_value(&mut self, value: T)
        ensures
            final(self).value == Some(value),
    {
        self.value = Some(value);
    }
}

impl<T> Default for Leaf<T> {
    fn default() -> (r: Self)
        ensures
            r.value is None,
    {
        Leaf { value: None }
    }
}

/// An occupied leaf strictly beats an empty one; two occupied leaves compare
/// by the item order, where `x` beats `y` only when `x` is not below `y`.
pub open spec fn leaf_gt<T: HeapOrd>(x: Leaf<T>, y: Leaf<T>) -> bool {
    match (x.value, y.value) {
        (Some(a), Some(b)) => !a.le_spec(b),
        (Some(_), None) => true,
        (None, _) => false,
    }
}

/// Leaf order: an empty leaf is below everything.
pub open spec fn leaf_le<T: HeapOrd>(x: Leaf<T>, y: Leaf<T>) -> bool {
    !leaf_gt(x, y)
}

fn leaf_gt_exec<T: HeapOrd>(x: &Leaf<T>, y: &Leaf<T>) -> (r: bool)
    ensures
        r == leaf_gt(*x, *y),
{
    match (&x.value, &y.value) {
        (Some(a), Some(b)) => !a.le(b),
        (Some(_), None) => true,
        (None, _) => false,
    }
}

/// Does leaf index `a` beat leaf index `b`?  The slot named by `top`, if
/// any, beats everything regardless of its contents.
pub open spec fn idx_gt<T: HeapOrd>(leaves: Seq<Leaf<T>>, a: int, b: int, top: Option<int>) -> bool {
    if top == Some(a) {
        true
    } else if top == Some(b) {
        false
    } else {
        leaf_gt(leaves[a], leaves[b])
    }
}

/// The winner of a bottom node over leaf slots `a < b`; slots at or past the
/// end of the leaf array are missing and lose.
pub open spec fn bottom_win<T: HeapOrd>(
    leaves: Seq<Leaf<T>>,
    a: int,
    b: int,
    top: Option<int>,
) -> Option<usize> {
    if a < leaves.len() && b < leaves.len() {
        if idx_gt(leaves, a, b, top) {
            Some(a as usize)
        } else {
            Some(b as usize)
        }
    } else if a < leaves.len() {
        Some(a as usize)
    } else {
        None
    }
}

/// The winner of an upper node from its two children's winners.
pub open spec fn combine_win<T: HeapOrd>(
    leaves: Seq<Leaf<T>>,
    l: Option<usize>,
    r: Option<usize>,
    top: Option<int>,
) -> Option<usize> {
    match (l, r) {
        (Some(a), Some(b)) => if idx_gt(leaves, a as int, b as int, top) {
            l
        } else {
            r
        },
        (Some(_), None) => l,
        (None, Some(_)) => r,
        (None, None) => None,
    }
}

/// The correct winner of the subtree rooted at internal node `i` of a tree
/// with `s` internal nodes, recomputed from the leaves alone.
pub open spec fn exp_win<T: HeapOrd>(
    leaves: Seq<Leaf<T>>,
    s: int,
    i: int,
    top: Option<int>,
) -> Option<usize>
    decreases s - i,
    when 0 <= i < s && s % 2 == 1
{
    if i >= s / 2 {
        bottom_win(leaves, 2 * i + 1 - s, 2 * i + 2 - s, top)
    } else {
        combine_win(
            leaves,
            exp_win(leaves, s, 2 * i + 1, top),
            exp_win(leaves, s, 2 * i + 2, top),
            top,
        )
    }
}

/// Is internal node `a` equal to or an ancestor of internal node `m`?
pub open spec fn anc(a: int, m: int) -> bool
    decreases m,
    when m >= 0
{
    m == a || (m > 0 && anc(a, (m - 1) / 2))
}

/// The bottom internal node whose pair of leaf slots contains leaf `j`.
pub open spec fn bot(j: int, s: int) -> int {
    (j + s - 1) / 2
}

proof fn lemma_anc_le(a: int, m: int)
    requires
        m >= 0,
        anc(a, m),
    ensures
        0 <= a <= m,
    decreases m,
{
    if m != a {
        lemma_anc_le(a, (m - 1) / 2);
    }
}

proof fn lemma_anc_zero(m: int)
    requires
        m >= 0,
    ensures
        anc(0, m),
    decreases m,
{
    if m > 0 {
        lemma_anc_zero((m - 1) / 2);
    }
}

proof fn lemma_anc_child(i: int, m: int)
    requires
        m >= 0,
        anc(i, m),
        m != i,
    ensures
        anc(2 * i + 1, m) || anc(2 * i + 2, m),
    decreases m,
{
    lemma_anc_le(i, m);
    let p = (m - 1) / 2;
    if p == i {
        assert(m == 2 * i + 1 || m == 2 * i + 2);
    } else {
        lemma_anc_child(i, p);
    }
}

proof fn lemma_anc_from_child(c: int, i: int, m: int)
    requires
        m >= 0,
        i >= 0,
        c == 2 * i + 1 || c == 2 * i + 2,
        anc(c, m),
    ensures
        anc(i, m),
    decreases m,
{
    if m == c {
        assert((c - 1) / 2 == i);
        assert(anc(i, (m - 1) / 2));
    } else {
        lemma_anc_from_child(c, i, (m - 1) / 2);
    }
}

proof fn lemma_anc_not_both(i: int, m: int)
    requires
        m >= 0,
        i >= 0,
    ensures
        !(anc(2 * i + 1, m) && anc(2 * i + 2, m)),
    decreases m,
{
    if anc(2 * i + 1, m) && anc(2 * i + 2, m) {
        if m == 2 * i + 2 {
            assert(anc(2 * i + 1, (m - 1) / 2));
            lemma_anc_le(2 * i + 1, (m - 1) / 2);
        } else if m == 2 * i + 1 {
            lemma_anc_le(2 * i + 2, m);
        } else {
            lemma_anc_le(2 * i + 1, m);
            lemma_anc_not_both(i, (m - 1) / 2);
        }
    }
}

proof fn lemma_anc_total(a: int, a2: int, m: int)
    requires
        m >= 0,
        anc(a, m),
        anc(a2, m),
    ensures
        anc(a, a2) || anc(a2, a),
    decreases m,
{
    lemma_anc_le(a, m);
    lemma_anc_le(a2, m);
    if m == a {
        // a2 <= m == a and anc(a2, a)
    } else if m == a2 {
    } else {
        lemma_anc_total(a, a2, (m - 1) / 2);
    }
}

/// For a bottom node, being an ancestor of a bottom node means being it.
proof fn lemma_anc_bottom(i: int, m: int, s: int)
    requires
        s % 2 == 1,
        s / 2 <= i < s,
        s / 2 <= m < s,
        anc(i, m),
    ensures
        i == m,
    decreases m,
{
    if m != i {
        assert(anc(i, (m - 1) / 2));
        lemma_anc_le(i, (m - 1) / 2);
    }
}

proof fn lemma_anc_trans(a: int, b: int, m: int)
    requires
        m >= 0,
        anc(a, b),
        anc(b, m),
    ensures
        anc(a, m),
    decreases m,
{
    lemma_anc_le(b, m);
    lemma_anc_le(a, b);
    if m != b {
        lemma_anc_trans(a, b, (m - 1) / 2);
    }
}

proof fn lemma_leaf_refl<T: HeapOrd>(x: Leaf<T>)
    ensures
        leaf_le(x, x),
{
    match x.value {
        Some(a) => {
            T::lemma_le_total(a, a);
        },
        None => {
        },
    }
}

proof fn lemma_leaf_total<T: HeapOrd>(x: Leaf<T>, y: Leaf<T>)
    ensures
        leaf_le(x, y) || leaf_le(y, x),
{
    match (x.value, y.value) {
        (Some(a), Some(b)) => {
            T::lemma_le_total(a, b);
        },
        _ => {
        },
    }
}

proof fn lemma_leaf_trans<T: HeapOrd>(x: Leaf<T>, y: Leaf<T>, z: Leaf<T>)
    requires
        leaf_le(x, y),
        leaf_le(y, z),
    ensures
        leaf_le(x, z),
{
    match (x.value, y.value, z.value) {
        (Some(a), Some(b), Some(c)) => {
            T::lemma_le_trans(a, b, c);
        },
        _ => {
        },
    }
}

/// Every leaf slot index maps to a bottom internal node.
proof fn lemma_bot_range(j: int, s: int)
    requires
        s % 2 == 1,
        s >= 1,
        0 <= j <= s,
    ensures
        s / 2 <= bot(j, s) < s,
{
}

/// The winner of a clean subtree is a valid leaf index it covers, and it
/// dominates every leaf the subtree covers; an empty subtree covers nothing.
proof fn lemma_exp_dominates<T: HeapOrd>(leaves: Seq<Leaf<T>>, s: int, i: int)
    requires
        s % 2 == 1,
        0 <= i < s <= usize::MAX,
        leaves.len() <= s + 1,
    ensures
        match exp_win(leaves, s, i, None::<int>) {
            Some(w) => w < leaves.len() && anc(i, bot(w as int, s)) && forall|j: int|
                0 <= j < leaves.len() && anc(i, bot(j, s)) ==> leaf_le(
                    leaves[j],
                    leaves[w as int],
                ),
            None => forall|j: int| 0 <= j < leaves.len() ==> !anc(i, bot(j, s)),
        },
    decreases s - i,
{
    let half = s / 2;
    if i >= half {
        let a = 2 * i + 1 - s;
        let b = 2 * i + 2 - s;
        assert(0 <= a && a + 1 == b && b <= s);
        assert(exp_win(leaves, s, i, None::<int>) == bottom_win(leaves, a, b, None::<int>));
        assert(bot(a, s) == i);
        assert(bot(b, s) == i);
        assert(anc(i, i));
        assert forall|j: int| 0 <= j < leaves.len() && anc(i, bot(j, s)) implies j == a || j
            == b by {
            lemma_bot_range(j, s);
            lemma_anc_bottom(i, bot(j, s), s);
        }
        if a < leaves.len() && b < leaves.len() {
            lemma_leaf_refl(leaves[a]);
            lemma_leaf_refl(leaves[b]);
            lemma_leaf_total(leaves[a], leaves[b]);
            assert(a as usize as int == a && b as usize as int == b);
        } else if a < leaves.len() {
            lemma_leaf_refl(leaves[a]);
            assert(a as usize as int == a);
        }
    } else {
        let cl = 2 * i + 1;
        let cr = 2 * i + 2;
        lemma_exp_dominates(leaves, s, cl);
        lemma_exp_dominates(leaves, s, cr);
        let wl = exp_win(leaves, s, cl, None::<int>);
        let wr = exp_win(leaves, s, cr, None::<int>);
        assert(exp_win(leaves, s, i, None::<int>) == combine_win(leaves, wl, wr, None::<int>));
        assert forall|j: int|
            0 <= j < leaves.len() && anc(i, bot(j, s)) implies anc(cl, bot(j, s)) || anc(
            cr,
            bot(j, s),
        ) by {
            lemma_bot_range(j, s);
            assert(bot(j, s) != i);
            lemma_anc_child(i, bot(j, s));
        }
        match (wl, wr) {
            (Some(wa), Some(wb)) => {
                lemma_anc_from_child(cl, i, bot(wa as int, s));
                lemma_anc_from_child(cr, i, bot(wb as int, s));
                if idx_gt(leaves, wa as int, wb as int, None::<int>) {
                    lemma_leaf_total(leaves[wa as int], leaves[wb as int]);
                    assert forall|j: int|
                        0 <= j < leaves.len() && anc(i, bot(j, s)) implies leaf_le(
                        leaves[j],
                        leaves[wa as int],
                    ) by {
                        if anc(cr, bot(j, s)) {
                            lemma_leaf_trans(leaves[j], leaves[wb as int], leaves[wa as int]);
                        }
                    }
                } else {
                    assert forall|j: int|
                        0 <= j < leaves.len() && anc(i, bot(j, s)) implies leaf_le(
                        leaves[j],
                        leaves[wb as int],
                    ) by {
                        if anc(cl, bot(j, s)) {
                            lemma_leaf_trans(leaves[j], leaves[wa as int], leaves[wb as int]);
                        }
                    }
                }
            },
            (Some(wa), None) => {
                lemma_anc_from_child(cl, i, bot(wa as int, s));
            },
            (None, Some(wb)) => {
                lemma_anc_from_child(cr, i, bot(wb as int, s));
            },
            (None, None) => {
            },
        }
    }
}

/// Marking slot `p` as the unconditional winner makes `p` win every subtree
/// that covers it and leaves every other subtree's winner unchanged.
proof fn lemma_exp_top<T: HeapOrd>(leaves: Seq<Leaf<T>>, s: int, i: int, p: int)
    requires
        s % 2 == 1,
        0 <= i < s <= usize::MAX,
        leaves.len() <= s + 1,
        0 <= p < leaves.len(),
    ensures
        anc(i, bot(p, s)) ==> exp_win(leaves, s, i, Some(p)) == Some(p as usize),
        !anc(i, bot(p, s)) ==> exp_win(leaves, s, i, Some(p)) == exp_win(
            leaves,
            s,
            i,
            None::<int>,
        ),
    decreases s - i,
{
    let half = s / 2;
    lemma_bot_range(p, s);
    if i >= half {
        let a = 2 * i + 1 - s;
        let b = 2 * i + 2 - s;
        assert(0 <= a && a + 1 == b && b <= s);
        assert(bot(a, s) == i);
        assert(bot(b, s) == i);
        assert(exp_win(leaves, s, i, Some(p)) == bottom_win(leaves, a, b, Some(p)));
        assert(exp_win(leaves, s, i, None::<int>) == bottom_win(leaves, a, b, None::<int>));
        if anc(i, bot(p, s)) {
            lemma_anc_bottom(i, bot(p, s), s);
            assert(p == a || p == b);
            assert(p as usize as int == p);
        } else {
            if bot(p, s) == i {
                assert(anc(i, i));
                assert(false);
            }
            assert(p != a && p != b);
        }
    } else {
        let cl = 2 * i + 1;
        let cr = 2 * i + 2;
        lemma_exp_top(leaves, s, cl, p);
        lemma_exp_top(leaves, s, cr, p);
        lemma_exp_dominates(leaves, s, cl);
        lemma_exp_dominates(leaves, s, cr);
        let ml = exp_win(leaves, s, cl, Some(p));
        let mr = exp_win(leaves, s, cr, Some(p));
        let nl = exp_win(leaves, s, cl, None::<int>);
        let nr = exp_win(leaves, s, cr, None::<int>);
        assert(exp_win(leaves, s, i, Some(p)) == combine_win(leaves, ml, mr, Some(p)));
        assert(exp_win(leaves, s, i, None::<int>) == combine_win(leaves, nl, nr, None::<int>));
        if anc(i, bot(p, s)) {
            assert(bot(p, s) != i);
            lemma_anc_child(i, bot(p, s));
            lemma_anc_not_both(i, bot(p, s));
            if anc(cl, bot(p, s)) {
                assert(ml == Some(p as usize));
                assert(mr == nr);
                // the right child's winner is not p
                match nr {
                    Some(wb) => {
                        if wb as int == p {
                            assert(anc(cr, bot(p, s)));
                            assert(false);
                        }
                        assert(idx_gt(leaves, p, wb as int, Some(p)));
                        assert(combine_win(leaves, ml, mr, Some(p)) == Some(p as usize));
                    },
                    None => {
                        assert(combine_win(leaves, ml, mr, Some(p)) == Some(p as usize));
                    },
                }
            } else {
                assert(anc(cr, bot(p, s)));
                assert(mr == Some(p as usize));
                assert(ml == nl);
                match nl {
                    Some(wa) => {
                        if wa as int == p {
                            assert(anc(cl, bot(p, s)));
                            assert(false);
                        }
                        assert(!idx_gt(leaves, wa as int, p, Some(p)));
                        assert(combine_win(leaves, ml, mr, Some(p)) == Some(p as usize));
                    },
                    None => {
                        assert(combine_win(leaves, ml, mr, Some(p)) == Some(p as usize));
                    },
                }
            }
        } else {
            if anc(cl, bot(p, s)) {
                lemma_anc_from_child(cl, i, bot(p, s));
                assert(false);
            }
            if anc(cr, bot(p, s)) {
                lemma_anc_from_child(cr, i, bot(p, s));
                assert(false);
            }
            assert(ml == nl);
            assert(mr == nr);
            match (nl, nr) {
                (Some(wa), Some(wb)) => {
                    if wa as int == p {
                        assert(anc(cl, bot(p, s)));
                        assert(false);
                    }
                    if wb as int == p {
                        assert(anc(cr, bot(p, s)));
                        assert(false);
                    }
                    assert(idx_gt(leaves, wa as int, wb as int, Some(p)) == idx_gt(
                        leaves,
                        wa as int,
                        wb as int,
                        None::<int>,
                    ));
                },
                _ => {
                },
            }
        }
    }
}

/// In a clean tree the overall winner also wins every subtree on its path.
proof fn lemma_exp_chain<T: HeapOrd>(leaves: Seq<Leaf<T>>, s: int, i: int, p: int)
    requires
        s % 2 == 1,
        0 <= i < s <= usize::MAX,
        leaves.len() <= s + 1,
        0 <= p < leaves.len(),
        anc(i, bot(p, s)),
        exp_win(leaves, s, i, None::<int>) == Some(p as usize),
    ensures
        forall|m: int|
            0 <= m < s && anc(m, bot(p, s)) && anc(i, m) ==> exp_win(leaves, s, m, None::<int>)
                == Some(p as usize),
    decreases s - i,
{
    let half = s / 2;
    lemma_bot_range(p, s);
    if i >= half {
        lemma_anc_bottom(i, bot(p, s), s);
        assert forall|m: int|
            0 <= m < s && anc(m, bot(p, s)) && anc(i, m) implies exp_win(
            leaves,
            s,
            m,
            None::<int>,
        ) == Some(p as usize) by {
            lemma_anc_le(i, m);
            lemma_anc_bottom(m, bot(p, s), s);
        }
    } else {
        let cl = 2 * i + 1;
        let cr = 2 * i + 2;
        lemma_exp_dominates(leaves, s, cl);
        lemma_exp_dominates(leaves, s, cr);
        assert(bot(p, s) != i);
        lemma_anc_child(i, bot(p, s));
        lemma_anc_not_both(i, bot(p, s));
        let c = if anc(cl, bot(p, s)) {
            cl
        } else {
            cr
        };
        let other = if anc(cl, bot(p, s)) {
            cr
        } else {
            cl
        };
        assert(anc(c, bot(p, s)));
        assert(!anc(other, bot(p, s)));
        let nl = exp_win(leaves, s, cl, None::<int>);
        let nr = exp_win(leaves, s, cr, None::<int>);
        assert(exp_win(leaves, s, i, None::<int>) == combine_win(leaves, nl, nr, None::<int>));
        // the winner p can only come from the child whose subtree covers p
        match exp_win(leaves, s, other, None::<int>) {
            Some(wo) => {
                if wo as int == p {
                    assert(anc(other, bot(wo as int, s)));
                    assert(false);
                }
            },
            None => {
            },
        }
        // the combined winner is one of the two children's winners
        match (nl, nr) {
            (Some(wa), Some(wb)) => {
                assert(nl == Some(p as usize) || nr == Some(p as usize));
            },
            _ => {
            },
        }
        assert(exp_win(leaves, s, c, None::<int>) == Some(p as usize));
        lemma_exp_chain(leaves, s, c, p);
        assert forall|m: int|
            0 <= m < s && anc(m, bot(p, s)) && anc(i, m) implies exp_win(
            leaves,
            s,
            m,
            None::<int>,
        ) == Some(p as usize) by {
            if m != i {
                lemma_anc_child(i, m);
                if anc(cl, m) && anc(cr, m) {
                    lemma_anc_not_both(i, m);
                }
                if anc(other, m) {
                    lemma_anc_trans(other, m, bot(p, s));
                    assert(anc(other, bot(p, s)));
                    assert(false);
                }
                assert(anc(c, m));
            }
        }
    }
}

/// A subtree's winner under a mark at `p` does not depend on the contents of
/// slot `p`.
proof fn lemma_exp_frame<T: HeapOrd>(
    leaves: Seq<Leaf<T>>,
    leaves2: Seq<Leaf<T>>,
    s: int,
    i: int,
    p: int,
)
    requires
        s % 2 == 1,
        0 <= i < s <= usize::MAX,
        leaves.len() <= s + 1,
        leaves2.len() == leaves.len(),
        0 <= p < leaves.len(),
        forall|j: int| 0 <= j < leaves.len() && j != p ==> leaves2[j] == leaves[j],
    ensures
        exp_win(leaves2, s, i, Some(p)) == exp_win(leaves, s, i, Some(p)),
    decreases s - i,
{
    let half = s / 2;
    lemma_bot_range(p, s);
    if i >= half {
        let a = 2 * i + 1 - s;
        let b = 2 * i + 2 - s;
        assert(0 <= a && a + 1 == b && b <= s);
        assert(exp_win(leaves, s, i, Some(p)) == bottom_win(leaves, a, b, Some(p)));
        assert(exp_win(leaves2, s, i, Some(p)) == bottom_win(leaves2, a, b, Some(p)));
        if a < leaves.len() && b < leaves.len() {
            if a != p && b != p {
                assert(leaves2[a] == leaves[a]);
                assert(leaves2[b] == leaves[b]);
            }
        }
    } else {
        let cl = 2 * i + 1;
        let cr = 2 * i + 2;
        lemma_exp_frame(leaves, leaves2, s, cl, p);
        lemma_exp_frame(leaves, leaves2, s, cr, p);
        lemma_exp_top(leaves, s, cl, p);
        lemma_exp_top(leaves, s, cr, p);
        lemma_exp_dominates(leaves, s, cl);
        lemma_exp_dominates(leaves, s, cr);
        let ml = exp_win(leaves, s, cl, Some(p));
        let mr = exp_win(leaves, s, cr, Some(p));
        assert(exp_win(leaves, s, i, Some(p)) == combine_win(leaves, ml, mr, Some(p)));
        assert(exp_win(leaves2, s, i, Some(p)) == combine_win(leaves2, ml, mr, Some(p)));
        match (ml, mr) {
            (Some(wa), Some(wb)) => {
                if wa as int != p && wb as int != p {
                    // neither winner is the marked slot, so their leaves agree
                    if anc(cl, bot(p, s)) {
                        assert(ml == Some(p as usize));
                        assert(false);
                    }
                    assert(ml == exp_win(leaves, s, cl, None::<int>));
                    assert(wa < leaves.len());
                    if anc(cr, bot(p, s)) {
                        assert(mr == Some(p as usize));
                        assert(false);
                    }
                    assert(mr == exp_win(leaves, s, cr, None::<int>));
                    assert(wb < leaves.len());
                    assert(leaves2[wa as int] == leaves[wa as int]);
                    assert(leaves2[wb as int] == leaves[wb as int]);
                    assert(idx_gt(leaves2, wa as int, wb as int, Some(p)) == idx_gt(
                        leaves,
                        wa as int,
                        wb as int,
                        Some(p),
                    ));
                }
            },
            _ => {
            },
        }
    }
}


/// The multiset of items held by occupied leaves.
pub open spec fn live_of<T>(s: Seq<Leaf<T>>) -> Multiset<T>
    decreases s.len(),
{
    if s.len() == 0 {
        Multiset::empty()
    } else {
        match s.last().value {
            Some(v) => live_of(s.drop_last()).insert(v),
            None => live_of(s.drop_last()),
        }
    }
}

/// An item held by some leaf occurs in the live multiset.
proof fn lemma_live_member<T>(s: Seq<Leaf<T>>, j: int)
    requires
        0 <= j < s.len(),
    ensures
        match s[j].value {
            Some(v) => live_of(s).count(v) >= 1,
            None => true,
        },
    decreases s.len(),
{
    if j < s.len() - 1 {
        lemma_live_member(s.drop_last(), j);
        assert(s.drop_last()[j] == s[j]);
    }
}

/// Every item of the live multiset is held by some leaf.
proof fn lemma_live_exists<T>(s: Seq<Leaf<T>>, w: T)
    requires
        live_of(s).count(w) > 0,
    ensures
        exists|j: int| 0 <= j < s.len() && s[j].value == Some(w),
    decreases s.len(),
{
    if s.len() > 0 {
        match s.last().value {
            Some(v) => {
                if v == w {
                    assert(s[s.len() - 1].value == Some(w));
                } else {
                    lemma_live_exists(s.drop_last(), w);
                    let j = choose|j: int|
                        0 <= j < s.drop_last().len() && s.drop_last()[j].value == Some(w);
                    assert(s[j].value == Some(w));
                }
            },
            None => {
                lemma_live_exists(s.drop_last(), w);
                let j = choose|j: int|
                    0 <= j < s.drop_last().len() && s.drop_last()[j].value == Some(w);
                assert(s[j].value == Some(w));
            },
        }
    }
}

/// How replacing one leaf changes the live multiset.
proof fn lemma_live_update<T>(s: Seq<Leaf<T>>, j: int, x: Leaf<T>)
    requires
        0 <= j < s.len(),
    ensures
        live_of(s.update(j, x)) == match (s[j].value, x.value) {
            (Some(v), Some(w)) => live_of(s).remove(v).insert(w),
            (Some(v), None) => live_of(s).remove(v),
            (None, Some(w)) => live_of(s).insert(w),
            (None, None) => live_of(s),
        },
    decreases s.len(),
{
    let t = s.update(j, x);
    if j == s.len() - 1 {
        assert(t.drop_last() =~= s.drop_last());
        assert(t.last() == x);
        let inner = live_of(s.drop_last());
        match (s[j].value, x.value) {
            (Some(v), Some(w)) => {
                assert(inner.insert(v).remove(v) =~= inner);
            },
            (Some(v), None) => {
                assert(inner.insert(v).remove(v) =~= inner);
            },
            _ => {
            },
        }
    } else {
        assert(t.drop_last() =~= s.drop_last().update(j, x));
        assert(t.last() == s.last());
        lemma_live_update(s.drop_last(), j, x);
        let inner = live_of(s.drop_last());
        assert(s.drop_last()[j] == s[j]);
        match (s[j].value, x.value) {
            (Some(v), Some(w)) => {
                lemma_live_member(s.drop_last(), j);
                match s.last().value {
                    Some(u) => {
                        assert(inner.remove(v).insert(w).insert(u) =~= inner.insert(
                            u,
                        ).remove(v).insert(w));
                    },
                    None => {
                    },
                }
            },
            (Some(v), None) => {
                lemma_live_member(s.drop_last(), j);
                match s.last().value {
                    Some(u) => {
                        assert(inner.remove(v).insert(u) =~= inner.insert(u).remove(v));
                    },
                    None => {
                    },
                }
            },
            _ => {
            },
        }
    }
}

/// A fully occupied leaf row holds exactly the items it was built from.
proof fn lemma_live_full<T>(s: Seq<Leaf<T>>, items: Seq<T>)
    requires
        s.len() == items.len(),
        forall|i: int| 0 <= i < s.len() ==> s[i].value == Some(items[i]),
    ensures
        live_of(s) == items.to_multiset(),
    decreases s.len(),
{
    if s.len() == 0 {
        assert(items =~= Seq::<T>::empty());
        assert(items.to_multiset() =~= Multiset::<T>::empty());
    } else {
        lemma_live_full(s.drop_last(), items.drop_last());
        assert(items =~= items.drop_last().push(items.last()));
        assert(items.drop_last().push(items.last()).to_multiset() =~= items.drop_last(
        ).to_multiset().insert(items.last()));
    }
}

/// Is `p` a power of two?
pub open spec fn is_pow2(p: nat) -> bool
    decreases p,
{
    if p <= 0 {
        false
    } else if p == 1 {
        true
    } else {
        p % 2 == 0 && is_pow2(p / 2)
    }
}

/// The least power of two at or above `n`.
pub open spec fn next_pow2(n: nat) -> nat
    decreases n,
{
    if n <= 1 {
        1
    } else {
        2 * next_pow2(((n + 1) / 2) as nat)
    }
}

/// The number of internal nodes of a winner tree over `n` leaves.
pub open spec fn spec_internal_len(n: nat) -> nat {
    if n == 0 {
        0nat
    } else if n == 1 {
        1nat
    } else {
        (next_pow2(n) - 1) as nat
    }
}

proof fn lemma_np2(n: nat)
    requires
        n >= 2,
    ensures
        is_pow2(next_pow2(n)),
        next_pow2(n) >= n,
        next_pow2(n) <= 2 * n - 2,
        next_pow2(n) % 2 == 0,
    decreases n,
{
    let m = ((n + 1) / 2) as nat;
    if m >= 2 {
        lemma_np2(m);
        assert(is_pow2(2 * next_pow2(m)));
    } else {
        assert(n == 2);
        assert(next_pow2(2nat) == 2 * next_pow2(1nat));
        assert(is_pow2(1nat));
        assert(is_pow2(2nat));
    }
}

proof fn lemma_pow2_unique(p: nat, q: nat)
    requires
        is_pow2(p),
        is_pow2(q),
        p <= q < 2 * p,
    ensures
        p == q,
    decreases p,
{
    if p > 1 {
        if q == 1 {
            assert(p <= 1);
        } else {
            lemma_pow2_unique(p / 2, q / 2);
        }
    }
}

fn next_pow2_exec(n: usize) -> (r: usize)
    requires
        2 <= n <= usize::MAX / 4,
    ensures
        r as nat == next_pow2(n as nat),
{
    proof {
        lemma_np2(n as nat);
    }
    let mut p: usize = 1;
    while p < n
        invariant
            n <= usize::MAX / 4,
            1 <= p,
            is_pow2(p as nat),
            p < 2 * n,
        decreases 2 * n - p,
    {
        proof {
            assert(is_pow2((2 * p) as nat));
        }
        p = 2 * p;
    }
    proof {
        if p as nat <= next_pow2(n as nat) {
            assert(next_pow2(n as nat) < 2 * (p as nat));
            lemma_pow2_unique(p as nat, next_pow2(n as nat));
        } else {
            assert((p as nat) < 2 * next_pow2(n as nat));
            lemma_pow2_unique(next_pow2(n as nat), p as nat);
        }
    }
    p
}

/// The all-empty internal node array for a tree over the given number of
/// leaves: one fewer node than the next power of two, or none at all for an
/// empty tree.
pub fn init_internal_structure(amount_of_items: usize) -> (r: Vec<Option<usize>>)
    requires
        amount_of_items <= usize::MAX / 4,
    ensures
        r@.len() == spec_internal_len(amount_of_items as nat),
        forall|i: int| 0 <= i < r@.len() ==> r@[i] is None,
{
    if amount_of_items == 0 {
        Vec::new()
    } else if amount_of_items == 1 {
        let mut v: Vec<Option<usize>> = Vec::new();
        v.push(None);
        v
    } else {
        proof {
            lemma_np2(amount_of_items as nat);
        }
        let p = next_pow2_exec(amount_of_items);
        let target = p - 1;
        let mut v: Vec<Option<usize>> = Vec::new();
        while v.len() < target
            invariant
                v@.len() <= target,
                forall|i: int| 0 <= i < v@.len() ==> v@[i] is None,
            decreases target - v@.len(),
        {
            v.push(None);
        }
        v
    }
}

/// Facts about the internal array size of a non-empty tree.
proof fn lemma_internal_len_props(n: nat)
    requires
        1 <= n <= usize::MAX / 4,
    ensures
        spec_internal_len(n) % 2 == 1,
        spec_internal_len(n) >= 1,
        n <= spec_internal_len(n) + 1,
        2 * spec_internal_len(n) + 1 <= usize::MAX,
{
    if n >= 2 {
        lemma_np2(n);
    }
}


/// The tournament heap: an internal node array storing winner leaf indices,
/// the leaf row, and the slot left empty by the most recent pop.
pub struct WinnerHeap<T> {
    pub internal: Vec<Option<usize>>,
    pub internal_size: usize,
    pub leaves: Vec<Leaf<T>>,
    pub last_pop: Option<usize>,
}

impl<T: HeapOrd> WinnerHeap<T> {
    /// The shape of a well-formed tree: an odd number of internal nodes,
    /// just enough for the leaves, with room for index arithmetic.
    pub open spec fn structure_ok(&self) -> bool {
        &&& self.internal_size == self.internal@.len()
        &&& (self.internal_size == 0 ==> self.leaves@.len() == 0 && self.last_pop is None)
        &&& (self.internal_size > 0 ==> self.internal_size % 2 == 1 && self.leaves@.len() >= 1)
        &&& self.leaves@.len() <= self.internal_size + 1
        &&& 2 * (self.internal_size as int) + 1 <= usize::MAX as int
    }

    /// Every internal node stores the recomputed winner of its subtree,
    /// where the slot named by `top`, if any, wins unconditionally.
    pub open spec fn consistent(&self, top: Option<int>) -> bool {
        forall|i: int|
            0 <= i < self.internal_size ==> self.internal@[i] == exp_win(
                self.leaves@,
                self.internal_size as int,
                i,
                top,
            )
    }

    /// Well-formed: consistent as-is, or consistent up to the one leaf slot
    /// emptied by the most recent pop, which replays as an unconditional
    /// winner until it is refilled.
    pub open spec fn wf(&self) -> bool {
        &&& self.structure_ok()
        &&& match self.last_pop {
            None => self.consistent(None::<int>),
            Some(p) => p < self.leaves@.len() && self.leaves@[p as int].value is None
                && self.consistent(Some(p as int)),
        }
    }

    /// The multiset of items currently held.
    pub open spec fn live(&self) -> Multiset<T> {
        live_of(self.leaves@)
    }

    /// Builds the tree over the given items in order.
    pub fn new(items: Vec<T>) -> (r: Self)
        requires
            items@.len() <= usize::MAX / 4,
        ensures
            r.wf(),
            r.last_pop is None,
            r.leaves@.len() == items@.len(),
            r.internal@.len() == spec_internal_len(items@.len() as nat),
            r.internal_size as nat == spec_internal_len(items@.len() as nat),
            forall|i: int| 0 <= i < items@.len() ==> r.leaves@[i].value == Some(items@[i]),
            r.live() == items@.to_multiset(),
    {
        if items.len() == 0 {
            proof {
                assert(items@ =~= Seq::<T>::empty());
                assert(items@.to_multiset() =~= Multiset::<T>::empty());
            }
            return Self::default();
        }
        let ghost items0 = items@;
        let mut items = items;
        let mut leaves: Vec<Leaf<T>> = Vec::new();
        while items.len() > 0
            invariant
                leaves@.len() + items@.len() == items0.len(),
                forall|i: int| 0 <= i < leaves@.len() ==> leaves@[i].value == Some(items0[i]),
                items@ == items0.skip(leaves@.len() as int),
            decreases items@.len(),
        {
            let ghost k = leaves@.len() as int;
            let v = items.remove(0);
            proof {
                assert(items0.skip(k)[0] == items0[k]);
                assert(items0.skip(k).remove(0) =~= items0.skip(k + 1));
            }
            leaves.push(Leaf::new(v));
        }
        proof {
            lemma_live_full(leaves@, items0);
            lemma_internal_len_props(items0.len() as nat);
        }
        let mut internal = init_internal_structure(leaves.len());
        let internal_size = internal.len();
        let ghost gs = internal_size as int;
        let lower_bound = internal_size / 2;
        let upper_bound = internal_size;

        // populate the lowest level of the internal structure
        let mut i = lower_bound;
        while i < upper_bound
            invariant
                internal@.len() == internal_size,
                gs == internal_size as int,
                gs % 2 == 1,
                1 <= gs,
                leaves@.len() <= gs + 1,
                1 <= leaves@.len(),
                2 * gs + 1 <= usize::MAX as int,
                lower_bound == internal_size / 2,
                lower_bound <= i <= upper_bound,
                upper_bound == internal_size,
                forall|m: int|
                    lower_bound <= m < i ==> internal@[m] == exp_win(
                        leaves@,
                        gs,
                        m,
                        None::<int>,
                    ),
            decreases upper_bound - i,
        {
            let left_index = 2 * i + 1 - internal_size;
            let right_index = 2 * i + 2 - internal_size;
            let w: Option<usize>;
            if right_index < leaves.len() {
                if leaf_gt_exec(&leaves[left_index], &leaves[right_index]) {
                    w = Some(left_index);
                } else {
                    w = Some(right_index);
                }
            } else if left_index < leaves.len() {
                w = Some(left_index);
            } else {
                w = None;
            }
            proof {
                assert(w == bottom_win(
                    leaves@,
                    left_index as int,
                    right_index as int,
                    None::<int>,
                ));
                assert(exp_win(leaves@, gs, i as int, None::<int>) == bottom_win(
                    leaves@,
                    2 * (i as int) + 1 - gs,
                    2 * (i as int) + 2 - gs,
                    None::<int>,
                ));
            }
            internal.set(i, w);
            i = i + 1;
        }

        proof {
            // one below the row boundary is always a power of two
            assert(is_pow2(1nat));
            if internal_size > 1 {
                lemma_np2(leaves@.len() as nat);
                let np = next_pow2(leaves@.len() as nat);
                assert(gs == np - 1);
                assert(np % 2 == 0 && np >= 2);
                assert(is_pow2(np / 2));
                assert((lower_bound + 1) as int == np / 2);
            }
        }

        // populate the other levels, one row at a time, bottom up
        let mut upper_bound = lower_bound;
        let mut lower_bound = lower_bound / 2;
        while upper_bound > 0
            invariant
                internal@.len() == internal_size,
                gs == internal_size as int,
                gs % 2 == 1,
                1 <= gs,
                leaves@.len() <= gs + 1,
                1 <= leaves@.len(),
                2 * gs + 1 <= usize::MAX as int,
                lower_bound == upper_bound / 2,
                is_pow2((upper_bound + 1) as nat),
                2 * upper_bound + 1 <= internal_size,
                forall|m: int|
                    upper_bound <= m < gs ==> internal@[m] == exp_win(
                        leaves@,
                        gs,
                        m,
                        None::<int>,
                    ),
            decreases upper_bound,
        {
            let mut i = lower_bound;
            while i < upper_bound
                invariant
                    internal@.len() == internal_size,
                    gs == internal_size as int,
                    gs % 2 == 1,
                    1 <= gs,
                    leaves@.len() <= gs + 1,
                    1 <= leaves@.len(),
                    2 * gs + 1 <= usize::MAX as int,
                    lower_bound == upper_bound / 2,
                    is_pow2((upper_bound + 1) as nat),
                    2 * upper_bound + 1 <= internal_size,
                    lower_bound <= i <= upper_bound,
                    forall|m: int|
                        (lower_bound <= m < i) || (upper_bound <= m < gs) ==> internal@[m]
                            == exp_win(leaves@, gs, m, None::<int>),
                decreases upper_bound - i,
            {
                proof {
                    // upper_bound is odd, so this row's children lie in the rows below
                    assert((upper_bound + 1) as nat % 2 == 0 || (upper_bound + 1) as nat == 1);
                    assert(upper_bound % 2 == 1);
                    assert(2 * i + 1 >= upper_bound);
                    assert(2 * i + 2 <= 2 * upper_bound < gs);
                    lemma_exp_dominates(leaves@, gs, 2 * (i as int) + 1);
                    lemma_exp_dominates(leaves@, gs, 2 * (i as int) + 2);
                }
                let left = internal[2 * i + 1];
                let right = internal[2 * i + 2];
                let w: Option<usize> = match (left, right) {
                    (Some(a), Some(b)) => {
                        if leaf_gt_exec(&leaves[a], &leaves[b]) {
                            left
                        } else {
                            right
                        }
                    },
                    (Some(_), None) => left,
                    (None, Some(_)) => right,
                    (None, None) => None,
                };
                proof {
                    assert(exp_win(leaves@, gs, i as int, None::<int>) == combine_win(
                        leaves@,
                        exp_win(leaves@, gs, 2 * (i as int) + 1, None::<int>),
                        exp_win(leaves@, gs, 2 * (i as int) + 2, None::<int>),
                        None::<int>,
                    ));
                }
                internal.set(i, w);
                i = i + 1;
            }
            proof {
                // the next row up again ends one short of a power of two
                if upper_bound > 1 {
                    assert((upper_bound + 1) as nat != 1);
                    assert(is_pow2(((upper_bound + 1) / 2) as nat));
                    assert((lower_bound + 1) as int == ((upper_bound + 1) / 2) as int);
                }
            }
            upper_bound = lower_bound;
            lower_bound = lower_bound / 2;
        }

        let r = WinnerHeap { internal, internal_size, leaves, last_pop: None };
        proof {
            assert(r.consistent(None::<int>));
        }
        r
    }
}

impl<T: HeapOrd> Default for WinnerHeap<T> {
    /// The empty tree.
    fn default() -> (r: Self)
        ensures
            r.wf(),
            r.last_pop is None,
            r.internal@.len() == 0,
            r.leaves@.len() == 0,
            r.live() == Multiset::<T>::empty(),
    {
        let r = WinnerHeap { internal: Vec::new(), internal_size: 0, leaves: Vec::new(), last_pop: None };
        proof {
            assert(live_of(r.leaves@) =~= Multiset::<T>::empty());
        }
        r
    }
}


/// In a clean tree the overall winner may be marked as the unconditional
/// winner without changing any internal node.
proof fn lemma_consistent_mark<T: HeapOrd>(leaves: Seq<Leaf<T>>, s: int, p: int)
    requires
        s % 2 == 1,
        1 <= s <= usize::MAX,
        leaves.len() <= s + 1,
        0 <= p < leaves.len(),
        exp_win(leaves, s, 0, None::<int>) == Some(p as usize),
    ensures
        forall|m: int|
            0 <= m < s ==> exp_win(leaves, s, m, Some(p)) == exp_win(leaves, s, m, None::<int>),
{
    lemma_bot_range(p, s);
    lemma_anc_zero(bot(p, s));
    lemma_exp_chain(leaves, s, 0, p);
    assert forall|m: int| 0 <= m < s implies exp_win(leaves, s, m, Some(p)) == exp_win(
        leaves,
        s,
        m,
        None::<int>,
    ) by {
        lemma_exp_top(leaves, s, m, p);
        if anc(m, bot(p, s)) {
            lemma_anc_zero(m);
            assert(exp_win(leaves, s, m, None::<int>) == Some(p as usize));
        }
    }
}

impl<T: HeapOrd> WinnerHeap<T> {
    /// Replays the comparisons on the path from the given leaf slot to the
    /// root, clearing the pending-slot marker.
    pub fn update(&mut self, position: usize)
        requires
            old(self).structure_ok(),
            old(self).internal_size > 0,
            position < old(self).leaves@.len(),
            old(self).consistent(Some(position as int)),
        ensures
            final(self).structure_ok(),
            final(self).consistent(None::<int>),
            final(self).wf(),
            final(self).last_pop is None,
            final(self).leaves == old(self).leaves,
            final(self).internal_size == old(self).internal_size,
            final(self).live() == old(self).live(),
    {
        let s = self.internal_size;
        let ghost gs = s as int;
        let ghost gp = position as int;
        let ghost b = bot(gp, gs);
        proof {
            lemma_bot_range(gp, gs);
        }

        // recompute the bottom node whose pair holds the slot
        let mut parent = (position + s - 1) / 2;
        let left_index = 2 * parent + 1 - s;
        let right_index = 2 * parent + 2 - s;
        let w: Option<usize>;
        if right_index < self.leaves.len() {
            if leaf_gt_exec(&self.leaves[left_index], &self.leaves[right_index]) {
                w = Some(left_index);
            } else {
                w = Some(right_index);
            }
        } else if left_index < self.leaves.len() {
            w = Some(left_index);
        } else {
            w = None;
        }
        proof {
            assert(parent as int == b);
            assert(w == bottom_win(
                self.leaves@,
                left_index as int,
                right_index as int,
                None::<int>,
            ));
            assert(exp_win(self.leaves@, gs, b, None::<int>) == bottom_win(
                self.leaves@,
                2 * b + 1 - gs,
                2 * b + 2 - gs,
                None::<int>,
            ));
            assert(anc(b, b));
        }
        self.internal.set(parent, w);

        // replay the path from there up to the root
        while parent > 0
            invariant
                self.internal_size == s,
                self.internal@.len() == s,
                self.leaves@ == old(self).leaves@,
                self.leaves == old(self).leaves,
                self.last_pop == old(self).last_pop,
                gs == s as int,
                gs % 2 == 1,
                1 <= gs,
                self.leaves@.len() <= gs + 1,
                1 <= self.leaves@.len(),
                2 * gs + 1 <= usize::MAX as int,
                gp == position as int,
                0 <= gp < self.leaves@.len(),
                b == bot(gp, gs),
                gs / 2 <= b < gs,
                0 <= parent < s,
                anc(parent as int, b),
                forall|m: int|
                    0 <= m < gs ==> self.internal@[m] == (if anc(m, b) && parent as int <= m {
                        exp_win(self.leaves@, gs, m, None::<int>)
                    } else {
                        exp_win(self.leaves@, gs, m, Some(gp))
                    }),
            decreases parent,
        {
            let ghost int0 = self.internal@;
            let ghost prev = parent as int;
            proof {
                assert forall|m: int|
                    0 <= m < gs implies int0[m] == (if anc(m, b) && prev <= m {
                    exp_win(self.leaves@, gs, m, None::<int>)
                } else {
                    exp_win(self.leaves@, gs, m, Some(gp))
                }) by {
                    assert(int0[m] == self.internal@[m]);
                    assert(self.internal@[m] == (if anc(m, b) && parent as int <= m {
                        exp_win(self.leaves@, gs, m, None::<int>)
                    } else {
                        exp_win(self.leaves@, gs, m, Some(gp))
                    }));
                }
            }
            parent = (parent - 1) / 2;
            let ghost gpar = parent as int;
            proof {
                assert(prev == 2 * gpar + 1 || prev == 2 * gpar + 2);
                lemma_anc_from_child(prev, gpar, b);
                assert(2 * gpar + 2 < gs);
                lemma_anc_not_both(gpar, b);
                lemma_exp_dominates(self.leaves@, gs, 2 * gpar + 1);
                lemma_exp_dominates(self.leaves@, gs, 2 * gpar + 2);
                // the sibling of the path child is off the path, so its stored
                // winner is already the clean one
                if anc(2 * gpar + 1, b) {
                    lemma_exp_top(self.leaves@, gs, 2 * gpar + 2, gp);
                } else {
                    lemma_exp_top(self.leaves@, gs, 2 * gpar + 1, gp);
                }
                assert(self.internal@[2 * gpar + 1] == exp_win(
                    self.leaves@,
                    gs,
                    2 * gpar + 1,
                    None::<int>,
                ));
                assert(self.internal@[2 * gpar + 2] == exp_win(
                    self.leaves@,
                    gs,
                    2 * gpar + 2,
                    None::<int>,
                ));
            }
            let left = self.internal[2 * parent + 1];
            let right = self.internal[2 * parent + 2];
            let w: Option<usize> = match (left, right) {
                (Some(a), Some(b2)) => {
                    if leaf_gt_exec(&self.leaves[a], &self.leaves[b2]) {
                        left
                    } else {
                        right
                    }
                },
                (Some(_), None) => left,
                (None, Some(_)) => right,
                (None, None) => None,
            };
            proof {
                assert(exp_win(self.leaves@, gs, gpar, None::<int>) == combine_win(
                    self.leaves@,
                    exp_win(self.leaves@, gs, 2 * gpar + 1, None::<int>),
                    exp_win(self.leaves@, gs, 2 * gpar + 2, None::<int>),
                    None::<int>,
                ));
            }
            self.internal.set(parent, w);
            proof {
                assert(self.internal@ == int0.update(gpar, w));
                // no other node of the path lies between this node and the
                // one replayed before it
                assert forall|m: int|
                    0 <= m < gs && m != gpar implies (anc(m, b) && gpar <= m) == (anc(m, b)
                    && prev <= m) by {
                    if anc(m, b) && gpar <= m && m < prev {
                        lemma_anc_total(m, prev, b);
                        if anc(prev, m) {
                            lemma_anc_le(prev, m);
                        } else {
                            assert(anc(m, prev));
                            assert(m != prev);
                            assert(anc(m, (prev - 1) / 2));
                            lemma_anc_le(m, gpar);
                        }
                    }
                }
                assert forall|m: int|
                    0 <= m < gs implies self.internal@[m] == (if anc(m, b) && gpar <= m {
                    exp_win(self.leaves@, gs, m, None::<int>)
                } else {
                    exp_win(self.leaves@, gs, m, Some(gp))
                }) by {
                    if m == gpar {
                        assert(anc(gpar, b));
                        assert(gpar <= m);
                        assert(self.internal@[gpar] == w);
                        assert(w == combine_win(
                            self.leaves@,
                            exp_win(self.leaves@, gs, 2 * gpar + 1, None::<int>),
                            exp_win(self.leaves@, gs, 2 * gpar + 2, None::<int>),
                            None::<int>,
                        ));
                        assert(w == exp_win(self.leaves@, gs, gpar, None::<int>));
                    } else {
                        assert((anc(m, b) && gpar <= m) == (anc(m, b) && prev <= m));
                        assert(self.internal@[m] == int0[m]);
                        assert(int0[m] == (if anc(m, b) && prev <= m {
                            exp_win(self.leaves@, gs, m, None::<int>)
                        } else {
                            exp_win(self.leaves@, gs, m, Some(gp))
                        }));
                    }
                }
            }
        }
        self.last_pop = None;
        proof {
            assert forall|m: int| 0 <= m < gs implies self.internal@[m] == exp_win(
                self.leaves@,
                gs,
                m,
                None::<int>,
            ) by {
                if anc(m, b) {
                    lemma_anc_le(m, b);
                } else {
                    lemma_exp_top(self.leaves@, gs, m, gp);
                }
            }
        }
    }

    /// Returns the current winner without changing the tree.
    pub fn peek(&self) -> (r: Option<&T>)
        requires
            self.wf(),
            self.internal_size > 0,
            self.last_pop is None,
        ensures
            match r {
                Some(v) => self.live().count(*v) > 0 && forall|w: T|
                    self.live().count(w) > 0 ==> w.le_spec(*v),
                None => self.live() == Multiset::<T>::empty(),
            },
    {
        let ghost gs = self.internal_size as int;
        proof {
            lemma_exp_dominates(self.leaves@, gs, 0);
        }
        if let Some(pos) = self.internal[0] {
            proof {
                self.lemma_root_dominates();
            }
            match &self.leaves[pos].value {
                Some(v) => {
                    proof {
                        lemma_live_member(self.leaves@, pos as int);
                        assert forall|w: T| self.live().count(w) > 0 implies w.le_spec(*v) by {
                            lemma_live_exists(self.leaves@, w);
                        }
                    }
                    Some(v)
                },
                None => {
                    proof {
                        self.lemma_all_empty(pos as int);
                    }
                    None
                },
            }
        } else {
            proof {
                self.lemma_root_some();
                assert(false);
            }
            None
        }
    }

    /// In a clean tree the root's winner slot dominates every held item.
    proof fn lemma_root_dominates(&self)
        requires
            self.structure_ok(),
            self.internal_size > 0,
            self.consistent(None::<int>),
        ensures
            match self.internal@[0] {
                Some(pos) => pos < self.leaves@.len() && forall|j: int|
                    0 <= j < self.leaves@.len() ==> leaf_le(
                        self.leaves@[j],
                        self.leaves@[pos as int],
                    ),
                None => true,
            },
    {
        let gs = self.internal_size as int;
        lemma_exp_dominates(self.leaves@, gs, 0);
        match self.internal@[0] {
            Some(pos) => {
                assert forall|j: int| 0 <= j < self.leaves@.len() implies leaf_le(
                    self.leaves@[j],
                    self.leaves@[pos as int],
                ) by {
                    lemma_bot_range(j, gs);
                    lemma_anc_zero(bot(j, gs));
                }
            },
            None => {
            },
        }
    }

    /// A clean non-empty tree always has a winner at the root.
    proof fn lemma_root_some(&self)
        requires
            self.structure_ok(),
            self.internal_size > 0,
            self.consistent(None::<int>),
        ensures
            self.internal@[0] is Some,
    {
        let gs = self.internal_size as int;
        lemma_exp_dominates(self.leaves@, gs, 0);
        lemma_bot_range(0, gs);
        lemma_anc_zero(bot(0, gs));
    }

    /// If the dominating slot is empty, nothing is held at all.
    proof fn lemma_all_empty(&self, pos: int)
        requires
            self.structure_ok(),
            0 <= pos < self.leaves@.len(),
            self.leaves@[pos].value is None,
            forall|j: int|
                0 <= j < self.leaves@.len() ==> leaf_le(self.leaves@[j], self.leaves@[pos]),
        ensures
            self.live() == Multiset::<T>::empty(),
    {
        assert forall|w: T| self.live().count(w) == 0 by {
            if self.live().count(w) > 0 {
                lemma_live_exists(self.leaves@, w);
                let j = choose|j: int|
                    0 <= j < self.leaves@.len() && self.leaves@[j].value == Some(w);
                assert(leaf_le(self.leaves@[j], self.leaves@[pos]));
                assert(false);
            }
        }
        assert(self.live() =~= Multiset::<T>::empty());
    }

    /// Removes and returns a greatest held item; the emptied slot becomes
    /// the pending slot for the next push.
    pub fn pop(&mut self) -> (r: Option<T>)
        requires
            old(self).wf(),
            old(self).internal_size > 0,
        ensures
            final(self).wf(),
            final(self).internal_size == old(self).internal_size,
            final(self).leaves@.len() == old(self).leaves@.len(),
            match r {
                Some(v) => {
                    &&& old(self).live().count(v) > 0
                    &&& forall|w: T| old(self).live().count(w) > 0 ==> w.le_spec(v)
                    &&& final(self).live() == old(self).live().remove(v)
                    &&& final(self).last_pop matches Some(p) && p < old(self).leaves@.len()
                        && old(self).leaves@[p as int].value == Some(v) && final(self).leaves@
                        == old(self).leaves@.update(p as int, (Leaf { value: None }))
                },
                None => old(self).live() == Multiset::<T>::empty() && final(self).leaves@ == old(
                    self,
                ).leaves@,
            },
    {
        let ghost gs = self.internal_size as int;
        if let Some(pos) = self.last_pop {
            self.update(pos);
        }
        proof {
            self.lemma_root_some();
        }
        let root = self.internal[0];
        match root {
            Some(pos) => {
                proof {
                    lemma_exp_dominates(self.leaves@, gs, 0);
                    self.lemma_root_dominates();
                }
                self.last_pop = Some(pos);
                let mut tmp = Leaf { value: None };
                self.leaves.set_and_swap(pos, &mut tmp);
                let r = tmp.take_value();
                proof {
                    let ghost lv0 = old(self).leaves@;
                    // the replaced slot keeps the tree consistent once it is
                    // marked as the pending winner
                    lemma_consistent_mark(lv0, gs, pos as int);
                    lemma_exp_frame(lv0, self.leaves@, gs, 0, pos as int);
                    assert forall|m: int| 0 <= m < gs implies self.internal@[m] == exp_win(
                        self.leaves@,
                        gs,
                        m,
                        Some(pos as int),
                    ) by {
                        lemma_exp_frame(lv0, self.leaves@, gs, m, pos as int);
                    }
                    lemma_live_update(lv0, pos as int, Leaf { value: None });
                    let ghost gr = r;
                    match gr {
                        Some(v) => {
                            lemma_live_member(lv0, pos as int);
                            assert forall|w: T|
                                live_of(lv0).count(w) > 0 implies w.le_spec(v) by {
                                lemma_live_exists(lv0, w);
                            }
                        },
                        None => {
                            assert(lv0[pos as int].value is None);
                            assert(lv0 =~= self.leaves@);
                            self.lemma_all_empty(pos as int);
                        },
                    }
                }
                r
            },
            None => {
                proof {
                    assert(false);
                }
                None
            },
        }
    }

    /// Refills the slot left empty by the most recent pop and replays its
    /// path to the root.
    pub fn push(&mut self, value: T)
        requires
            old(self).wf(),
            old(self).last_pop is Some,
        ensures
            final(self).wf(),
            final(self).last_pop is None,
            final(self).internal_size == old(self).internal_size,
            final(self).leaves@.len() == old(self).leaves@.len(),
            final(self).leaves@ == old(self).leaves@.update(
                old(self).last_pop.unwrap() as int,
                (Leaf { value: Some(value) }),
            ),
            final(self).live() == old(self).live().insert(value),
    {
        let ghost gs = self.internal_size as int;
        let pos = self.last_pop.unwrap();
        let mut tmp = Leaf { value: Some(value) };
        self.leaves.set_and_swap(pos, &mut tmp);
        proof {
            let ghost lv0 = old(self).leaves@;
            assert forall|m: int| 0 <= m < gs implies self.internal@[m] == exp_win(
                self.leaves@,
                gs,
                m,
                Some(pos as int),
            ) by {
                lemma_exp_frame(lv0, self.leaves@, gs, m, pos as int);
            }
            lemma_live_update(lv0, pos as int, Leaf { value: Some(value) });
        }
        self.update(pos);
    }

    /// Pops the current winner, refills its slot with the given item, and
    /// replays only that slot's path; returns the popped item.
    pub fn pop_push(&mut self, value: T) -> (r: Option<T>)
        requires
            old(self).wf(),
            old(self).internal_size > 0,
            old(self).last_pop is None,
        ensures
            final(self).wf(),
            final(self).last_pop is None,
            final(self).internal_size == old(self).internal_size,
            final(self).leaves@.len() == old(self).leaves@.len(),
            match r {
                Some(v) => old(self).live().count(v) > 0 && (forall|w: T|
                    old(self).live().count(w) > 0 ==> w.le_spec(v)) && final(self).live()
                    == old(self).live().remove(v).insert(value),
                None => old(self).live() == Multiset::<T>::empty() && final(self).live()
                    == old(self).live(),
            },
    {
        let ghost gs = self.internal_size as int;
        proof {
            self.lemma_root_some();
        }
        let root = self.internal[0];
        match root {
            Some(pos) => {
                proof {
                    lemma_exp_dominates(self.leaves@, gs, 0);
                    self.lemma_root_dominates();
                }
                let mut tmp = Leaf { value: None };
                self.leaves.set_and_swap(pos, &mut tmp);
                let popped = tmp.take_value();
                match popped {
                    Some(v) => {
                        let mut tmp2 = Leaf { value: Some(value) };
                        self.leaves.set_and_swap(pos, &mut tmp2);
                        proof {
                            let ghost lv0 = old(self).leaves@;
                            lemma_consistent_mark(lv0, gs, pos as int);
                            assert forall|m: int|
                                0 <= m < gs implies self.internal@[m] == exp_win(
                                self.leaves@,
                                gs,
                                m,
                                Some(pos as int),
                            ) by {
                                lemma_exp_frame(lv0, self.leaves@, gs, m, pos as int);
                            }
                            assert(self.leaves@ =~= lv0.update(
                                pos as int,
                                Leaf { value: Some(value) },
                            ));
                            lemma_live_update(lv0, pos as int, Leaf { value: Some(value) });
                            lemma_live_member(lv0, pos as int);
                            assert forall|w: T|
                                live_of(lv0).count(w) > 0 implies w.le_spec(v) by {
                                lemma_live_exists(lv0, w);
                            }
                        }
                        self.update(pos);
                        Some(v)
                    },
                    None => {
                        proof {
                            let ghost lv0 = old(self).leaves@;
                            assert(lv0[pos as int].value is None);
                            assert(self.leaves@ =~= lv0);
                            self.lemma_all_empty(pos as int);
                        }
                        None
                    },
                }
            },
            None => {
                proof {
                    assert(false);
                }
                None
            },
        }
    }
}


/// Repeated pops of a winner tree never ascend.  `pop` yields
/// a greatest held item and removes one occurrence of it, so whenever `v`
/// dominated the held items and `w` dominates what is left once `v` is
/// gone, `w` is at or below `v`: building a tree and popping it dry yields
/// the items in non-increasing heap order, which for the merger's reversed
/// line order means the least key first.
pub proof fn lemma_pops_descend<T: HeapOrd>(m: Multiset<T>, v: T, w: T)
    requires
        m.count(v) > 0,
        forall|x: T| m.count(x) > 0 ==> x.le_spec(v),
        m.remove(v).count(w) > 0,
    ensures
        w.le_spec(v),
{
    assert(m.count(w) > 0);
}

} // verus!




