use vstd::prelude::*;

use crate::array::VoidArray;
use crate::language::TS_BUILTIN_SYM_ERROR;
use crate::array::{array__delete, array_push};
use crate::subtree::{
    clone_children, heap_view, ts_subtree_release, lemma_views_of, opt_view, spec_child_count, spec_children, spec_extra,
    spec_has_external_tokens, spec_symbol, subtree_wf, children_wf, lemma_children_wf, ts_subtree_extra, ts_subtree_has_external_tokens,
    ts_subtree_retain, ts_subtree_symbol, views_of, Subtree, SubtreeArray, SubtreePool,
    SubtreeView,
};

verus! {

/// Structural equality of subtrees, as `ts_subtree_eq` decides it: inline
/// leaves by all their fields; heap subtrees by symbol, visibility,
/// namedness, padding and size in bytes, then (for error subtrees) by the
/// unexpected character, or else by child counts, visible and named child
/// counts and the children themselves. An inline and a heap subtree differ.
pub open spec fn spec_subtree_eq(a: SubtreeView, b: SubtreeView) -> bool
    decreases a, 1int,
{
    match (a, b) {
        (SubtreeView::Inline(x), SubtreeView::Inline(y)) => x == y,
        (SubtreeView::Heap(x), SubtreeView::Heap(y)) => {
            if x.symbol != y.symbol || x.visible != y.visible || x.named != y.named
                || x.padding.bytes != y.padding.bytes || x.size.bytes != y.size.bytes {
                false
            } else if x.symbol == TS_BUILTIN_SYM_ERROR {
                x.lookahead_char == y.lookahead_char
            } else if x.children.len() != y.children.len() {
                false
            } else if x.children.len() > 0 && (x.visible_child_count != y.visible_child_count
                || x.named_child_count != y.named_child_count) {
                false
            } else {
                children_eq(x.children, y.children)
            }
        },
        _ => false,
    }
}

/// Pairwise structural equality of two runs of children of the same length.
pub open spec fn children_eq(a: Seq<SubtreeView>, b: Seq<SubtreeView>) -> bool
    decreases a, 0int,
{
    if a.len() == 0 || a.len() != b.len() {
        true
    } else {
        children_eq(a.drop_last(), b.drop_last()) && spec_subtree_eq(a.last(), b.last())
    }
}

proof fn lemma_children_eq(a: Seq<SubtreeView>, b: Seq<SubtreeView>)
    requires
        a.len() == b.len(),
    ensures
        children_eq(a, b) <==> forall|i: int|
            0 <= i < a.len() ==> spec_subtree_eq(#[trigger] a[i], b[i]),
    decreases a.len(),
{
    if a.len() > 0 {
        lemma_children_eq(a.drop_last(), b.drop_last());
        assert forall|i: int| 0 <= i < a.len() - 1 implies a.drop_last()[i] == a[i]
            && b.drop_last()[i] == b[i] by {}
    }
}

/// Whether two subtrees are structurally equal (see `spec_subtree_eq`).
pub fn ts_subtree_eq(self_0: &Subtree, other: &Subtree) -> (r: bool)
    ensures
        r == spec_subtree_eq(self_0@, other@),
    decreases self_0,
{
    match (self_0, other) {
        (Subtree::Inline(x), Subtree::Inline(y)) => *x == *y,
        (Subtree::Heap(x), Subtree::Heap(y)) => {
            proof {
                lemma_views_of(x.children@);
                lemma_views_of(y.children@);
            }
            if x.symbol != y.symbol || x.visible != y.visible || x.named != y.named
                || x.padding.bytes != y.padding.bytes || x.size.bytes != y.size.bytes {
                return false;
            }
            if x.symbol == TS_BUILTIN_SYM_ERROR {
                return x.lookahead_char == y.lookahead_char;
            }
            if x.children.len() != y.children.len() {
                return false;
            }
            if x.children.len() > 0 && (x.visible_child_count != y.visible_child_count
                || x.named_child_count != y.named_child_count) {
                return false;
            }
            let ghost xv = views_of(x.children@);
            let ghost yv = views_of(y.children@);
            proof {
                lemma_children_eq(xv, yv);
            }
            let mut i: usize = 0;
            while i < x.children.len()
                invariant
                    i <= x.children@.len(),
                    x.children@.len() == y.children@.len(),
                    xv == views_of(x.children@),
                    yv == views_of(y.children@),
                    xv.len() == x.children@.len(),
                    yv.len() == y.children@.len(),
                    forall|k: int| 0 <= k < x.children@.len() ==> #[trigger] xv[k] == x.children@[k]@,
                    forall|k: int| 0 <= k < y.children@.len() ==> #[trigger] yv[k] == y.children@[k]@,
                    forall|k: int| 0 <= k < i ==> spec_subtree_eq(#[trigger] xv[k], yv[k]),
                    *self_0 == Subtree::Heap(*x),
                    *other == Subtree::Heap(*y),
                    self_0@ == SubtreeView::Heap(crate::subtree::heap_view(**x)),
                    other@ == SubtreeView::Heap(crate::subtree::heap_view(**y)),
                    x.symbol == y.symbol && x.visible == y.visible && x.named == y.named
                        && x.padding.bytes == y.padding.bytes && x.size.bytes == y.size.bytes,
                    x.symbol != TS_BUILTIN_SYM_ERROR,
                    x.children.len() > 0 ==> (x.visible_child_count == y.visible_child_count
                        && x.named_child_count == y.named_child_count),
                decreases x.children@.len() - i,
            {
                if !ts_subtree_eq(&x.children[i], &y.children[i]) {
                    proof {
                        assert(xv[i as int] == x.children@[i as int]@);
                        assert(yv[i as int] == y.children@[i as int]@);
                        assert(!spec_subtree_eq(xv[i as int], yv[i as int]));
                        lemma_children_eq(xv, yv);
                        assert(!children_eq(xv, yv));
                    }
                    return false;
                }
                i = i + 1;
            }
            proof {
                lemma_children_eq(xv, yv);
            }
            true
        },
        _ => false,
    }
}

/// Structural equality is reflexive.
pub proof fn lemma_subtree_eq_reflexive(a: SubtreeView)
    ensures
        spec_subtree_eq(a, a),
    decreases a,
{
    if let SubtreeView::Heap(x) = a {
        assert forall|i: int| 0 <= i < x.children.len() implies spec_subtree_eq(
            #[trigger] x.children[i],
            x.children[i],
        ) by {
            lemma_subtree_eq_reflexive(x.children[i]);
        }
        lemma_children_eq(x.children, x.children);
    }
}

/// Structural equality is symmetric.
pub proof fn lemma_subtree_eq_symmetric(a: SubtreeView, b: SubtreeView)
    ensures
        spec_subtree_eq(a, b) == spec_subtree_eq(b, a),
    decreases a,
{
    if let (SubtreeView::Heap(x), SubtreeView::Heap(y)) = (a, b) {
        if x.children.len() == y.children.len() {
            assert forall|i: int| 0 <= i < x.children.len() implies spec_subtree_eq(
                #[trigger] x.children[i],
                y.children[i],
            ) == spec_subtree_eq(y.children[i], x.children[i]) by {
                lemma_subtree_eq_symmetric(x.children[i], y.children[i]);
            }
            lemma_children_eq(x.children, y.children);
            lemma_children_eq(y.children, x.children);
        }
    }
}

/// The order of `ts_subtree_compare`: by symbol, then by child count, then by
/// the children from left to right.
pub open spec fn spec_subtree_compare(a: SubtreeView, b: SubtreeView) -> int
    decreases a, 1int,
{
    if spec_symbol(a) < spec_symbol(b) {
        -1
    } else if spec_symbol(b) < spec_symbol(a) {
        1
    } else if spec_child_count(a) < spec_child_count(b) {
        -1
    } else if spec_child_count(b) < spec_child_count(a) {
        1
    } else {
        match a {
            SubtreeView::Heap(x) => children_compare(x.children, spec_children(b)),
            SubtreeView::Inline(_) => 0,
        }
    }
}

/// The lexicographic comparison of two runs of children of the same length.
pub open spec fn children_compare(a: Seq<SubtreeView>, b: Seq<SubtreeView>) -> int
    decreases a, 0int,
{
    if a.len() == 0 || a.len() != b.len() {
        0
    } else {
        let c = spec_subtree_compare(a[0], b[0]);
        if c != 0 {
            c
        } else {
            children_compare(a.drop_first(), b.drop_first())
        }
    }
}

/// Comparing is antisymmetric: swapping the subtrees negates the result, and
/// a subtree compares equal to itself.
pub proof fn lemma_subtree_compare_antisymmetric(a: SubtreeView, b: SubtreeView)
    ensures
        spec_subtree_compare(b, a) == -spec_subtree_compare(a, b),
        spec_subtree_compare(a, a) == 0,
    decreases a, 1int,
{
    if spec_symbol(a) == spec_symbol(b) && spec_child_count(a) == spec_child_count(b) {
        match a {
            SubtreeView::Heap(x) => {
                lemma_children_compare_antisymmetric(x.children, spec_children(b));
            },
            SubtreeView::Inline(_) => {},
        }
    }
    if let SubtreeView::Heap(x) = a {
        lemma_children_compare_antisymmetric(x.children, x.children);
    }
}

proof fn lemma_children_compare_antisymmetric(a: Seq<SubtreeView>, b: Seq<SubtreeView>)
    ensures
        children_compare(b, a) == -children_compare(a, b),
    decreases a, 0int,
{
    if a.len() > 0 && a.len() == b.len() {
        lemma_subtree_compare_antisymmetric(a[0], b[0]);
        lemma_children_compare_antisymmetric(a.drop_first(), b.drop_first());
    }
}

proof fn lemma_children_compare_prefix(a: Seq<SubtreeView>, b: Seq<SubtreeView>, i: int)
    requires
        a.len() == b.len(),
        0 <= i < a.len(),
        forall|k: int| 0 <= k < i ==> spec_subtree_compare(#[trigger] a[k], b[k]) == 0,
    ensures
        children_compare(a, b) == children_compare(a.skip(i), b.skip(i)),
    decreases i,
{
    if i == 0 {
        assert(a.skip(0) == a);
        assert(b.skip(0) == b);
    } else {
        assert(spec_subtree_compare(a[0], b[0]) == 0);
        assert forall|k: int| 0 <= k < i - 1 implies spec_subtree_compare(
            #[trigger] a.drop_first()[k],
            b.drop_first()[k],
        ) == 0 by {
            assert(a.drop_first()[k] == a[k + 1]);
            assert(b.drop_first()[k] == b[k + 1]);
        }
        lemma_children_compare_prefix(a.drop_first(), b.drop_first(), i - 1);
        assert(a.drop_first().skip(i - 1) == a.skip(i));
        assert(b.drop_first().skip(i - 1) == b.skip(i));
    }
}

/// Compares two subtrees: -1, 0 or 1 (see `spec_subtree_compare`).
pub fn ts_subtree_compare(left: &Subtree, right: &Subtree) -> (r: i32)
    requires
        subtree_wf(left@),
        subtree_wf(right@),
    ensures
        r == spec_subtree_compare(left@, right@),
    decreases left,
{
    let ls = ts_subtree_symbol(left);
    let rs = ts_subtree_symbol(right);
    if ls < rs {
        return -1;
    }
    if rs < ls {
        return 1;
    }
    match (left, right) {
        (Subtree::Heap(x), Subtree::Heap(y)) => {
            proof {
                lemma_views_of(x.children@);
                lemma_views_of(y.children@);
            }
            let ghost xv0 = views_of(x.children@);
            assert(children_wf(xv0));
            if x.children.len() < y.children.len() {
                return -1;
            }
            if y.children.len() < x.children.len() {
                return 1;
            }
            let ghost xv = views_of(x.children@);
            let ghost yv = views_of(y.children@);
            let n = x.children.len();
            let mut i: usize = 0;
            while i < n
                invariant
                    i <= n,
                    n == x.children@.len(),
                    x.children@.len() == y.children@.len(),
                    xv == views_of(x.children@),
                    yv == views_of(y.children@),
                    xv.len() == x.children@.len(),
                    yv.len() == y.children@.len(),
                    forall|k: int| 0 <= k < x.children@.len() ==> #[trigger] xv[k] == x.children@[k]@,
                    forall|k: int| 0 <= k < y.children@.len() ==> #[trigger] yv[k] == y.children@[k]@,
                    forall|k: int| 0 <= k < i ==> spec_subtree_compare(#[trigger] xv[k], yv[k]) == 0,
                    children_wf(xv),
                    children_wf(yv),
                    *left == Subtree::Heap(*x),
                    *right == Subtree::Heap(*y),
                    left@ == SubtreeView::Heap(crate::subtree::heap_view(**x)),
                    right@ == SubtreeView::Heap(crate::subtree::heap_view(**y)),
                    spec_symbol(left@) == spec_symbol(right@),
                decreases n - i,
            {
                proof {
                    lemma_children_compare_prefix(xv, yv, i as int);
                    assert(xv.skip(i as int)[0] == xv[i as int]);
                    assert(yv.skip(i as int)[0] == yv[i as int]);
                    lemma_children_wf(xv);
                    lemma_children_wf(yv);
                }
                let c = ts_subtree_compare(&x.children[i], &y.children[i]);
                if c != 0 {
                    proof {
                        assert(xv[i as int] == x.children@[i as int]@);
                        assert(yv[i as int] == y.children@[i as int]@);
                        let a = xv.skip(i as int);
                        let b = yv.skip(i as int);
                        assert(a[0] == xv[i as int]);
                        assert(b[0] == yv[i as int]);
                        assert(a.len() > 0 && a.len() == b.len());
                        assert(children_compare(a, b) == c);
                        assert(spec_children(right@) == yv);
                        assert(spec_subtree_compare(left@, right@) == children_compare(xv, yv));
                    }
                    return c;
                }
                i = i + 1;
            }
            proof {
                if n > 0 {
                    lemma_children_compare_prefix(xv, yv, (n - 1) as int);
                    assert(xv.skip(n - 1)[0] == xv[n - 1]);
                    assert(yv.skip(n - 1)[0] == yv[n - 1]);
                    assert(spec_subtree_compare(xv[n - 1], yv[n - 1]) == 0);
                    let a = xv.skip(n - 1);
                    let b = yv.skip(n - 1);
                    assert(a.len() == 1 && b.len() == 1);
                    assert(children_compare(a.drop_first(), b.drop_first()) == 0);
                    assert(children_compare(a, b) == 0);
                }
                assert(children_compare(xv, yv) == 0);
                assert(spec_children(right@) == yv);
                assert(spec_subtree_compare(left@, right@) == children_compare(xv, yv));
            }
            0
        },
        (Subtree::Heap(x), Subtree::Inline(_)) => {
            if x.children.len() > 0 {
                1
            } else {
                0
            }
        },
        (Subtree::Inline(_), Subtree::Heap(y)) => {
            if y.children.len() > 0 {
                -1
            } else {
                0
            }
        },
        (Subtree::Inline(_), Subtree::Inline(_)) => 0,
    }
}

// ---------------------------------------------------------------------------
// Arrays of subtrees.
// ---------------------------------------------------------------------------

/// Copies an array into `dest`, sharing each subtree.
pub fn ts_subtree_array_copy(self_0: &SubtreeArray, dest: &mut SubtreeArray)
    ensures
        final(dest).contents@ == self_0.contents@,
        final(dest).capacity == self_0.capacity,
{
    dest.capacity = self_0.capacity;
    dest.contents = clone_children(&self_0.contents);
}

/// Releases every subtree of an array and the array's storage.
pub fn ts_subtree_array_delete(pool: &mut SubtreePool, self_0: &mut SubtreeArray)
    ensures
        final(self_0).contents@.len() == 0,
        final(self_0).capacity == 0,
        final(pool).free_trees == old(pool).free_trees,
        final(pool).tree_stack.capacity == old(pool).tree_stack.capacity,
        old(self_0).contents@.len() > 0 ==> final(pool).tree_stack.contents@.len() == 0,
        old(self_0).contents@.len() == 0 ==> *final(pool) == *old(pool),
{
    while self_0.contents.len() > 0
        invariant
            pool.free_trees == old(pool).free_trees,
            pool.tree_stack.capacity == old(pool).tree_stack.capacity,
            self_0.contents@.len() < old(self_0).contents@.len() ==> pool.tree_stack.contents@.len() == 0,
            self_0.contents@.len() <= old(self_0).contents@.len(),
            self_0.contents@.len() == old(self_0).contents@.len() ==> *pool == *old(pool),
        decreases self_0.contents@.len(),
    {
        let last = self_0.contents.pop().unwrap();
        ts_subtree_release(pool, last);
    }
    array__delete(self_0);
}

/// Takes the extra subtrees at the end of an array out of it: the array keeps
/// the rest, which is empty or ends with a subtree that is not extra, and the
/// result holds the extras in their order.
pub fn ts_subtree_array_remove_trailing_extras(self_0: &mut SubtreeArray) -> (r: SubtreeArray)
    requires
        old(self_0).wf(),
    ensures
        final(self_0).contents@ + r.contents@ == old(self_0).contents@,
        forall|i: int| 0 <= i < r.contents@.len() ==> spec_extra(#[trigger] r.contents@[i]@),
        final(self_0).contents@.len() > 0 ==> !spec_extra(final(self_0).contents@.last()@),
        final(self_0).capacity == old(self_0).capacity,
        final(self_0).wf(),
        r.wf(),
{
    let mut result: SubtreeArray = VoidArray::new();
    let ghost orig = self_0.contents@;
    while self_0.contents.len() > 0
        invariant_except_break
            self_0.contents@ + result.contents@.reverse() == orig,
            forall|i: int| 0 <= i < result.contents@.len() ==> spec_extra(#[trigger] result.contents@[i]@),
            self_0.capacity == old(self_0).capacity,
            self_0.wf(),
            result.wf(),
            result.contents@.len() + self_0.contents@.len() == orig.len(),
            orig.len() <= u32::MAX,
        ensures
            self_0.contents@ + result.contents@.reverse() == orig,
            forall|i: int| 0 <= i < result.contents@.len() ==> spec_extra(#[trigger] result.contents@[i]@),
            self_0.contents@.len() > 0 ==> !spec_extra(self_0.contents@.last()@),
            self_0.capacity == old(self_0).capacity,
            self_0.wf(),
            result.wf(),
        decreases self_0.contents@.len(),
    {
        let n = self_0.contents.len();
        if !ts_subtree_extra(&self_0.contents[n - 1]) {
            break;
        }
        let ghost before = self_0.contents@;
        let ghost rbefore = result.contents@;
        let child = self_0.contents.pop().unwrap();
        array_push(&mut result, child);
        proof {
            assert(result.contents@.reverse() =~= seq![child] + rbefore.reverse());
            assert(before =~= self_0.contents@ + seq![child]);
            assert(self_0.contents@ + result.contents@.reverse() =~= before + rbefore.reverse());
        }
    }
    ts_subtree_array_reverse(&mut result);
    proof {
        assert(result.contents@.reverse().reverse() =~= result.contents@);
    }
    result
}

/// Reverses the order of the subtrees of an array.
pub fn ts_subtree_array_reverse(self_0: &mut SubtreeArray)
    ensures
        final(self_0).contents@ == old(self_0).contents@.reverse(),
        final(self_0).capacity == old(self_0).capacity,
{
    let mut reversed: Vec<Subtree> = Vec::new();
    let ghost orig = self_0.contents@;
    while self_0.contents.len() > 0
        invariant
            reversed@ == orig.subrange(self_0.contents@.len() as int, orig.len() as int).reverse(),
            self_0.contents@ == orig.subrange(0, self_0.contents@.len() as int),
            self_0.contents@.len() <= orig.len(),
            self_0.capacity == old(self_0).capacity,
            orig == old(self_0).contents@,
        decreases self_0.contents@.len(),
    {
        let ghost n = self_0.contents@.len();
        let x = self_0.contents.pop().unwrap();
        reversed.push(x);
        proof {
            assert(reversed@ =~= orig.subrange(n - 1, orig.len() as int).reverse());
            assert(self_0.contents@ =~= orig.subrange(0, n - 1));
        }
    }
    proof {
        assert(orig.subrange(0, orig.len() as int) =~= orig);
    }
    self_0.contents = reversed;
}

// ---------------------------------------------------------------------------
// The last external token.
// ---------------------------------------------------------------------------

/// The index of the last subtree of `cs[..n]` that holds external tokens, or -1.
pub open spec fn last_with_external_tokens(cs: Seq<SubtreeView>, n: int) -> int
    decreases n,
{
    if n <= 0 {
        -1
    } else if spec_has_external_tokens(cs[n - 1]) {
        n - 1
    } else {
        last_with_external_tokens(cs, n - 1)
    }
}

/// Whether every node that holds external tokens and has children has a child
/// that holds them, throughout a subtree (as the summary that
/// `ts_subtree_set_children` computes makes it).
pub open spec fn external_tokens_wf(s: SubtreeView) -> bool
    decreases s,
{
    match s {
        SubtreeView::Heap(h) => {
            &&& (h.has_external_tokens && h.children.len() > 0) ==> last_with_external_tokens(
                h.children,
                h.children.len() as int,
            ) >= 0
            &&& forall|i: int| 0 <= i < h.children.len() ==> external_tokens_wf(#[trigger] h.children[i])
        },
        SubtreeView::Inline(_) => true,
    }
}

/// The last leaf of a subtree that holds external tokens: found by descending
/// into the last child that holds them. `None` when the subtree holds none.
pub open spec fn spec_last_external_token(s: SubtreeView) -> Option<SubtreeView>
    decreases s,
{
    if !spec_has_external_tokens(s) {
        None
    } else {
        match s {
            SubtreeView::Heap(h) => if h.children.len() == 0 {
                Some(s)
            } else {
                let i = last_with_external_tokens(h.children, h.children.len() as int);
                if 0 <= i < h.children.len() {
                    spec_last_external_token(h.children[i])
                } else {
                    None
                }
            },
            SubtreeView::Inline(_) => None,
        }
    }
}

proof fn lemma_last_with_external_tokens(cs: Seq<SubtreeView>, n: int)
    requires
        0 <= n <= cs.len(),
    ensures
        -1 <= last_with_external_tokens(cs, n) < n,
        last_with_external_tokens(cs, n) >= 0 ==> spec_has_external_tokens(
            cs[last_with_external_tokens(cs, n)],
        ),
        forall|j: int|
            last_with_external_tokens(cs, n) < j < n ==> !spec_has_external_tokens(#[trigger] cs[j]),
    decreases n,
{
    if n > 0 && !spec_has_external_tokens(cs[n - 1]) {
        lemma_last_with_external_tokens(cs, n - 1);
    }
}

/// The last leaf of a tree that holds external tokens (see
/// `spec_last_external_token`), or `None`.
pub fn ts_subtree_last_external_token(tree: &Subtree) -> (r: Option<Subtree>)
    requires
        external_tokens_wf(tree@),
    ensures
        opt_view(r) == spec_last_external_token(tree@),
    decreases tree@,
{
    if !ts_subtree_has_external_tokens(tree) {
        return None;
    }
    match tree {
        Subtree::Inline(_) => None,
        Subtree::Heap(d) => {
            if d.children.len() == 0 {
                return Some(ts_subtree_retain(tree));
            }
            proof {
                lemma_views_of(d.children@);
            }
            let ghost cv = views_of(d.children@);
            let mut i: usize = d.children.len();
            while i > 0
                invariant
                    i <= d.children@.len(),
                    cv == views_of(d.children@),
                    cv.len() == d.children@.len(),
                    forall|k: int| 0 <= k < cv.len() ==> #[trigger] cv[k] == d.children@[k]@,
                    last_with_external_tokens(cv, cv.len() as int) == last_with_external_tokens(
                        cv,
                        i as int,
                    ),
                    *tree == Subtree::Heap(*d),
                    tree@ == SubtreeView::Heap(heap_view(**d)),
                    external_tokens_wf(tree@),
                    spec_has_external_tokens(tree@),
                    cv.len() > 0,
                decreases i,
            {
                if ts_subtree_has_external_tokens(&d.children[i - 1]) {
                    proof {
                        assert(cv[i - 1] == d.children@[i - 1]@);
                        assert(heap_view(**d).children == cv);
                        assert(decreases_to!(tree@ => heap_view(**d)));
                        assert(decreases_to!(heap_view(**d) => heap_view(**d).children));
                        assert(decreases_to!(heap_view(**d).children => heap_view(**d).children[i - 1]));
                        assert(external_tokens_wf(heap_view(**d).children[i - 1]));
                        assert(last_with_external_tokens(cv, i as int) == i - 1);
                        assert(spec_last_external_token(tree@) == spec_last_external_token(cv[i - 1]));
                    }
                    return ts_subtree_last_external_token(&d.children[i - 1]);
                }
                i = i - 1;
            }
            None
        },
    }
}

} // verus!
