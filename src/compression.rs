//! Huffman prefix codes and the two-stage compressor built on them.
use vstd::prelude::*;
use vstd::string::*;
use crate::text::{chars_of, push_char};
use crate::program::{
    has_rule_for, single_patterns, covers, lemma_covers_rest, lemma_covered_step, lemma_eval_covered,
    lemma_sort_covers, lemma_sort_keeps, has_pattern, ProgramError, RuleSeq, table_of, Program, Mode, first_match, applies, eval_spec, sort_spec,
};

verus! {

/// A node of a code tree: a leaf holds a symbol, an inner node two children.
pub struct Node {
    pub leaf: Option<String>,
    pub left: Option<Box<Node>>,
    pub right: Option<Box<Node>>,
}

/// A tree waiting in the construction queue, with its weight.
pub struct PriorityElement {
    pub priority: u128,
    pub element: Node,
}

impl PriorityElement {
    pub fn new(priority: u128, node: Node) -> (r: Self)
        ensures
            r.priority == priority,
            r.element == node,
    {
        PriorityElement { priority, element: node }
    }
}

impl Node {
    /// A node with neither symbol nor children.
    pub fn new() -> (r: Self)
        ensures
            r.leaf is None,
            r.left is None,
            r.right is None,
    {
        Node { leaf: None, left: None, right: None }
    }

    /// A leaf holding `c`.
    pub fn new_leaf(c: String) -> (r: Self)
        ensures
            r == leaf_of(c),
    {
        Node { leaf: Some(c), left: None, right: None }
    }
}

/// The leaf holding `c`.
pub open spec fn leaf_of(c: String) -> Node {
    Node { leaf: Some(c), left: None, right: None }
}

/// A tree in which every node is a leaf or has exactly two children.
pub open spec fn well_formed(n: Node) -> bool
    decreases n,
{
    match (n.leaf, n.left, n.right) {
        (Some(_), None, None) => true,
        (None, Some(l), Some(r)) => well_formed(*l) && well_formed(*r),
        _ => false,
    }
}

/// Largest weight a symbol gets from counting.
pub const MAX_WEIGHT: u64 = 30;

/// The weight table as sequences: symbol and weight.
pub open spec fn weights_of(v: Seq<(String, u64)>) -> Seq<(Seq<char>, u64)> {
    v.map_values(|w: (String, u64)| (w.0@, w.1))
}

/// `i` is the entry of `t` for the symbol `k`, the first one.
pub open spec fn first_entry(t: Seq<(Seq<char>, u64)>, k: Seq<char>, i: int) -> bool {
    &&& 0 <= i < t.len()
    &&& t[i].0 == k
    &&& forall|j: int| 0 <= j < i ==> #[trigger] t[j].0 != k
}

/// One more occurrence of `c`: its weight grows by one up to `MAX_WEIGHT`,
/// a new symbol enters at the end with weight one.
pub open spec fn count_char(t: Seq<(Seq<char>, u64)>, c: char) -> Seq<(Seq<char>, u64)> {
    if exists|i: int| first_entry(t, seq![c], i) {
        let i = choose|i: int| first_entry(t, seq![c], i);
        let w = if t[i].1 >= MAX_WEIGHT { MAX_WEIGHT } else { (t[i].1 + 1) as u64 };
        t.update(i, (seq![c], w))
    } else {
        t.push((seq![c], 1u64))
    }
}

/// Occurrence counts of the characters of `s`, in order of first appearance.
pub open spec fn count_spec(s: Seq<char>) -> Seq<(Seq<char>, u64)>
    decreases s.len(),
{
    if s.len() == 0 {
        Seq::empty()
    } else {
        count_char(count_spec(s.drop_last()), s.last())
    }
}

/// The weight of each symbol of `s`, capped at `MAX_WEIGHT`.
pub fn count_occ(s: &String) -> (r: Vec<(String, u64)>)
    ensures
        weights_of(r@) == count_spec(s@),
        forall|i: int| 0 <= i < r@.len() ==> #[trigger] r@[i].1 <= MAX_WEIGHT,
        distinct_symbols(weights_of(r@)),
{
    let chars = chars_of(s);
    let mut r: Vec<(String, u64)> = Vec::new();
    let mut i: usize = 0;
    assert(s@.take(0) =~= Seq::<char>::empty());
    assert(weights_of(r@) =~= Seq::<(Seq<char>, u64)>::empty());
    while i < chars.len()
        invariant
            chars@ == s@,
            i <= chars@.len(),
            weights_of(r@) == count_spec(s@.take(i as int)),
            forall|j: int| 0 <= j < r@.len() ==> #[trigger] r@[j].1 <= MAX_WEIGHT,
        decreases chars.len() - i,
    {
        let c = chars[i];
        let ghost t = weights_of(r@);
        let mut one = String::new();
        push_char(&mut one, c);
        assert(one@ =~= seq![c]);
        let mut k: usize = 0;
        while k < r.len()
            invariant
                t == weights_of(r@),
                one@ == seq![c],
                k <= r@.len(),
                forall|j: int| 0 <= j < k ==> #[trigger] t[j].0 != seq![c],
            ensures
                k <= r@.len(),
                k < r@.len() ==> first_entry(t, seq![c], k as int),
            decreases r.len() - k,
        {
            if r[k].0 == one {
                break;
            }
            k += 1;
        }
        if k < r.len() {
            let w = if r[k].1 >= MAX_WEIGHT { MAX_WEIGHT } else { r[k].1 + 1 };
            proof {
                let c2 = choose|c2: int| first_entry(t, seq![c], c2);
                if c2 < k {
                    assert(t[c2].0 != seq![c]);
                } else if k < c2 {
                    assert(t[k as int].0 != seq![c]);
                }
            }
            let ghost entry = (one@, w);
            r.set(k, (one, w));
            assert(weights_of(r@) =~= t.update(k as int, entry));
        } else {
            assert(!exists|c2: int| first_entry(t, seq![c], c2));
            let ghost entry = (one@, 1u64);
            r.push((one, 1));
            assert(weights_of(r@) =~= t.push(entry));
        }
        proof {
            let si = s@.take(i + 1);
            assert(si.drop_last() =~= s@.take(i as int));
            assert(si.last() == c);
        }
        i += 1;
    }
    assert(s@.take(chars@.len() as int) =~= s@);
    proof {
        lemma_count_distinct(s@);
    }
    r
}

/// A code tree as the contracts see it.
pub enum CodeTree {
    Leaf(Seq<char>),
    Inner(Box<CodeTree>, Box<CodeTree>),
}

/// The code tree that a node stands for; a node with both children is
/// inner, any other node a leaf.
pub open spec fn tree_of(n: Node) -> CodeTree
    decreases n,
{
    match (n.left, n.right) {
        (Some(l), Some(r)) => CodeTree::Inner(Box::new(tree_of(*l)), Box::new(tree_of(*r))),
        _ => CodeTree::Leaf(
            match n.leaf {
                Some(c) => c@,
                None => Seq::empty(),
            },
        ),
    }
}

/// A queue entry as the contracts see it: weight and tree.
pub type QItem = (int, CodeTree);

/// The queue as the contracts see it.
pub open spec fn queue_of(q: Seq<PriorityElement>) -> Seq<QItem> {
    q.map_values(|e: PriorityElement| (e.priority as int, tree_of(e.element)))
}

/// `i` is the first position of a lowest weight in `q`.
pub open spec fn is_min_at(q: Seq<QItem>, i: int) -> bool {
    &&& 0 <= i < q.len()
    &&& forall|j: int| 0 <= j < i ==> #[trigger] q[j].0 > q[i].0
    &&& forall|j: int| i < j < q.len() ==> #[trigger] q[j].0 >= q[i].0
}

/// The position that leaves the queue next.
pub open spec fn min_pos(q: Seq<QItem>) -> int {
    choose|i: int| is_min_at(q, i)
}

/// The inner node over `a` and `b`, the lower weight on the left, weighing
/// the sum of both.
pub open spec fn merged(a: QItem, b: QItem) -> QItem {
    let t = if a.0 <= b.0 {
        CodeTree::Inner(Box::new(a.1), Box::new(b.1))
    } else {
        CodeTree::Inner(Box::new(b.1), Box::new(a.1))
    };
    (a.0 + b.0, t)
}

/// Huffman construction on a queue: take out the two lowest (the earlier one
/// first among equals), put back their merge at the end, until one is left.
pub open spec fn huffman_spec(q: Seq<QItem>) -> CodeTree
    decreases q.len()
        via huffman_spec_decreases
{
    if q.len() <= 1 {
        q[0].1
    } else {
        let a = q[min_pos(q)];
        let q1 = q.remove(min_pos(q));
        let b = q1[min_pos(q1)];
        let q2 = q1.remove(min_pos(q1));
        huffman_spec(q2.push(merged(a, b)))
    }
}

/// One leaf per entry of the weight table, in order.
pub open spec fn initial_queue(w: Seq<(Seq<char>, u64)>) -> Seq<QItem> {
    w.map_values(|e: (Seq<char>, u64)| (e.1 as int, CodeTree::Leaf(e.0)))
}

/// Sum of the weights in `q`.
pub open spec fn weight_sum(q: Seq<QItem>) -> int
    decreases q.len(),
{
    if q.len() == 0 {
        0
    } else {
        q[0].0 + weight_sum(q.drop_first())
    }
}

proof fn lemma_min_exists(q: Seq<QItem>)
    requires
        q.len() > 0,
    ensures
        exists|i: int| is_min_at(q, i),
    decreases q.len(),
{
    if q.len() == 1 {
        assert(is_min_at(q, 0));
    } else {
        let d = q.drop_last();
        lemma_min_exists(d);
        let i = choose|i: int| is_min_at(d, i);
        let n = q.len() - 1;
        if q[n].0 < q[i].0 {
            assert forall|j: int| 0 <= j < n implies #[trigger] q[j].0 > q[n].0 by {
                assert(q[j] == d[j]);
                if j > i {
                    assert(d[j].0 >= d[i].0);
                }
            }
            assert(is_min_at(q, n));
        } else {
            assert forall|j: int| 0 <= j < i implies #[trigger] q[j].0 > q[i].0 by {
                assert(q[j] == d[j]);
            }
            assert forall|j: int| i < j < q.len() implies #[trigger] q[j].0 >= q[i].0 by {
                if j < n {
                    assert(q[j] == d[j]);
                }
            }
            assert(is_min_at(q, i));
        }
    }
}

proof fn lemma_min_unique(q: Seq<QItem>, i: int, j: int)
    requires
        is_min_at(q, i),
        is_min_at(q, j),
    ensures
        i == j,
{
    if i < j {
        assert(q[i].0 > q[j].0);
    } else if j < i {
        assert(q[j].0 > q[i].0);
    }
}

#[via_fn]
proof fn huffman_spec_decreases(q: Seq<QItem>) {
    if q.len() > 1 {
        lemma_min_exists(q);
        lemma_min_exists(q.remove(min_pos(q)));
    }
}

proof fn lemma_weight_sum_remove(q: Seq<QItem>, i: int)
    requires
        0 <= i < q.len(),
    ensures
        weight_sum(q) == weight_sum(q.remove(i)) + q[i].0,
    decreases q.len(),
{
    if i == 0 {
        assert(q.remove(0) =~= q.drop_first());
    } else {
        let d = q.drop_first();
        lemma_weight_sum_remove(d, i - 1);
        assert(q.remove(i).drop_first() =~= d.remove(i - 1));
        assert(q.remove(i)[0] == q[0]);
    }
}

proof fn lemma_weight_sum_nonneg(q: Seq<QItem>)
    requires
        forall|i: int| 0 <= i < q.len() ==> #[trigger] q[i].0 >= 0,
    ensures
        weight_sum(q) >= 0,
    decreases q.len(),
{
    if q.len() > 0 {
        let d = q.drop_first();
        assert forall|i: int| 0 <= i < d.len() implies #[trigger] d[i].0 >= 0 by {
            assert(d[i] == q[i + 1]);
        }
        lemma_weight_sum_nonneg(d);
    }
}

proof fn lemma_weight_sum_push(q: Seq<QItem>, x: QItem)
    ensures
        weight_sum(q.push(x)) == weight_sum(q) + x.0,
    decreases q.len(),
{
    if q.len() == 0 {
        assert(q.push(x).drop_first() =~= Seq::<QItem>::empty());
        assert(q.push(x)[0] == x);
        assert(weight_sum(Seq::<QItem>::empty()) == 0);
    } else {
        assert(q.push(x)[0] == q[0]);
        lemma_weight_sum_push(q.drop_first(), x);
        assert(q.push(x).drop_first() =~= q.drop_first().push(x));
    }
}

/// Takes out the element that leaves the queue next.
fn pop_min(q: &mut Vec<PriorityElement>) -> (r: PriorityElement)
    requires
        old(q)@.len() > 0,
    ensures
        is_min_at(queue_of(old(q)@), min_pos(queue_of(old(q)@))),
        r == old(q)@[min_pos(queue_of(old(q)@))],
        final(q)@ == old(q)@.remove(min_pos(queue_of(old(q)@))),
{
    let ghost qv = queue_of(q@);
    let mut b: usize = 0;
    let mut k: usize = 1;
    while k < q.len()
        invariant
            q@ == old(q)@,
            qv == queue_of(q@),
            q@.len() > 0,
            1 <= k <= q@.len(),
            is_min_at(qv.take(k as int), b as int),
        decreases q.len() - k,
    {
        proof {
            assert forall|j: int| 0 <= j < k implies qv.take(k + 1)[j] == #[trigger] qv.take(
                k as int,
            )[j] by {}
        }
        if q[k].priority < q[b].priority {
            b = k;
        }
        k += 1;
    }
    proof {
        assert(qv.take(k as int) =~= qv);
        lemma_min_exists(qv);
        lemma_min_unique(qv, b as int, min_pos(qv));
    }
    q.remove(b)
}

/// The merge of `fst` and `snd`: the lower priority on the left, the sum of
/// both as priority.
fn merge(fst: PriorityElement, snd: PriorityElement) -> (r: PriorityElement)
    requires
        fst.priority + snd.priority <= u128::MAX,
        well_formed(fst.element),
        well_formed(snd.element),
    ensures
        (r.priority as int, tree_of(r.element)) == merged(
            (fst.priority as int, tree_of(fst.element)),
            (snd.priority as int, tree_of(snd.element)),
        ),
        r.priority == fst.priority + snd.priority,
        well_formed(r.element),
{
    let mut new_node = Node::new();
    if fst.priority <= snd.priority {
        new_node.left = Some(Box::new(fst.element));
        new_node.right = Some(Box::new(snd.element));
    } else {
        new_node.left = Some(Box::new(snd.element));
        new_node.right = Some(Box::new(fst.element));
    }
    PriorityElement::new(fst.priority + snd.priority, new_node)
}

proof fn lemma_queue_remove(q: Seq<PriorityElement>, i: int)
    requires
        0 <= i < q.len(),
        forall|j: int| 0 <= j < q.len() ==> well_formed(#[trigger] q[j].element),
    ensures
        queue_of(q.remove(i)) == queue_of(q).remove(i),
        forall|j: int|
            0 <= j < q.remove(i).len() ==> well_formed(#[trigger] q.remove(i)[j].element),
{
    assert(queue_of(q.remove(i)) =~= queue_of(q).remove(i));
    assert forall|j: int| 0 <= j < q.remove(i).len() implies well_formed(
        #[trigger] q.remove(i)[j].element,
    ) by {
        if j < i {
            assert(q.remove(i)[j] == q[j]);
        } else {
            assert(q.remove(i)[j] == q[j + 1]);
        }
    }
}

/// The Huffman tree of the weight table; an empty table has none.
pub fn hash_to_huffman_tree(hash: Vec<(String, u64)>) -> (r: Result<Node, ProgramError>)
    ensures
        match r {
            Ok(n) => hash@.len() > 0 && well_formed(n) && tree_of(n) == huffman_spec(
                initial_queue(weights_of(hash@)),
            ),
            Err(e) => hash@.len() == 0 && e == ProgramError::EmptyWeightTable,
        },
{
    if hash.len() == 0 {
        return Err(ProgramError::EmptyWeightTable);
    }
    let ghost q0 = initial_queue(weights_of(hash@));
    let ghost n = hash@.len();
    let mut rest = hash;
    let mut heap: Vec<PriorityElement> = Vec::new();
    while rest.len() > 0
        invariant
            q0 == initial_queue(weights_of(hash@)),
            n == hash@.len(),
            n <= usize::MAX,
            heap@.len() + rest@.len() == n,
            rest@ == hash@.skip(heap@.len() as int),
            queue_of(heap@) == q0.take(heap@.len() as int),
            forall|j: int| 0 <= j < heap@.len() ==> well_formed(#[trigger] heap@[j].element),
            weight_sum(queue_of(heap@)) <= heap@.len() * (u64::MAX as int),
        decreases rest.len(),
    {
        let ghost old_rest = rest@;
        let (c, p) = rest.remove(0);
        let e = PriorityElement::new(p as u128, Node::new_leaf(c));
        proof {
            let h = heap@.len() as int;
            assert(hash@[h] == (c, p)) by {
                assert(hash@.skip(h)[0] == hash@[h]);
            }
            assert(q0[h] == (p as int, CodeTree::Leaf(c@)));
            lemma_weight_sum_push(queue_of(heap@), (p as int, CodeTree::Leaf(c@)));
            assert(queue_of(heap@.push(e)) =~= q0.take(h + 1));
            assert(queue_of(heap@.push(e)) =~= queue_of(heap@).push((p as int, CodeTree::Leaf(c@))));
            assert(old_rest.remove(0) =~= hash@.skip(h + 1));
        }
        heap.push(e);
    }
    let ghost total = weight_sum(queue_of(heap@));
    proof {
        assert(queue_of(heap@) =~= q0);
        assert(n * (u64::MAX as int) <= u128::MAX) by (nonlinear_arith)
            requires
                n <= usize::MAX,
        ;
        assert(heap@.len() * (u64::MAX as int) <= u128::MAX);
    }
    while heap.len() > 1
        invariant
            heap@.len() >= 1,
            weight_sum(queue_of(heap@)) == total,
            total <= u128::MAX,
            forall|j: int| 0 <= j < heap@.len() ==> well_formed(#[trigger] heap@[j].element),
            huffman_spec(queue_of(heap@)) == huffman_spec(q0),
        decreases heap.len(),
    {
        let ghost q = heap@;
        let fst = pop_min(&mut heap);
        let ghost q1 = heap@;
        proof {
            lemma_queue_remove(q, min_pos(queue_of(q)));
        }
        let snd = pop_min(&mut heap);
        proof {
            lemma_queue_remove(q1, min_pos(queue_of(q1)));
            let qv1 = queue_of(q1);
            lemma_weight_sum_remove(queue_of(q), min_pos(queue_of(q)));
            lemma_weight_sum_remove(qv1, min_pos(qv1));
            assert forall|i: int| 0 <= i < qv1.remove(min_pos(qv1)).len() implies #[trigger] qv1.remove(min_pos(qv1))[i].0 >= 0 by {
                if i < min_pos(qv1) {
                    assert(qv1.remove(min_pos(qv1))[i] == qv1[i]);
                } else {
                    assert(qv1.remove(min_pos(qv1))[i] == qv1[i + 1]);
                }
            }
            lemma_weight_sum_nonneg(qv1.remove(min_pos(qv1)));
            assert(queue_of(q)[min_pos(queue_of(q))] == (fst.priority as int, tree_of(fst.element)));
            assert(queue_of(q1)[min_pos(queue_of(q1))] == (snd.priority as int, tree_of(snd.element)));
        }
        let m = merge(fst, snd);
        proof {
            lemma_weight_sum_push(queue_of(heap@), (m.priority as int, tree_of(m.element)));
            assert(queue_of(heap@.push(m)) =~= queue_of(heap@).push(
                (m.priority as int, tree_of(m.element)),
            ));
        }
        heap.push(m);
    }
    proof {
        let qv = queue_of(heap@);
        assert(is_min_at(qv, 0));
        lemma_min_exists(qv);
        lemma_min_unique(qv, 0, min_pos(qv));
    }
    let last = pop_min(&mut heap);
    Ok(last.element)
}

/// The entry of `w` for the symbol `c`, the first one; zero if there is none.
pub open spec fn weight_in(w: Seq<(Seq<char>, u64)>, c: Seq<char>) -> int {
    if exists|i: int| first_entry(w, c, i) {
        w[choose|i: int| first_entry(w, c, i)].1 as int
    } else {
        0
    }
}

/// Weight of a tree under the table `w`: a leaf weighs its symbol's entry,
/// an inner node the sum of its two children.
pub open spec fn tree_weight(t: CodeTree, w: Seq<(Seq<char>, u64)>) -> int
    decreases t,
{
    match t {
        CodeTree::Leaf(c) => weight_in(w, c),
        CodeTree::Inner(l, r) => tree_weight(*l, w) + tree_weight(*r, w),
    }
}

/// Symbols of `w` are pairwise distinct.
pub open spec fn distinct_symbols(w: Seq<(Seq<char>, u64)>) -> bool {
    forall|i: int, j: int| 0 <= i < w.len() && 0 <= j < w.len() && i != j ==> w[i].0 != w[j].0
}

proof fn lemma_huffman_weight(q: Seq<QItem>, w: Seq<(Seq<char>, u64)>)
    requires
        q.len() >= 1,
        forall|i: int| 0 <= i < q.len() ==> #[trigger] q[i].0 == tree_weight(q[i].1, w),
    ensures
        tree_weight(huffman_spec(q), w) == weight_sum(q),
    decreases q.len(),
{
    if q.len() == 1 {
        assert(q.drop_first() =~= Seq::<QItem>::empty());
        assert(weight_sum(q.drop_first()) == 0);
        assert(q[0].0 == tree_weight(q[0].1, w));
    } else {
        lemma_min_exists(q);
        let i = min_pos(q);
        let q1 = q.remove(i);
        lemma_min_exists(q1);
        let j = min_pos(q1);
        let q2 = q1.remove(j);
        let m = merged(q[i], q1[j]);
        lemma_weight_sum_remove(q, i);
        lemma_weight_sum_remove(q1, j);
        lemma_weight_sum_push(q2, m);
        let q3 = q2.push(m);
        assert(q1[j] == q[if j < i { j } else { j + 1 }]);
        assert forall|k: int| 0 <= k < q3.len() implies #[trigger] q3[k].0 == tree_weight(
            q3[k].1,
            w,
        ) by {
            if k < q2.len() {
                let k1 = if k < j { k } else { k + 1 };
                let k0 = if k1 < i { k1 } else { k1 + 1 };
                assert(q3[k] == q2[k]);
                assert(q2[k] == q1[k1]);
                assert(q1[k1] == q[k0]);
            }
        }
        lemma_huffman_weight(q3, w);
        assert(huffman_spec(q) == huffman_spec(q3));
    }
}

/// Weight conservation: in Huffman construction every inner node weighs the
/// sum of its two children, down to the leaves, each of which weighs its
/// symbol's entry; so the tree built from a table of distinct symbols weighs
/// the sum of the table's weights.
pub proof fn lemma_weight_conservation(w: Seq<(Seq<char>, u64)>)
    requires
        w.len() > 0,
        distinct_symbols(w),
    ensures
        tree_weight(huffman_spec(initial_queue(w)), w) == weight_sum(initial_queue(w)),
{
    let q = initial_queue(w);
    assert forall|i: int| 0 <= i < q.len() implies #[trigger] q[i].0 == tree_weight(q[i].1, w) by {
        assert(first_entry(w, w[i].0, i));
        let c = choose|c: int| first_entry(w, w[i].0, c);
        if c < i {
            assert(w[c].0 != w[i].0);
        } else if i < c {
            assert(w[i].0 != w[i].0);
        }
    }
    lemma_huffman_weight(q, w);
}

/// The codewords under `t`, whose path from the root is `prefix`: `0` for a
/// step left, `1` for a step right, the left subtree first.
pub open spec fn codes_spec(t: CodeTree, prefix: Seq<char>) -> Seq<RuleSeq>
    decreases t,
{
    match t {
        CodeTree::Leaf(c) => seq![(c, prefix)],
        CodeTree::Inner(l, r) => codes_spec(*l, prefix.push('0')) + codes_spec(*r, prefix.push('1')),
    }
}

/// The code table of a tree: a lone leaf gets the codeword `0`.
pub open spec fn code_table_spec(t: CodeTree) -> Seq<RuleSeq> {
    match t {
        CodeTree::Leaf(c) => seq![(c, seq!['0'])],
        CodeTree::Inner(_, _) => codes_spec(t, Seq::empty()),
    }
}

/// No codeword of `t` is a prefix of another entry's codeword.
pub open spec fn prefix_free(t: Seq<RuleSeq>) -> bool {
    forall|i: int, j: int|
        0 <= i < t.len() && 0 <= j < t.len() && i != j ==> !(#[trigger] t[i].1).is_prefix_of(
            #[trigger] t[j].1,
        )
}

/// `prefix` extended by one character.
fn extend(prefix: &String, c: char) -> (r: String)
    ensures
        r@ == prefix@.push(c),
{
    let mut r = prefix.clone();
    push_char(&mut r, c);
    r
}

/// Appends the codewords under `node` to `vector`, as `codes_spec` says.
fn parcours_huffman_tree(vector: &mut Vec<(String, String)>, node: Node, repr: &String)
    requires
        well_formed(node),
    ensures
        table_of(final(vector)@) == table_of(old(vector)@) + codes_spec(tree_of(node), repr@),
    decreases node,
{
    let ghost v0 = table_of(vector@);
    let ghost n0 = node;
    let Node { leaf, left, right } = node;
    match (left, right) {
        (Some(l), Some(r)) => {
            parcours_huffman_tree(vector, *l, &extend(repr, '0'));
            parcours_huffman_tree(vector, *r, &extend(repr, '1'));
            assert(table_of(vector@) =~= v0 + codes_spec(tree_of(n0), repr@));
        },
        _ => {
            if let Some(c) = leaf {
                let code = repr.clone();
                let ghost entry = (c@, code@);
                vector.push((c, code));
                assert(table_of(vector@) =~= v0 + codes_spec(tree_of(n0), repr@));
            }
        },
    }
}

/// The code table of a well-formed tree.
pub fn eval_huffman_tree(node: Node) -> (r: Vec<(String, String)>)
    requires
        well_formed(node),
    ensures
        table_of(r@) == code_table_spec(tree_of(node)),
{
    let mut v: Vec<(String, String)> = Vec::new();
    if node.left.is_none() || node.right.is_none() {
        let mut zero = String::new();
        push_char(&mut zero, '0');
        match node.leaf {
            Some(c) => {
                let ghost entry = (c@, zero@);
                v.push((c, zero));
                assert(table_of(v@) =~= seq![entry]);
            },
            None => {},
        }
        return v;
    }
    let empty = String::new();
    assert(table_of(v@) =~= Seq::<RuleSeq>::empty());
    parcours_huffman_tree(&mut v, node, &empty);
    assert(Seq::<RuleSeq>::empty() + codes_spec(tree_of(node), empty@) =~= codes_spec(
        tree_of(node),
        empty@,
    ));
    v
}

proof fn lemma_codes_prefix_free(t: CodeTree, p: Seq<char>)
    ensures
        prefix_free(codes_spec(t, p)),
        forall|i: int|
            0 <= i < codes_spec(t, p).len() ==> p.is_prefix_of(#[trigger] codes_spec(t, p)[i].1),
        t is Inner ==> forall|i: int|
            0 <= i < codes_spec(t, p).len() ==> #[trigger] codes_spec(t, p)[i].1.len() > p.len(),
    decreases t,
{
    let c = codes_spec(t, p);
    match t {
        CodeTree::Leaf(s) => {
            assert(c =~= seq![(s, p)]);
            assert(p.is_prefix_of(p)) by {
                assert(p.take(p.len() as int) =~= p);
            }
        },
        CodeTree::Inner(lb, rb) => {
            let pl = p.push('0');
            let pr = p.push('1');
            let l = codes_spec(*lb, pl);
            let r = codes_spec(*rb, pr);
            lemma_codes_prefix_free(*lb, pl);
            lemma_codes_prefix_free(*rb, pr);
            assert(c =~= l + r);
            let k = p.len() as int;
            assert forall|i: int| 0 <= i < l.len() implies #[trigger] l[i].1[k] == '0'
                && l[i].1.len() > k && p.is_prefix_of(l[i].1) by {
                assert(pl.is_prefix_of(l[i].1));
                assert(l[i].1.take(k + 1)[k] == pl[k]);
                assert(p.take(k) =~= pl.take(k));
                assert(l[i].1.take(k) =~= l[i].1.take(k + 1).take(k));
            }
            assert forall|i: int| 0 <= i < r.len() implies #[trigger] r[i].1[k] == '1'
                && r[i].1.len() > k && p.is_prefix_of(r[i].1) by {
                assert(pr.is_prefix_of(r[i].1));
                assert(r[i].1.take(k + 1)[k] == pr[k]);
                assert(p.take(k) =~= pr.take(k));
                assert(r[i].1.take(k) =~= r[i].1.take(k + 1).take(k));
            }
            assert forall|i: int, j: int|
                0 <= i < c.len() && 0 <= j < c.len() && i != j implies !(
                #[trigger] c[i].1).is_prefix_of(#[trigger] c[j].1) by {
                if i < l.len() && j < l.len() {
                    assert(c[i] == l[i] && c[j] == l[j]);
                } else if i >= l.len() && j >= l.len() {
                    assert(c[i] == r[i - l.len()] && c[j] == r[j - l.len()]);
                } else if i < l.len() {
                    assert(c[i] == l[i] && c[j] == r[j - l.len()]);
                    if c[i].1.is_prefix_of(c[j].1) {
                        assert(c[j].1.take(c[i].1.len() as int)[k] == c[i].1[k]);
                    }
                } else {
                    assert(c[i] == r[i - l.len()] && c[j] == l[j]);
                    if c[i].1.is_prefix_of(c[j].1) {
                        assert(c[j].1.take(c[i].1.len() as int)[k] == c[i].1[k]);
                    }
                }
            }
            assert forall|i: int| 0 <= i < c.len() implies p.is_prefix_of(#[trigger] c[i].1)
                && c[i].1.len() > k by {
                if i < l.len() {
                    assert(c[i] == l[i]);
                } else {
                    assert(c[i] == r[i - l.len()]);
                }
            }
        },
    }
}

/// The code table of every code tree, and so of every Huffman-built one, is
/// prefix-free: no codeword is a prefix of another.
pub proof fn lemma_prefix_free(t: CodeTree)
    ensures
        prefix_free(code_table_spec(t)),
{
    match t {
        CodeTree::Leaf(_) => {},
        CodeTree::Inner(_, _) => {
            lemma_codes_prefix_free(t, Seq::empty());
        },
    }
}

/// `t` has a leaf holding `c`.
pub open spec fn has_leaf(t: CodeTree, c: Seq<char>) -> bool
    decreases t,
{
    match t {
        CodeTree::Leaf(x) => x == c,
        CodeTree::Inner(l, r) => has_leaf(*l, c) || has_leaf(*r, c),
    }
}

/// Every leaf of `t` holds a single character of `s`.
pub open spec fn leaves_in(t: CodeTree, s: Seq<char>) -> bool
    decreases t,
{
    match t {
        CodeTree::Leaf(x) => x.len() == 1 && s.contains(x[0]),
        CodeTree::Inner(l, r) => leaves_in(*l, s) && leaves_in(*r, s),
    }
}

/// Every character of `x` is a binary digit.
pub open spec fn all_bits(x: Seq<char>) -> bool {
    forall|k: int| 0 <= k < x.len() ==> crate::text::is_bit(#[trigger] x[k])
}

proof fn lemma_huffman_leaves_in(q: Seq<QItem>, s: Seq<char>)
    requires
        q.len() >= 1,
        forall|i: int| 0 <= i < q.len() ==> leaves_in(#[trigger] q[i].1, s),
    ensures
        leaves_in(huffman_spec(q), s),
    decreases q.len(),
{
    if q.len() > 1 {
        lemma_min_exists(q);
        let i = min_pos(q);
        let q1 = q.remove(i);
        lemma_min_exists(q1);
        let j = min_pos(q1);
        let q2 = q1.remove(j);
        let m = merged(q[i], q1[j]);
        let q3 = q2.push(m);
        assert(q1[j] == q[if j < i { j } else { j + 1 }]);
        assert forall|k: int| 0 <= k < q3.len() implies leaves_in(#[trigger] q3[k].1, s) by {
            if k < q2.len() {
                let k1 = if k < j { k } else { k + 1 };
                let k0 = if k1 < i { k1 } else { k1 + 1 };
                assert(q3[k] == q2[k] && q2[k] == q1[k1] && q1[k1] == q[k0]);
            }
        }
        lemma_huffman_leaves_in(q3, s);
    }
}

proof fn lemma_huffman_has_leaf(q: Seq<QItem>, c: Seq<char>, a: int)
    requires
        0 <= a < q.len(),
        has_leaf(q[a].1, c),
    ensures
        has_leaf(huffman_spec(q), c),
    decreases q.len(),
{
    if q.len() > 1 {
        lemma_min_exists(q);
        let i = min_pos(q);
        let q1 = q.remove(i);
        lemma_min_exists(q1);
        let j = min_pos(q1);
        let q2 = q1.remove(j);
        let m = merged(q[i], q1[j]);
        let q3 = q2.push(m);
        assert(q1[j] == q[if j < i { j } else { j + 1 }]);
        if a == i {
            lemma_huffman_has_leaf(q3, c, q2.len() as int);
        } else {
            let a1 = if a < i { a } else { a - 1 };
            assert(q1[a1] == q[a]);
            if a1 == j {
                lemma_huffman_has_leaf(q3, c, q2.len() as int);
            } else {
                let a2 = if a1 < j { a1 } else { a1 - 1 };
                assert(q2[a2] == q1[a1]);
                assert(q3[a2] == q2[a2]);
                lemma_huffman_has_leaf(q3, c, a2);
            }
        }
    } else {
        assert(a == 0);
    }
}

proof fn lemma_codes_shape(t: CodeTree, p: Seq<char>, s: Seq<char>)
    requires
        all_bits(p),
    ensures
        forall|i: int|
            0 <= i < codes_spec(t, p).len() ==> all_bits(#[trigger] codes_spec(t, p)[i].1),
        leaves_in(t, s) ==> forall|i: int|
            0 <= i < codes_spec(t, p).len() ==> (#[trigger] codes_spec(t, p)[i]).0.len() == 1
                && s.contains(codes_spec(t, p)[i].0[0]),
    decreases t,
{
    match t {
        CodeTree::Leaf(x) => {},
        CodeTree::Inner(l, r) => {
            let pl = p.push('0');
            let pr = p.push('1');
            assert(all_bits(pl)) by {
                assert forall|k: int| 0 <= k < pl.len() implies crate::text::is_bit(#[trigger] pl[k]) by {
                    if k < p.len() {
                        assert(pl[k] == p[k]);
                    }
                }
            }
            assert(all_bits(pr)) by {
                assert forall|k: int| 0 <= k < pr.len() implies crate::text::is_bit(#[trigger] pr[k]) by {
                    if k < p.len() {
                        assert(pr[k] == p[k]);
                    }
                }
            }
            lemma_codes_shape(*l, pl, s);
            lemma_codes_shape(*r, pr, s);
            let cl = codes_spec(*l, pl);
            let cr = codes_spec(*r, pr);
            let c = codes_spec(t, p);
            assert(c =~= cl + cr);
            assert forall|i: int| 0 <= i < c.len() implies all_bits(#[trigger] c[i].1) by {
                if i < cl.len() {
                    assert(c[i] == cl[i]);
                } else {
                    assert(c[i] == cr[i - cl.len()]);
                }
            }
            if leaves_in(t, s) {
                assert forall|i: int| 0 <= i < c.len() implies (#[trigger] c[i]).0.len() == 1
                    && s.contains(c[i].0[0]) by {
                    if i < cl.len() {
                        assert(c[i] == cl[i]);
                    } else {
                        assert(c[i] == cr[i - cl.len()]);
                    }
                }
            }
        },
    }
}

proof fn lemma_codes_has(t: CodeTree, p: Seq<char>, c: Seq<char>)
    requires
        has_leaf(t, c),
    ensures
        exists|i: int| 0 <= i < codes_spec(t, p).len() && (#[trigger] codes_spec(t, p)[i]).0 == c,
    decreases t,
{
    match t {
        CodeTree::Leaf(x) => {
            assert(codes_spec(t, p)[0].0 == c);
        },
        CodeTree::Inner(l, r) => {
            let cl = codes_spec(*l, p.push('0'));
            let cr = codes_spec(*r, p.push('1'));
            assert(codes_spec(t, p) =~= cl + cr);
            if has_leaf(*l, c) {
                lemma_codes_has(*l, p.push('0'), c);
                let i = choose|i: int| 0 <= i < cl.len() && (#[trigger] cl[i]).0 == c;
                assert(codes_spec(t, p)[i] == cl[i]);
            } else {
                lemma_codes_has(*r, p.push('1'), c);
                let i = choose|i: int| 0 <= i < cr.len() && (#[trigger] cr[i]).0 == c;
                assert(codes_spec(t, p)[cl.len() + i] == cr[i]);
            }
        },
    }
}

/// What a code table of a tree whose leaves are characters of `s` looks
/// like: codewords non-empty, prefix-free and binary; symbols single
/// characters of `s`; every leaf's symbol present.
proof fn lemma_code_table_facts(t: CodeTree, s: Seq<char>)
    requires
        leaves_in(t, s),
    ensures
        prefix_free(code_table_spec(t)),
        forall|i: int|
            0 <= i < code_table_spec(t).len() ==> (#[trigger] code_table_spec(t)[i]).1.len() > 0
                && all_bits(code_table_spec(t)[i].1) && code_table_spec(t)[i].0.len() == 1
                && s.contains(code_table_spec(t)[i].0[0]),
        forall|c: Seq<char>|
            has_leaf(t, c) ==> exists|i: int|
                0 <= i < code_table_spec(t).len() && (#[trigger] code_table_spec(t)[i]).0 == c,
{
    lemma_prefix_free(t);
    match t {
        CodeTree::Leaf(x) => {
            let ct = code_table_spec(t);
            assert(ct[0].1 == seq!['0']);
            assert(all_bits(seq!['0']));
            assert forall|c: Seq<char>| has_leaf(t, c) implies exists|i: int|
                0 <= i < ct.len() && (#[trigger] ct[i]).0 == c by {
                assert(ct[0].0 == c);
            }
        },
        CodeTree::Inner(_, _) => {
            let e = Seq::<char>::empty();
            assert(all_bits(e));
            lemma_codes_prefix_free(t, e);
            lemma_codes_shape(t, e, s);
            assert forall|c: Seq<char>| has_leaf(t, c) implies exists|i: int|
                0 <= i < code_table_spec(t).len() && (#[trigger] code_table_spec(t)[i]).0 == c by {
                lemma_codes_has(t, e, c);
            }
        },
    }
}

/// `used` with `r` added, unless it is there already.
pub open spec fn record(used: Seq<RuleSeq>, r: RuleSeq) -> Seq<RuleSeq> {
    if used.contains(r) {
        used
    } else {
        used.push(r)
    }
}

/// The rules that greedy evaluation of `input` against `t` applies, each
/// once, in order of first use, after those of `used`; `None` where
/// evaluation fails.
pub open spec fn used_spec(t: Seq<RuleSeq>, input: Seq<char>, used: Seq<RuleSeq>) -> Option<
    Seq<RuleSeq>,
>
    decreases input.len(),
{
    if input.len() == 0 {
        Some(used)
    } else if exists|k: int| first_match(t, input, k) {
        let k = choose|k: int| first_match(t, input, k);
        used_spec(t, input.skip(t[k].0.len() as int), record(used, t[k]))
    } else {
        None
    }
}

/// `w` has an entry for the single character `c`.
pub open spec fn has_weight_for(w: Seq<(Seq<char>, u64)>, c: char) -> bool {
    exists|k: int| 0 <= k < w.len() && (#[trigger] w[k]).0 == seq![c]
}

/// Every character of `s` has an entry in `w`.
pub open spec fn weights_cover(w: Seq<(Seq<char>, u64)>, s: Seq<char>) -> bool {
    forall|i: int| 0 <= i < s.len() ==> has_weight_for(w, #[trigger] s[i])
}

proof fn lemma_count_facts(s: Seq<char>)
    ensures
        forall|i: int|
            0 <= i < count_spec(s).len() ==> (#[trigger] count_spec(s)[i]).0.len() == 1
                && s.contains(count_spec(s)[i].0[0]),
        weights_cover(count_spec(s), s),
    decreases s.len(),
{
    if s.len() > 0 {
        let d = s.drop_last();
        let c = s.last();
        lemma_count_facts(d);
        let t = count_spec(d);
        let u = count_spec(s);
        assert(u == count_char(t, c));
        assert(u.len() >= t.len());
        assert forall|k: int| 0 <= k < t.len() implies (#[trigger] u[k]).0 == t[k].0 by {
            if exists|i: int| first_entry(t, seq![c], i) {
                let i = choose|i: int| first_entry(t, seq![c], i);
                if k == i {
                    assert(u[k].0 == seq![c]);
                }
            }
        }
        assert forall|i: int| 0 <= i < u.len() implies (#[trigger] u[i]).0.len() == 1
            && s.contains(u[i].0[0]) by {
            if i < t.len() {
                assert(u[i].0 == t[i].0);
                let x = t[i].0[0];
                assert(d.contains(x));
                let m = choose|m: int| 0 <= m < d.len() && d[m] == x;
                assert(s[m] == x);
            } else {
                assert(u[i].0 == seq![c]);
                assert(s[s.len() - 1] == c);
            }
        }
        assert forall|i: int| 0 <= i < s.len() implies has_weight_for(u, #[trigger] s[i]) by {
            if i < d.len() {
                assert(s[i] == d[i]);
                assert(has_weight_for(t, d[i]));
                let k = choose|k: int| 0 <= k < t.len() && (#[trigger] t[k]).0 == seq![d[i]];
                assert(u[k].0 == t[k].0);
            } else {
                if exists|j: int| first_entry(t, seq![c], j) {
                    let j = choose|j: int| first_entry(t, seq![c], j);
                    assert(u[j].0 == seq![c]);
                } else {
                    assert(u[t.len() as int].0 == seq![c]);
                }
            }
        }
    }
}

proof fn lemma_used_covered(t: Seq<RuleSeq>, input: Seq<char>, acc: Seq<RuleSeq>)
    requires
        single_patterns(t),
        covers(t, input),
    ensures
        used_spec(t, input, acc) is Some,
        forall|e: RuleSeq| #[trigger]
            used_spec(t, input, acc)->Some_0.contains(e) ==> acc.contains(e) || t.contains(e),
        forall|e: RuleSeq| acc.contains(e) ==> #[trigger] used_spec(t, input, acc)->Some_0.contains(e),
        covers(used_spec(t, input, acc)->Some_0, input),
    decreases input.len(),
{
    if input.len() == 0 {
    } else {
        lemma_covers_rest(t, input);
        lemma_covered_step(t, input);
        let k = choose|k: int| first_match(t, input, k);
        assert(t[k].0 == seq![input[0]]);
        let rest = input.skip(1);
        let acc2 = record(acc, t[k]);
        lemma_used_covered(t, rest, acc2);
        let u = used_spec(t, rest, acc2)->Some_0;
        assert(used_spec(t, input, acc) == used_spec(t, rest, acc2));
        assert(acc2.contains(t[k])) by {
            if !acc.contains(t[k]) {
                assert(acc2[acc.len() as int] == t[k]);
            }
        }
        assert forall|e: RuleSeq| acc.contains(e) implies #[trigger] u.contains(e) by {
            let i = choose|i: int| 0 <= i < acc.len() && acc[i] == e;
            assert(acc2[i] == e);
            assert(acc2.contains(e));
        }
        assert forall|e: RuleSeq| #[trigger] u.contains(e) implies acc.contains(e) || t.contains(e) by {
            if acc2.contains(e) && !acc.contains(e) {
                let i = choose|i: int| 0 <= i < acc2.len() && acc2[i] == e;
                assert(e == t[k]);
            }
        }
        assert(u.contains(t[k]));
        assert forall|i: int| 0 <= i < input.len() implies has_rule_for(u, #[trigger] input[i]) by {
            if i == 0 {
                let m = choose|m: int| 0 <= m < u.len() && u[m] == t[k];
                assert(u[m].0 == seq![input[0]]);
            } else {
                assert(rest[i - 1] == input[i]);
            }
        }
    }
}

proof fn lemma_huffman_code_facts(w: Seq<(Seq<char>, u64)>, s: Seq<char>)
    requires
        w.len() > 0,
        forall|k: int| 0 <= k < w.len() ==> (#[trigger] w[k]).0.len() == 1 && s.contains(w[k].0[0]),
        weights_cover(w, s),
    ensures
        prefix_free(code_table_spec(huffman_spec(initial_queue(w)))),
        forall|i: int|
            0 <= i < code_table_spec(huffman_spec(initial_queue(w))).len() ==> (#[trigger] code_table_spec(
                huffman_spec(initial_queue(w)),
            )[i]).1.len() > 0 && all_bits(code_table_spec(huffman_spec(initial_queue(w)))[i].1)
                && s.contains(code_table_spec(huffman_spec(initial_queue(w)))[i].0[0]),
        single_patterns(code_table_spec(huffman_spec(initial_queue(w)))),
        covers(code_table_spec(huffman_spec(initial_queue(w))), s),
{
    let q = initial_queue(w);
    let h = huffman_spec(q);
    let c = code_table_spec(h);
    assert forall|i: int| 0 <= i < q.len() implies leaves_in(#[trigger] q[i].1, s) by {
        assert(q[i].1 == CodeTree::Leaf(w[i].0));
        assert(w[i].0.len() == 1);
    }
    lemma_huffman_leaves_in(q, s);
    lemma_code_table_facts(h, s);
    assert forall|i: int| 0 <= i < s.len() implies has_rule_for(c, #[trigger] s[i]) by {
        assert(has_weight_for(w, s[i]));
        let k = choose|k: int| 0 <= k < w.len() && (#[trigger] w[k]).0 == seq![s[i]];
        assert(q[k].1 == CodeTree::Leaf(w[k].0));
        lemma_huffman_has_leaf(q, seq![s[i]], k);
    }
}

/// The final table of compressing `s` with its own counted code.
pub open spec fn word_table(s: Seq<char>) -> Seq<RuleSeq> {
    let u = used_spec(sort_spec(Mode::Compress, word_code(s)), s, Seq::empty())->Some_0;
    second_code(sort_spec(Mode::Compress, u))
}

/// Compressing a non-empty text with its own counted code succeeds: the
/// final table has a single-character rule for every character of the
/// text, and non-empty, binary, prefix-free codewords.
pub proof fn lemma_word_compresses(s: Seq<char>)
    requires
        s.len() > 0,
    ensures
        eval_spec(word_table(s), s) is Some,
        compress_spec(s, word_code(s)) == Ok::<(Seq<char>, Seq<RuleSeq>), ProgramError>(
            (eval_spec(word_table(s), s)->Some_0, word_table(s)),
        ),
        single_patterns(word_table(s)),
        covers(word_table(s), s),
        prefix_free(word_table(s)),
        forall|i: int|
            0 <= i < word_table(s).len() ==> (#[trigger] word_table(s)[i]).1.len() > 0 && all_bits(
                word_table(s)[i].1,
            ) && s.contains(word_table(s)[i].0[0]),
{
    let w0 = count_spec(s);
    lemma_count_facts(s);
    lemma_count_empty(s);
    lemma_huffman_code_facts(w0, s);
    let c0 = word_code(s);
    lemma_sort_covers(Mode::Compress, c0, s);
    let t1 = sort_spec(Mode::Compress, c0);
    lemma_used_covered(t1, s, Seq::empty());
    let u = used_spec(t1, s, Seq::empty())->Some_0;
    assert forall|k: int| 0 <= k < u.len() implies (#[trigger] u[k]).0.len() == 1 by {
        assert(u.contains(u[k]));
        assert(t1.contains(u[k]));
    }
    lemma_sort_covers(Mode::Compress, u, s);
    let t2 = sort_spec(Mode::Compress, u);
    let any = |a: RuleSeq, b: RuleSeq| true;
    lemma_sort_keeps(Mode::Compress, u, any);
    lemma_sort_keeps(Mode::Compress, c0, any);
    assert(has_rule_for(t2, s[0]));
    let w = reweight(t2);
    assert forall|k: int| 0 <= k < w.len() implies (#[trigger] w[k]).0.len() == 1 && s.contains(
        w[k].0[0],
    ) by {
        assert(w[k].0 == t2[k].0);
        assert(t2.contains(t2[k]));
        assert(u.contains(t2[k]));
        assert(t1.contains(t2[k]));
        assert(c0.contains(t2[k]));
        let m = choose|m: int| 0 <= m < c0.len() && c0[m] == t2[k];
        assert(s.contains(c0[m].0[0]));
    }
    assert forall|i: int| 0 <= i < s.len() implies has_weight_for(w, #[trigger] s[i]) by {
        assert(has_rule_for(t2, s[i]));
        let k = choose|k: int| 0 <= k < t2.len() && (#[trigger] t2[k]).0 == seq![s[i]];
        assert(w[k].0 == t2[k].0);
    }
    lemma_huffman_code_facts(w, s);
    let c2 = code_table_spec(huffman_spec(initial_queue(w)));
    lemma_sort_covers(Mode::Compress, c2, s);
    let t3 = sort_spec(Mode::Compress, c2);
    assert(t3 == word_table(s));
    let nonpre = |a: RuleSeq, b: RuleSeq| !a.1.is_prefix_of(b.1);
    lemma_sort_keeps(Mode::Compress, c2, nonpre);
    lemma_prefix_free_pairwise(c2);
    assert(crate::program::pairwise(t3, nonpre));
    assert forall|i: int, j: int|
        0 <= i < t3.len() && 0 <= j < t3.len() && i != j implies !(#[trigger] t3[i].1).is_prefix_of(
        #[trigger] t3[j].1,
    ) by {
        assert(nonpre(t3[i], t3[j]));
    }
    assert forall|i: int| 0 <= i < t3.len() implies (#[trigger] t3[i]).1.len() > 0 && all_bits(
        t3[i].1,
    ) && s.contains(t3[i].0[0]) by {
        assert(t3.contains(t3[i]));
        assert(c2.contains(t3[i]));
        let m = choose|m: int| 0 <= m < c2.len() && c2[m] == t3[i];
        assert(c2[m].1.len() > 0 && all_bits(c2[m].1) && s.contains(c2[m].0[0]));
    }
    lemma_eval_covered(t3, s);
}

proof fn lemma_prefix_free_pairwise(c: Seq<RuleSeq>)
    requires
        prefix_free(c),
    ensures
        crate::program::pairwise(c, |a: RuleSeq, b: RuleSeq| !a.1.is_prefix_of(b.1)),
{
}

proof fn lemma_first_entry_exists(t: Seq<(Seq<char>, u64)>, k: Seq<char>, m: int)
    requires
        0 <= m < t.len(),
        t[m].0 == k,
    ensures
        exists|i: int| first_entry(t, k, i),
    decreases m,
{
    if exists|j: int| 0 <= j < m && t[j].0 == k {
        let j = choose|j: int| 0 <= j < m && t[j].0 == k;
        lemma_first_entry_exists(t, k, j);
    } else {
        assert(first_entry(t, k, m));
    }
}

proof fn lemma_count_distinct(s: Seq<char>)
    ensures
        distinct_symbols(count_spec(s)),
    decreases s.len(),
{
    if s.len() > 0 {
        let d = s.drop_last();
        let c = s.last();
        lemma_count_distinct(d);
        let t = count_spec(d);
        let u = count_spec(s);
        if exists|i: int| first_entry(t, seq![c], i) {
            let i = choose|i: int| first_entry(t, seq![c], i);
            assert forall|a: int, b: int|
                0 <= a < u.len() && 0 <= b < u.len() && a != b implies u[a].0 != u[b].0 by {
                assert(u[a].0 == t[a].0 && u[b].0 == t[b].0);
            }
        } else {
            assert forall|m: int| 0 <= m < t.len() implies #[trigger] t[m].0 != seq![c] by {
                if t[m].0 == seq![c] {
                    lemma_first_entry_exists(t, seq![c], m);
                }
            }
            assert forall|a: int, b: int|
                0 <= a < u.len() && 0 <= b < u.len() && a != b implies u[a].0 != u[b].0 by {
                if a == t.len() as int {
                    assert(u[b] == t[b]);
                } else if b == t.len() as int {
                    assert(u[a] == t[a]);
                } else {
                    assert(u[a] == t[a] && u[b] == t[b]);
                }
            }
        }
    }
}

/// Weight conservation for counted tables: the Huffman tree of the
/// character counts of a non-empty text weighs the sum of the counts, every
/// inner node the sum of its two children.
pub proof fn lemma_count_weight_conservation(s: Seq<char>)
    requires
        s.len() > 0,
    ensures
        tree_weight(huffman_spec(initial_queue(count_spec(s))), count_spec(s)) == weight_sum(
            initial_queue(count_spec(s)),
        ),
{
    lemma_count_distinct(s);
    lemma_count_empty(s);
    lemma_weight_conservation(count_spec(s));
}

/// Every leaf symbol of `t` satisfies `p`.
pub open spec fn leaves_all(t: CodeTree, p: spec_fn(Seq<char>) -> bool) -> bool
    decreases t,
{
    match t {
        CodeTree::Leaf(x) => p(x),
        CodeTree::Inner(l, r) => leaves_all(*l, p) && leaves_all(*r, p),
    }
}

proof fn lemma_huffman_leaves_all(q: Seq<QItem>, p: spec_fn(Seq<char>) -> bool)
    requires
        q.len() >= 1,
        forall|i: int| 0 <= i < q.len() ==> leaves_all(#[trigger] q[i].1, p),
    ensures
        leaves_all(huffman_spec(q), p),
    decreases q.len(),
{
    if q.len() > 1 {
        lemma_min_exists(q);
        let i = min_pos(q);
        let q1 = q.remove(i);
        lemma_min_exists(q1);
        let j = min_pos(q1);
        let q2 = q1.remove(j);
        let m = merged(q[i], q1[j]);
        let q3 = q2.push(m);
        assert(q1[j] == q[if j < i { j } else { j + 1 }]);
        assert forall|k: int| 0 <= k < q3.len() implies leaves_all(#[trigger] q3[k].1, p) by {
            if k < q2.len() {
                let k1 = if k < j { k } else { k + 1 };
                let k0 = if k1 < i { k1 } else { k1 + 1 };
                assert(q3[k] == q2[k] && q2[k] == q1[k1] && q1[k1] == q[k0]);
            }
        }
        lemma_huffman_leaves_all(q3, p);
    }
}

proof fn lemma_codes_leaves_all(t: CodeTree, pre: Seq<char>, p: spec_fn(Seq<char>) -> bool)
    requires
        leaves_all(t, p),
    ensures
        forall|i: int| 0 <= i < codes_spec(t, pre).len() ==> p(#[trigger] codes_spec(t, pre)[i].0),
    decreases t,
{
    match t {
        CodeTree::Leaf(x) => {
            assert(codes_spec(t, pre)[0].0 == x);
        },
        CodeTree::Inner(l, r) => {
            let cl = codes_spec(*l, pre.push('0'));
            let cr = codes_spec(*r, pre.push('1'));
            lemma_codes_leaves_all(*l, pre.push('0'), p);
            lemma_codes_leaves_all(*r, pre.push('1'), p);
            let c = codes_spec(t, pre);
            assert(c =~= cl + cr);
            assert forall|i: int| 0 <= i < c.len() implies p(#[trigger] c[i].0) by {
                if i < cl.len() {
                    assert(c[i] == cl[i]);
                } else {
                    assert(c[i] == cr[i - cl.len()]);
                }
            }
        },
    }
}

proof fn lemma_code_table_leaves_all(t: CodeTree, p: spec_fn(Seq<char>) -> bool)
    requires
        leaves_all(t, p),
    ensures
        forall|i: int|
            0 <= i < code_table_spec(t).len() ==> p(#[trigger] code_table_spec(t)[i].0),
{
    match t {
        CodeTree::Leaf(x) => {
            assert(code_table_spec(t)[0].0 == x);
        },
        CodeTree::Inner(_, _) => {
            lemma_codes_leaves_all(t, Seq::empty(), p);
        },
    }
}

proof fn lemma_used_within(t: Seq<RuleSeq>, input: Seq<char>, acc: Seq<RuleSeq>)
    requires
        used_spec(t, input, acc) is Some,
    ensures
        forall|e: RuleSeq| #[trigger]
            used_spec(t, input, acc)->Some_0.contains(e) ==> acc.contains(e) || t.contains(e),
    decreases input.len(),
{
    if input.len() > 0 {
        let k = choose|k: int| first_match(t, input, k);
        let acc2 = record(acc, t[k]);
        lemma_used_within(t, input.skip(t[k].0.len() as int), acc2);
        assert(t.contains(t[k]));
        assert forall|e: RuleSeq| acc2.contains(e) implies acc.contains(e) || t.contains(e) by {
            if !acc.contains(e) {
                let i = choose|i: int| 0 <= i < acc2.len() && acc2[i] == e;
                assert(e == t[k]);
            }
        }
    }
}

/// The final table of a successful compression: codewords non-empty,
/// binary and prefix-free; every symbol a pattern of the given table.
pub proof fn lemma_compress_table(init: Seq<char>, table: Seq<RuleSeq>)
    requires
        compress_spec(init, table) is Ok,
    ensures
        prefix_free(compress_spec(init, table)->Ok_0.1),
        forall|k: int|
            0 <= k < compress_spec(init, table)->Ok_0.1.len() ==> (#[trigger] compress_spec(
                init,
                table,
            )->Ok_0.1[k]).1.len() > 0 && all_bits(compress_spec(init, table)->Ok_0.1[k].1)
                && has_pattern(table, compress_spec(init, table)->Ok_0.1[k].0),
{
    let t1 = sort_spec(Mode::Compress, table);
    let u = used_spec(t1, init, Seq::empty())->Some_0;
    let t2 = sort_spec(Mode::Compress, u);
    let any = |a: RuleSeq, b: RuleSeq| true;
    lemma_sort_keeps(Mode::Compress, table, any);
    lemma_sort_keeps(Mode::Compress, u, any);
    lemma_used_within(t1, init, Seq::empty());
    let w = reweight(t2);
    let p = |x: Seq<char>| has_pattern(table, x);
    let q = initial_queue(w);
    assert forall|i: int| 0 <= i < q.len() implies leaves_all(#[trigger] q[i].1, p) by {
        assert(q[i].1 == CodeTree::Leaf(w[i].0));
        assert(w[i].0 == t2[i].0);
        assert(t2.contains(t2[i]));
        assert(u.contains(t2[i]));
        assert(t1.contains(t2[i]));
        assert(table.contains(t2[i]));
        let m = choose|m: int| 0 <= m < table.len() && table[m] == t2[i];
        assert(table[m].0 == w[i].0);
    }
    let h = huffman_spec(q);
    lemma_huffman_leaves_all(q, p);
    lemma_code_table_leaves_all(h, p);
    let c = code_table_spec(h);
    lemma_prefix_free(h);
    lemma_code_bits(h);
    let t3 = sort_spec(Mode::Compress, c);
    lemma_sort_keeps(Mode::Compress, c, any);
    let nonpre = |a: RuleSeq, b: RuleSeq| !a.1.is_prefix_of(b.1);
    lemma_prefix_free_pairwise(c);
    lemma_sort_keeps(Mode::Compress, c, nonpre);
    assert forall|i: int, j: int|
        0 <= i < t3.len() && 0 <= j < t3.len() && i != j implies !(#[trigger] t3[i].1).is_prefix_of(
        #[trigger] t3[j].1,
    ) by {
        assert(nonpre(t3[i], t3[j]));
    }
    assert forall|k: int| 0 <= k < t3.len() implies (#[trigger] t3[k]).1.len() > 0 && all_bits(
        t3[k].1,
    ) && has_pattern(table, t3[k].0) by {
        assert(t3.contains(t3[k]));
        assert(c.contains(t3[k]));
        let m = choose|m: int| 0 <= m < c.len() && c[m] == t3[k];
        assert(p(c[m].0));
    }
}

proof fn lemma_code_bits(t: CodeTree)
    ensures
        forall|i: int|
            0 <= i < code_table_spec(t).len() ==> (#[trigger] code_table_spec(t)[i]).1.len() > 0
                && all_bits(code_table_spec(t)[i].1),
{
    match t {
        CodeTree::Leaf(_) => {
            assert(all_bits(seq!['0']));
        },
        CodeTree::Inner(_, _) => {
            let e = Seq::<char>::empty();
            assert(all_bits(e));
            lemma_codes_prefix_free(t, e);
            lemma_codes_shape(t, e, e);
        },
    }
}

/// Length of the longest codeword of `t`.
pub open spec fn max_code_len(t: Seq<RuleSeq>) -> nat
    decreases t.len(),
{
    if t.len() == 0 {
        0
    } else {
        let m = max_code_len(t.drop_last());
        if m >= t.last().1.len() {
            m
        } else {
            t.last().1.len()
        }
    }
}

/// New weights for the rules of `t`: the longest codeword's length less the
/// rule's own, so that the cheapest rules weigh most.
pub open spec fn reweight(t: Seq<RuleSeq>) -> Seq<(Seq<char>, u64)> {
    t.map_values(|r: RuleSeq| (r.0, (max_code_len(t) - r.1.len()) as u64))
}

/// The code table that the second pass builds over the used rules `t`.
pub open spec fn second_code(t: Seq<RuleSeq>) -> Seq<RuleSeq> {
    sort_spec(Mode::Compress, code_table_spec(huffman_spec(initial_queue(reweight(t)))))
}

/// Both passes of the compressor on `init` with the code table `table`: the
/// final bits and the final table.
pub open spec fn compress_spec(init: Seq<char>, table: Seq<RuleSeq>) -> Result<
    (Seq<char>, Seq<RuleSeq>),
    ProgramError,
> {
    match used_spec(sort_spec(Mode::Compress, table), init, Seq::empty()) {
        None => Err(ProgramError::NoMatchingRule),
        Some(u) => {
            let t2 = sort_spec(Mode::Compress, u);
            if t2.len() == 0 {
                Err(ProgramError::EmptyWeightTable)
            } else {
                let t3 = second_code(t2);
                match eval_spec(t3, init) {
                    Some(bits) => Ok((bits, t3)),
                    None => Err(ProgramError::NoMatchingRule),
                }
            }
        },
    }
}

proof fn lemma_max_code_len(t: Seq<RuleSeq>)
    ensures
        forall|i: int| 0 <= i < t.len() ==> #[trigger] t[i].1.len() <= max_code_len(t),
        t.len() > 0 ==> exists|i: int| 0 <= i < t.len() && #[trigger] t[i].1.len() == max_code_len(t),
    decreases t.len(),
{
    if t.len() > 0 {
        let d = t.drop_last();
        lemma_max_code_len(d);
        assert forall|i: int| 0 <= i < t.len() implies #[trigger] t[i].1.len() <= max_code_len(t) by {
            if i < d.len() {
                assert(t[i] == d[i]);
            }
        }
        if d.len() > 0 && max_code_len(d) >= t.last().1.len() {
            let i = choose|i: int| 0 <= i < d.len() && #[trigger] d[i].1.len() == max_code_len(d);
            assert(t[i] == d[i]);
        } else {
            assert(t[t.len() - 1].1.len() == max_code_len(t));
        }
    }
}

/// Whether the table `v` holds the rule `r`.
fn holds_rule(v: &Vec<(String, String)>, r: &(String, String)) -> (b: bool)
    ensures
        b == table_of(v@).contains((r.0@, r.1@)),
{
    let mut i: usize = 0;
    while i < v.len()
        invariant
            i <= v@.len(),
            forall|j: int| 0 <= j < i ==> #[trigger] table_of(v@)[j] != (r.0@, r.1@),
        decreases v.len() - i,
    {
        if v[i].0 == r.0 && v[i].1 == r.1 {
            assert(table_of(v@)[i as int] == (r.0@, r.1@));
            return true;
        }
        i += 1;
    }
    false
}

proof fn lemma_used_step(t: Seq<RuleSeq>, input: Seq<char>, used: Seq<RuleSeq>, k: int)
    requires
        first_match(t, input, k),
    ensures
        used_spec(t, input, used) == used_spec(t, input.skip(t[k].0.len() as int), record(used, t[k])),
{
    let c = choose|c: int| first_match(t, input, c);
    if c < k {
        assert(!applies(t[c].0, input));
    } else if k < c {
        assert(!applies(t[k].0, input));
    }
}

/// The first pass: the rules that evaluating `input` against `rules` applies.
fn used_rules(rules: &Vec<(String, String)>, input: &String) -> (r: Result<
    Vec<(String, String)>,
    ProgramError,
>)
    ensures
        match r {
            Ok(u) => used_spec(table_of(rules@), input@, Seq::empty()) == Some(table_of(u@)),
            Err(e) => used_spec(table_of(rules@), input@, Seq::empty()) is None && e
                == ProgramError::NoMatchingRule,
        },
{
    let ghost t = table_of(rules@);
    let chars = chars_of(input);
    let mut hit: Vec<(String, String)> = Vec::new();
    let mut pos: usize = 0;
    assert(input@.skip(0) =~= input@);
    assert(table_of(hit@) =~= Seq::<RuleSeq>::empty());
    while pos < chars.len()
        invariant
            t == table_of(rules@),
            chars@ == input@,
            pos <= chars@.len(),
            used_spec(t, input@, Seq::empty()) == used_spec(
                t,
                input@.skip(pos as int),
                table_of(hit@),
            ),
        decreases chars.len() - pos,
    {
        let ghost rest = input@.skip(pos as int);
        match crate::program::find_match(rules, &chars, pos) {
            None => {
                assert(!exists|k: int| first_match(t, rest, k));
                return Err(ProgramError::NoMatchingRule);
            },
            Some(k) => {
                proof {
                    lemma_used_step(t, rest, table_of(hit@), k as int);
                    assert(rest.skip(t[k as int].0.len() as int) =~= input@.skip(
                        pos + t[k as int].0.len(),
                    ));
                }
                let n = rules[k].0.as_str().unicode_len();
                if !holds_rule(&hit, &rules[k]) {
                    let c = (rules[k].0.clone(), rules[k].1.clone());
                    let ghost entry = (c.0@, c.1@);
                    let ghost h0 = table_of(hit@);
                    hit.push(c);
                    assert(table_of(hit@) =~= h0.push(entry));
                }
                pos = pos + n;
            },
        }
    }
    assert(input@.skip(pos as int).len() == 0);
    Ok(hit)
}

/// The second pass's program: a fresh Huffman code over the rules of `code`,
/// weighted by `reweight`.
fn simplify_huff(code: &Program) -> (r: Result<Program, ProgramError>)
    ensures
        match r {
            Ok(p) => code.table().len() > 0 && p.table() == second_code(code.table()) && p.mode_of()
                == Mode::Compress,
            Err(e) => code.table().len() == 0 && e == ProgramError::EmptyWeightTable,
        },
{
    let rules = code.rules();
    let ghost t = table_of(rules@);
    let mut max_len: usize = 0;
    let mut i: usize = 0;
    assert(t.take(0) =~= Seq::<RuleSeq>::empty());
    while i < rules.len()
        invariant
            t == table_of(rules@),
            i <= rules@.len(),
            max_len == max_code_len(t.take(i as int)),
        decreases rules.len() - i,
    {
        let l = rules[i].1.as_str().unicode_len();
        proof {
            assert(t.take(i + 1).drop_last() =~= t.take(i as int));
        }
        if l > max_len {
            max_len = l;
        }
        i += 1;
    }
    assert(t.take(i as int) =~= t);
    proof {
        lemma_max_code_len(t);
    }
    let mut weights: Vec<(String, u64)> = Vec::new();
    let mut j: usize = 0;
    while j < rules.len()
        invariant
            t == table_of(rules@),
            j <= rules@.len(),
            max_len == max_code_len(t),
            forall|m: int| 0 <= m < t.len() ==> #[trigger] t[m].1.len() <= max_len,
            weights_of(weights@) == reweight(t).take(j as int),
        decreases rules.len() - j,
    {
        let l = rules[j].1.as_str().unicode_len();
        assert(t[j as int].1.len() <= max_len);
        let w = (rules[j].0.clone(), (max_len - l) as u64);
        let ghost entry = (w.0@, w.1);
        let ghost w0 = weights_of(weights@);
        weights.push(w);
        assert(weights_of(weights@) =~= w0.push(entry));
        assert(weights_of(weights@) =~= reweight(t).take(j + 1));
        j += 1;
    }
    assert(reweight(t).take(j as int) =~= reweight(t));
    let node = match hash_to_huffman_tree(weights) {
        Ok(n) => n,
        Err(e) => {
            return Err(e);
        },
    };
    let codes = eval_huffman_tree(node);
    Program::new(codes, Mode::Compress)
}

/// The final bits with the program whose table produced them.
pub struct Compressed {
    compressed: String,
    code: Program,
}

impl Compressed {
    /// The final bits.
    pub closed spec fn bits(&self) -> Seq<char> {
        self.compressed@
    }

    /// The final table.
    pub closed spec fn final_table(&self) -> Seq<RuleSeq> {
        self.code.table()
    }

    fn new(input: String, code: Program) -> (r: Compressed)
        ensures
            r.bits() == input@,
            r.final_table() == code.table(),
    {
        Compressed { compressed: input, code }
    }

    /// The final bits.
    pub fn compressed(&self) -> (r: &String)
        ensures
            r@ == self.bits(),
    {
        &self.compressed
    }

    /// The program of the final table.
    pub fn code(&self) -> (r: &Program)
        ensures
            r.table() == self.final_table(),
    {
        &self.code
    }
}

/// Both passes of the compressor: find the rules of `result` that `init`
/// uses, build a second code over them, and encode `init` with it.
pub fn compress(init: String, result: Vec<(String, String)>) -> (r: Result<Compressed, ProgramError>)
    ensures
        match r {
            Ok(c) => compress_spec(init@, table_of(result@)) == Ok::<
                (Seq<char>, Seq<RuleSeq>),
                ProgramError,
            >((c.bits(), c.final_table())),
            Err(e) => compress_spec(init@, table_of(result@)) == Err::<
                (Seq<char>, Seq<RuleSeq>),
                ProgramError,
            >(e),
        },
{
    let prog = match Program::new(result, Mode::Compress) {
        Ok(p) => p,
        Err(e) => {
            return Err(e);
        },
    };
    let hit = match used_rules(prog.rules(), &init) {
        Ok(h) => h,
        Err(e) => {
            return Err(e);
        },
    };
    let program = match Program::new(hit, Mode::Compress) {
        Ok(p) => p,
        Err(e) => {
            return Err(e);
        },
    };
    let new_prog = match simplify_huff(&program) {
        Ok(p) => p,
        Err(e) => {
            return Err(e);
        },
    };
    let answer = match new_prog.eval(init) {
        Ok(a) => a,
        Err(e) => {
            return Err(e);
        },
    };
    Ok(Compressed::new(answer, new_prog))
}

/// The table as text: one `codeword=pattern` line per rule.
pub open spec fn rules_text(t: Seq<RuleSeq>) -> Seq<char>
    decreases t.len(),
{
    if t.len() == 0 {
        Seq::empty()
    } else {
        rules_text(t.drop_last()) + t.last().1 + seq!['='] + t.last().0 + seq!['\n']
    }
}

/// The compression artifact: the table's lines, a blank line, the bits.
pub open spec fn artifact(bits: Seq<char>, t: Seq<RuleSeq>) -> Seq<char> {
    rules_text(t) + seq!['\n'] + bits
}

/// Compresses `init` with the code table `result` and renders the artifact.
pub fn display(init: String, result: Vec<(String, String)>) -> (r: Result<String, ProgramError>)
    ensures
        match (r, compress_spec(init@, table_of(result@))) {
            (Ok(s), Ok((bits, t))) => s@ == artifact(bits, t),
            (Err(e), Err(f)) => e == f,
            _ => false,
        },
{
    let compressed = match compress(init, result) {
        Ok(c) => c,
        Err(e) => {
            return Err(e);
        },
    };
    let rules = compressed.code().rules();
    let ghost t = table_of(rules@);
    let mut code = String::new();
    let mut i: usize = 0;
    assert(t.take(0) =~= Seq::<RuleSeq>::empty());
    while i < rules.len()
        invariant
            t == table_of(rules@),
            i <= rules@.len(),
            code@ == rules_text(t.take(i as int)),
        decreases rules.len() - i,
    {
        let ghost c0 = code@;
        code.append(rules[i].1.as_str());
        push_char(&mut code, '=');
        code.append(rules[i].0.as_str());
        push_char(&mut code, '\n');
        proof {
            let ti = t.take(i + 1);
            assert(ti.drop_last() =~= t.take(i as int));
            assert(ti.last() == t[i as int]);
            assert(code@ =~= c0 + t[i as int].1 + seq!['='] + t[i as int].0 + seq!['\n']);
        }
        i += 1;
    }
    assert(t.take(i as int) =~= t);
    push_char(&mut code, '\n');
    code.append(compressed.compressed().as_str());
    Ok(code)
}

/// The code table that counting the characters of `s` leads to.
pub open spec fn word_code(s: Seq<char>) -> Seq<RuleSeq> {
    code_table_spec(huffman_spec(initial_queue(count_spec(s))))
}

proof fn lemma_count_empty(s: Seq<char>)
    ensures
        (count_spec(s).len() == 0) == (s.len() == 0),
    decreases s.len(),
{
    if s.len() > 0 {
        lemma_count_empty(s.drop_last());
    }
}

/// Counts the characters of `word`, builds their Huffman code and compresses
/// `word` with it in two stages; the artifact is the result.
pub fn compress_word(word: String) -> (r: Result<String, ProgramError>)
    ensures
        word@.len() == 0 ==> r == Err::<String, ProgramError>(ProgramError::EmptyWeightTable),
        word@.len() > 0 ==> match (r, compress_spec(word@, word_code(word@))) {
            (Ok(s), Ok((bits, t))) => s@ == artifact(bits, t),
            (Err(e), Err(f)) => e == f,
            _ => false,
        },
{
    let counts = count_occ(&word);
    proof {
        lemma_count_empty(word@);
    }
    let node = match hash_to_huffman_tree(counts) {
        Ok(n) => n,
        Err(e) => {
            return Err(e);
        },
    };
    let hash = eval_huffman_tree(node);
    display(word, hash)
}

} // verus!
