//! Tree nodes: their invariants, the bins below them, and the sums they keep.

use crate::bitmap::bitmap_ids;
use crate::weight::{
    digit_of, digit_sum, lemma_digits_reconstruct, lemma_pow10_add, lemma_pow10_positive, pow10,
};
use roaring::RoaringBitmap;
use vstd::arithmetic::div_mod::*;
use vstd::prelude::*;

verus! {

/// The content of a node: children for the next digit, or the ids of one bin.
#[derive(Debug)]
pub enum NodeContent {
    /// Children indexed by the next decimal digit of the weight (0-9).
    Internal(Vec<Node>),
    /// The ids of the individuals in this bin.
    Leaf(RoaringBitmap),
}

/// A node of the tree.
#[derive(Debug)]
pub struct Node {
    /// More nodes, or the ids of a bin.
    pub content: NodeContent,
    /// The sum of the binned weights below this node, in units of `10^-precision`.
    pub accumulated_value: u128,
    /// The number of individuals below this node.
    pub content_count: u32,
}

/// Σ of the accumulated values of a sequence of nodes.
pub open spec fn acc_sum(s: Seq<Node>) -> nat
    decreases s.len(),
{
    if s.len() == 0 {
        0
    } else {
        (acc_sum(s.drop_last()) + s.last().accumulated_value) as nat
    }
}

/// Σ of the counts of a sequence of nodes.
pub open spec fn count_sum(s: Seq<Node>) -> nat
    decreases s.len(),
{
    if s.len() == 0 {
        0
    } else {
        (count_sum(s.drop_last()) + s.last().content_count) as nat
    }
}

/// Whether `b` and `u` share the decimal digits at positions `lvl + 1 ..= prec`
/// of a magnitude with `prec` places.
pub open spec fn same_path(b: nat, u: nat, lvl: nat, prec: nat) -> bool
    decreases prec - lvl,
{
    if lvl >= prec {
        true
    } else {
        digit_of(b, prec, lvl + 1) == digit_of(u, prec, lvl + 1) && same_path(b, u, lvl + 1, prec)
    }
}

impl Node {
    /// The ids of bin `b` (a weight in units of `10^-prec`) held below this
    /// node, which sits at depth `lvl` of a tree of depth `prec`: the path
    /// follows the digits of `b` from position `lvl + 1` on.
    pub open spec fn members(self, lvl: nat, prec: nat, b: nat) -> Set<u32>
        decreases prec - lvl,
    {
        match self.content {
            NodeContent::Leaf(ids) => bitmap_ids(ids),
            NodeContent::Internal(children) => {
                if lvl < prec {
                    let d = digit_of(b, prec, lvl + 1);
                    if d < children.len() {
                        children@[d as int].members(lvl + 1, prec, b)
                    } else {
                        Set::empty()
                    }
                } else {
                    Set::empty()
                }
            },
        }
    }

    /// The node invariants, for a node at depth `lvl` of a tree of depth
    /// `prec` whose path spells the number `pre`: an internal node holds the
    /// sums of its children; a leaf, found only at depth `prec`, holds its
    /// count of ids and `pre` times that count; a node at depth `prec` that
    /// is not yet a leaf is empty.
    pub open spec fn wf(self, lvl: nat, prec: nat, pre: nat) -> bool
        decreases prec - lvl,
    {
        match self.content {
            NodeContent::Leaf(ids) => {
                &&& lvl >= prec
                &&& pre > 0
                &&& self.content_count == bitmap_ids(ids).len()
                &&& self.accumulated_value == pre * bitmap_ids(ids).len()
            },
            NodeContent::Internal(children) => {
                if lvl >= prec {
                    children.len() == 0 && self.content_count == 0 && self.accumulated_value == 0
                } else {
                    &&& children.len() <= 10
                    &&& self.content_count == count_sum(children@)
                    &&& self.accumulated_value == acc_sum(children@)
                    &&& forall|i: int|
                        0 <= i < children.len() ==> (#[trigger] children@[i]).wf(
                            lvl + 1,
                            prec,
                            (pre * 10 + i) as nat,
                        )
                }
            },
        }
    }

    /// Creates a new, empty internal node.
    pub(crate) fn new_internal() -> (n: Node)
        ensures
            n.accumulated_value == 0,
            n.content_count == 0,
            n.content is Internal,
            n.content->Internal_0@.len() == 0,
    {
        Node { content: NodeContent::Internal(Vec::new()), accumulated_value: 0, content_count: 0 }
    }
}

/// What the node invariant says of an internal node above the leaf depth.
pub(crate) proof fn lemma_wf_internal(n: Node, lvl: nat, prec: nat, pre: nat)
    requires
        lvl < prec,
        n.wf(lvl, prec, pre),
    ensures
        n.content is Internal,
        n.content->Internal_0.len() <= 10,
        n.content_count == count_sum(n.content->Internal_0@),
        n.accumulated_value == acc_sum(n.content->Internal_0@),
        forall|i: int|
            0 <= i < n.content->Internal_0.len() ==> (#[trigger] n.content->Internal_0@[i]).wf(
                lvl + 1,
                prec,
                (pre * 10 + i) as nat,
            ),
{
    reveal_with_fuel(Node::wf, 2);
}

/// What the node invariant says of a leaf, and of a node at the leaf depth.
pub(crate) proof fn lemma_wf_leaf(n: Node, lvl: nat, prec: nat, pre: nat)
    requires
        n.wf(lvl, prec, pre),
        n.content is Leaf || lvl >= prec,
    ensures
        lvl >= prec,
        n.content is Leaf ==> pre > 0,
        n.content is Leaf ==> n.content_count == bitmap_ids(n.content->Leaf_0).len()
            && n.accumulated_value == pre * bitmap_ids(n.content->Leaf_0).len(),
        n.content is Internal ==> n.content->Internal_0.len() == 0 && n.content_count == 0
            && n.accumulated_value == 0,
{
}

/// An internal node above the leaf depth whose children are well formed and
/// whose sums are right is well formed.
pub(crate) proof fn lemma_wf_internal_intro(n: Node, lvl: nat, prec: nat, pre: nat)
    requires
        lvl < prec,
        n.content is Internal,
        n.content->Internal_0.len() <= 10,
        n.content_count == count_sum(n.content->Internal_0@),
        n.accumulated_value == acc_sum(n.content->Internal_0@),
        forall|i: int|
            0 <= i < n.content->Internal_0.len() ==> (#[trigger] n.content->Internal_0@[i]).wf(
                lvl + 1,
                prec,
                (pre * 10 + i) as nat,
            ),
    ensures
        n.wf(lvl, prec, pre),
{
    reveal_with_fuel(Node::wf, 2);
}

/// Which child of an internal node above the leaf depth holds a bin.
pub(crate) proof fn lemma_members_internal(n: Node, lvl: nat, prec: nat, b: nat)
    requires
        lvl < prec,
        n.content is Internal,
    ensures
        n.members(lvl, prec, b) == if digit_of(b, prec, lvl + 1) < n.content->Internal_0.len() {
            n.content->Internal_0@[digit_of(b, prec, lvl + 1) as int].members(lvl + 1, prec, b)
        } else {
            Set::<u32>::empty()
        },
{
}

/// An empty internal node is well formed anywhere and holds no ids.
pub(crate) proof fn lemma_empty_node(n: Node, lvl: nat, prec: nat, pre: nat, b: nat)
    requires
        n.content is Internal,
        n.content->Internal_0@.len() == 0,
        n.accumulated_value == 0,
        n.content_count == 0,
    ensures
        n.wf(lvl, prec, pre),
        n.members(lvl, prec, b) == Set::<u32>::empty(),
{
    assert(acc_sum(n.content->Internal_0@) == 0);
    assert(count_sum(n.content->Internal_0@) == 0);
}

pub(crate) proof fn lemma_sums_update(s: Seq<Node>, i: int, n: Node)
    requires
        0 <= i < s.len(),
    ensures
        acc_sum(s.update(i, n)) + s[i].accumulated_value == acc_sum(s) + n.accumulated_value,
        count_sum(s.update(i, n)) + s[i].content_count == count_sum(s) + n.content_count,
    decreases s.len(),
{
    if i == s.len() - 1 {
        assert(s.update(i, n).drop_last() =~= s.drop_last());
    } else {
        lemma_sums_update(s.drop_last(), i, n);
        assert(s.update(i, n).drop_last() =~= s.drop_last().update(i, n));
    }
}

pub(crate) proof fn lemma_sums_bound(s: Seq<Node>, i: int)
    requires
        0 <= i < s.len(),
    ensures
        s[i].accumulated_value <= acc_sum(s),
        s[i].content_count <= count_sum(s),
    decreases s.len(),
{
    if i < s.len() - 1 {
        lemma_sums_bound(s.drop_last(), i);
    }
}

pub(crate) proof fn lemma_sums_push_empty(s: Seq<Node>, n: Node)
    requires
        n.accumulated_value == 0,
        n.content_count == 0,
    ensures
        acc_sum(s.push(n)) == acc_sum(s),
        count_sum(s.push(n)) == count_sum(s),
{
    assert(s.push(n).drop_last() =~= s);
}

/// `u / 10^(k+1)` followed by the digit of `u` at `10^k` is `u / 10^k`.
pub(crate) proof fn lemma_prefix_step(u: nat, k: nat)
    ensures
        u / pow10(k + 1) * 10 + (u / pow10(k)) % 10 == u / pow10(k),
        u / pow10(k + 1) == (u / pow10(k)) / 10,
{
    lemma_pow10_positive(k);
    lemma_pow10_add(k, 1);
    assert(pow10(1) == 10) by {
        reveal_with_fuel(pow10, 2);
    }
    lemma_div_denominator(u as int, pow10(k) as int, 10);
    lemma_fundamental_div_mod((u / pow10(k)) as int, 10);
}

/// Sharing the digits after depth `lvl` is sharing each of them.
pub(crate) proof fn lemma_same_path_digits(b: nat, u: nat, lvl: nat, prec: nat)
    ensures
        same_path(b, u, lvl, prec) <==> (forall|p: nat|
            lvl < p <= prec ==> #[trigger] digit_of(b, prec, p) == digit_of(u, prec, p)),
    decreases prec - lvl,
{
    if lvl < prec {
        lemma_same_path_digits(b, u, lvl + 1, prec);
    }
}

/// Equal digits at positions `1..=n` give equal digit sums.
pub(crate) proof fn lemma_digit_sum_equal(b: nat, u: nat, s: nat, n: nat)
    requires
        forall|p: nat| 0 < p <= n ==> #[trigger] digit_of(b, s, p) == digit_of(u, s, p),
    ensures
        digit_sum(b, s, n) == digit_sum(u, s, n),
    decreases n,
{
    if n > 0 {
        lemma_digit_sum_equal(b, u, s, (n - 1) as nat);
        assert(digit_of(b, s, n) == digit_of(u, s, n));
    }
}

/// Two bins below `10^prec` share a root-to-leaf path only when they are equal.
pub(crate) proof fn lemma_same_path_root(b: nat, u: nat, prec: nat)
    requires
        b < pow10(prec),
        u < pow10(prec),
    ensures
        same_path(b, u, 0, prec) <==> b == u,
{
    lemma_same_path_digits(b, u, 0, prec);
    if same_path(b, u, 0, prec) {
        lemma_digit_sum_equal(b, u, prec, prec);
        lemma_digits_reconstruct(b, prec);
        lemma_digits_reconstruct(u, prec);
    }
}

impl Node {
    /// The weight held by the first `j` bins below this node, in bin order:
    /// `Σ_{c < j} (base + c) · |members(base + c)|`, where `base` is
    /// `pre · 10^(prec - lvl)`, the lightest bin below the node.
    pub open spec fn mass_upto(self, lvl: nat, prec: nat, pre: nat, j: nat) -> nat
        decreases j,
    {
        if j == 0 {
            0
        } else {
            let c = (pre * pow10((prec - lvl) as nat) + (j - 1)) as nat;
            self.mass_upto(lvl, prec, pre, (j - 1) as nat) + c * self.members(lvl, prec, c).len()
        }
    }
}

pub(crate) proof fn lemma_acc_sum_take_step(s: Seq<Node>, i: int)
    requires
        0 <= i < s.len(),
    ensures
        acc_sum(s.take(i + 1)) == acc_sum(s.take(i)) + s[i].accumulated_value,
{
    assert(s.take(i + 1).drop_last() =~= s.take(i));
}

/// Splits `j = q · s + r` by a positive `s`.
pub(crate) proof fn lemma_split(j: int, s: int, q: int, r: int)
    requires
        s > 0,
        0 <= r < s,
        j == q * s + r,
    ensures
        j / s == q,
        j % s == r,
{
    lemma_fundamental_div_mod_converse(j, s, q, r);
}

/// The bins of a child come after those of its elder siblings: the weight of
/// the first `j` bins below an internal node is the weight of the children
/// before `j / s` plus that of the first `j % s` bins of child `j / s`,
/// where `s` is the number of bins below a child; and all the bins below a
/// node hold its accumulated value.
pub(crate) proof fn lemma_mass_upto(n: Node, lvl: nat, prec: nat, pre: nat, j: nat)
    requires
        n.wf(lvl, prec, pre),
        lvl <= prec,
        j <= pow10((prec - lvl) as nat),
    ensures
        lvl < prec ==> ({
            let s = pow10((prec - lvl - 1) as nat);
            let children = n.content->Internal_0@;
            let q = j / s;
            &&& n.content is Internal
            &&& n.mass_upto(lvl, prec, pre, j) == acc_sum(
                children.take(if q < children.len() { q as int } else { children.len() as int }),
            ) + if q < children.len() {
                children[q as int].mass_upto(lvl + 1, prec, (pre * 10 + q) as nat, j % s)
            } else {
                0
            }
        }),
        j == pow10((prec - lvl) as nat) ==> n.mass_upto(lvl, prec, pre, j) == n.accumulated_value,
    decreases prec - lvl, j,
{
    if lvl >= prec {
        lemma_wf_leaf(n, lvl, prec, pre);
        assert(pow10(0) == 1);
        if j == 1 {
            assert(n.mass_upto(lvl, prec, pre, 0) == 0);
            assert(pre * 1 + 0 == pre);
            assert(n.mass_upto(lvl, prec, pre, 1) == pre * n.members(lvl, prec, pre).len());
            if n.content is Leaf {
                assert(n.members(lvl, prec, pre) == bitmap_ids(n.content->Leaf_0));
            } else {
                assert(n.members(lvl, prec, pre) == Set::<u32>::empty());
                assert(Set::<u32>::empty().len() == 0);
                assert(pre * 0 == 0);
            }
        }
    } else {
        lemma_wf_internal(n, lvl, prec, pre);
        let k = (prec - lvl - 1) as nat;
        let s = pow10(k);
        let children = n.content->Internal_0@;
        let len = children.len() as int;
        lemma_pow10_positive(k);
        assert(pow10((prec - lvl) as nat) == 10 * s);
        if j == 0 {
            lemma_split(0, s as int, 0, 0);
            assert(children.take(0) =~= Seq::<Node>::empty());
        } else {
            let jm = (j - 1) as nat;
            lemma_mass_upto(n, lvl, prec, pre, jm);
            let q = jm / s;
            let r = jm % s;
            lemma_fundamental_div_mod(jm as int, s as int);
            assert(q < 10) by (nonlinear_arith)
                requires
                    jm == s * q + r,
                    0 <= r,
                    jm < 10 * s,
                    s > 0,
            ;
            // the bin reached at step j
            let c = pre * pow10((prec - lvl) as nat) + jm;
            let cpre = (pre * 10 + q) as nat;
            assert(c == cpre * s + r) by (nonlinear_arith)
                requires
                    c == pre * (10 * s) + jm,
                    jm == s * q + r,
                    cpre == pre * 10 + q,
            ;
            lemma_split(c as int, s as int, cpre as int, r as int);
            lemma_split(cpre as int, 10, pre as int, q as int);
            assert(digit_of(c as nat, prec, lvl + 1) == q);
            lemma_members_internal(n, lvl, prec, c as nat);
            assert(q * s == s * q) by (nonlinear_arith);
            assert((q + 1) * s == q * s + s) by (nonlinear_arith);
            if r + 1 < s {
                lemma_split(j as int, s as int, q as int, (r + 1) as int);
            } else {
                lemma_split(j as int, s as int, (q + 1) as int, 0);
            }
            if q < len {
                let child = children[q as int];
                assert(child.wf(lvl + 1, prec, cpre));
                // the child's own sum gains the same term
                assert(cpre * pow10((prec - (lvl + 1)) as nat) + r == c);
                assert(child.mass_upto(lvl + 1, prec, cpre, (r + 1) as nat) == child.mass_upto(
                    lvl + 1,
                    prec,
                    cpre,
                    r as nat,
                ) + c * child.members(lvl + 1, prec, c as nat).len());
                if r + 1 == s {
                    lemma_mass_upto(child, lvl + 1, prec, cpre, s);
                    lemma_acc_sum_take_step(children, q as int);
                    if q + 1 < len {
                        assert(children[(q + 1) as int].mass_upto(lvl + 1, prec, (pre * 10 + (q + 1)) as nat, 0) == 0);
                    }
                }
            } else {
                assert(n.members(lvl, prec, c as nat) == Set::<u32>::empty());
                assert(c * Set::<u32>::empty().len() == 0);
            }
        }
        let q = j / s;
        assert(n.mass_upto(lvl, prec, pre, j) == acc_sum(
            children.take(if q < len { q as int } else { len }),
        ) + if q < len {
            children[q as int].mass_upto(lvl + 1, prec, (pre * 10 + q) as nat, j % s)
        } else {
            0
        });
        if j == pow10((prec - lvl) as nat) {
            lemma_split(j as int, s as int, 10, 0);
            assert(children.take(len) =~= children);
        }
    }
}

pub(crate) proof fn lemma_sums_cover(s: Seq<Node>)
    requires
        forall|i: int| 0 <= i < s.len() ==> #[trigger] s[i].accumulated_value >= s[i].content_count,
    ensures
        acc_sum(s) >= count_sum(s),
    decreases s.len(),
{
    if s.len() > 0 {
        lemma_sums_cover(s.drop_last());
        assert(s.last() == s[s.len() - 1]);
    }
}

/// Every individual weighs at least one unit, so a node weighs at least its count.
pub(crate) proof fn lemma_mass_covers_count(n: Node, lvl: nat, prec: nat, pre: nat)
    requires
        n.wf(lvl, prec, pre),
    ensures
        n.accumulated_value >= n.content_count,
    decreases prec - lvl,
{
    if lvl >= prec || n.content is Leaf {
        lemma_wf_leaf(n, lvl, prec, pre);
        if n.content is Leaf {
            let k = bitmap_ids(n.content->Leaf_0).len();
            assert(pre * k >= k) by (nonlinear_arith)
                requires
                    pre > 0,
            ;
        }
    } else {
        lemma_wf_internal(n, lvl, prec, pre);
        let children = n.content->Internal_0@;
        assert forall|i: int| 0 <= i < children.len() implies #[trigger] children[i].accumulated_value
            >= children[i].content_count by {
            lemma_mass_covers_count(children[i], lvl + 1, prec, (pre * 10 + i) as nat);
        }
        lemma_sums_cover(children);
    }
}

impl Node {
    /// The number of ids in the first `j` bins below this node, in bin order:
    /// `Σ_{c < j} |members(base + c)|`, with `base` as in `mass_upto`.
    pub open spec fn count_upto(self, lvl: nat, prec: nat, pre: nat, j: nat) -> nat
        decreases j,
    {
        if j == 0 {
            0
        } else {
            let c = (pre * pow10((prec - lvl) as nat) + (j - 1)) as nat;
            self.count_upto(lvl, prec, pre, (j - 1) as nat) + self.members(lvl, prec, c).len()
        }
    }

    /// The aggregate invariant, for every node: its accumulated value is the
    /// sum of the weights of the ids below it, and its count is their number.
    pub proof fn lemma_aggregates(self, lvl: nat, prec: nat, pre: nat)
        requires
            self.wf(lvl, prec, pre),
            lvl <= prec,
        ensures
            self.accumulated_value == self.mass_upto(lvl, prec, pre, pow10((prec - lvl) as nat)),
            self.content_count == self.count_upto(lvl, prec, pre, pow10((prec - lvl) as nat)),
    {
        lemma_mass_upto(self, lvl, prec, pre, pow10((prec - lvl) as nat));
        lemma_count_upto(self, lvl, prec, pre, pow10((prec - lvl) as nat));
    }
}

pub(crate) proof fn lemma_count_sum_take_step(s: Seq<Node>, i: int)
    requires
        0 <= i < s.len(),
    ensures
        count_sum(s.take(i + 1)) == count_sum(s.take(i)) + s[i].content_count,
{
    assert(s.take(i + 1).drop_last() =~= s.take(i));
}

/// The counting twin of `lemma_mass_upto`.
pub(crate) proof fn lemma_count_upto(n: Node, lvl: nat, prec: nat, pre: nat, j: nat)
    requires
        n.wf(lvl, prec, pre),
        lvl <= prec,
        j <= pow10((prec - lvl) as nat),
    ensures
        lvl < prec ==> ({
            let s = pow10((prec - lvl - 1) as nat);
            let children = n.content->Internal_0@;
            let q = j / s;
            &&& n.content is Internal
            &&& n.count_upto(lvl, prec, pre, j) == count_sum(
                children.take(if q < children.len() { q as int } else { children.len() as int }),
            ) + if q < children.len() {
                children[q as int].count_upto(lvl + 1, prec, (pre * 10 + q) as nat, j % s)
            } else {
                0
            }
        }),
        j == pow10((prec - lvl) as nat) ==> n.count_upto(lvl, prec, pre, j) == n.content_count,
    decreases prec - lvl, j,
{
    if lvl >= prec {
        lemma_wf_leaf(n, lvl, prec, pre);
        assert(pow10(0) == 1);
        if j == 1 {
            assert(n.count_upto(lvl, prec, pre, 0) == 0);
            assert(pre * 1 + 0 == pre);
            assert(n.count_upto(lvl, prec, pre, 1) == n.members(lvl, prec, pre).len());
            if n.content is Leaf {
                assert(n.members(lvl, prec, pre) == bitmap_ids(n.content->Leaf_0));
            } else {
                assert(n.members(lvl, prec, pre) == Set::<u32>::empty());
                assert(Set::<u32>::empty().len() == 0);
            }
        }
    } else {
        lemma_wf_internal(n, lvl, prec, pre);
        let k = (prec - lvl - 1) as nat;
        let s = pow10(k);
        let children = n.content->Internal_0@;
        let len = children.len() as int;
        lemma_pow10_positive(k);
        assert(pow10((prec - lvl) as nat) == 10 * s);
        if j == 0 {
            lemma_split(0, s as int, 0, 0);
            assert(children.take(0) =~= Seq::<Node>::empty());
        } else {
            let jm = (j - 1) as nat;
            lemma_count_upto(n, lvl, prec, pre, jm);
            let q = jm / s;
            let r = jm % s;
            lemma_fundamental_div_mod(jm as int, s as int);
            assert(q < 10) by (nonlinear_arith)
                requires
                    jm == s * q + r,
                    0 <= r,
                    jm < 10 * s,
                    s > 0,
            ;
            let c = pre * pow10((prec - lvl) as nat) + jm;
            let cpre = (pre * 10 + q) as nat;
            assert(c == cpre * s + r) by (nonlinear_arith)
                requires
                    c == pre * (10 * s) + jm,
                    jm == s * q + r,
                    cpre == pre * 10 + q,
            ;
            lemma_split(c as int, s as int, cpre as int, r as int);
            lemma_split(cpre as int, 10, pre as int, q as int);
            assert(digit_of(c as nat, prec, lvl + 1) == q);
            lemma_members_internal(n, lvl, prec, c as nat);
            assert(q * s == s * q) by (nonlinear_arith);
            assert((q + 1) * s == q * s + s) by (nonlinear_arith);
            if r + 1 < s {
                lemma_split(j as int, s as int, q as int, (r + 1) as int);
            } else {
                lemma_split(j as int, s as int, (q + 1) as int, 0);
            }
            if q < len {
                let child = children[q as int];
                assert(child.wf(lvl + 1, prec, cpre));
                assert(cpre * pow10((prec - (lvl + 1)) as nat) + r == c);
                assert(child.count_upto(lvl + 1, prec, cpre, (r + 1) as nat) == child.count_upto(
                    lvl + 1,
                    prec,
                    cpre,
                    r as nat,
                ) + child.members(lvl + 1, prec, c as nat).len());
                if r + 1 == s {
                    lemma_count_upto(child, lvl + 1, prec, cpre, s);
                    lemma_count_sum_take_step(children, q as int);
                    if q + 1 < len {
                        assert(children[(q + 1) as int].count_upto(
                            lvl + 1,
                            prec,
                            (pre * 10 + (q + 1)) as nat,
                            0,
                        ) == 0);
                    }
                }
            } else {
                assert(n.members(lvl, prec, c as nat) == Set::<u32>::empty());
                assert(Set::<u32>::empty().len() == 0);
            }
        }
        let q = j / s;
        assert(n.count_upto(lvl, prec, pre, j) == count_sum(
            children.take(if q < len { q as int } else { len }),
        ) + if q < len {
            children[q as int].count_upto(lvl + 1, prec, (pre * 10 + q) as nat, j % s)
        } else {
            0
        });
        if j == pow10((prec - lvl) as nat) {
            lemma_split(j as int, s as int, 10, 0);
            assert(children.take(len) =~= children);
        }
    }
}

impl Node {
    /// Whether `new` keeps every node of this subtree at its path and of its
    /// kind: a leaf stays a leaf, an internal node stays internal and keeps
    /// its children (more may follow them), and only an internal node
    /// without children at the leaf depth may become a leaf.
    pub open spec fn grows_into(self, new: Node, lvl: nat, prec: nat) -> bool
        decreases prec - lvl,
    {
        match self.content {
            NodeContent::Leaf(_) => new.content is Leaf,
            NodeContent::Internal(children) => match new.content {
                NodeContent::Leaf(_) => lvl >= prec && children.len() == 0,
                NodeContent::Internal(new_children) => {
                    &&& new_children.len() >= children.len()
                    &&& lvl < prec ==> forall|i: int|
                        0 <= i < children.len() ==> (#[trigger] children@[i]).grows_into(
                            new_children@[i],
                            lvl + 1,
                            prec,
                        )
                },
            },
        }
    }

    /// Whether `new` has exactly the shape of this subtree: the same nodes at
    /// the same paths, each of the same kind.
    pub open spec fn same_shape(self, new: Node, lvl: nat, prec: nat) -> bool
        decreases prec - lvl,
    {
        match self.content {
            NodeContent::Leaf(_) => new.content is Leaf,
            NodeContent::Internal(children) => {
                &&& new.content is Internal
                &&& new.content->Internal_0.len() == children.len()
                &&& lvl < prec ==> forall|i: int|
                    0 <= i < children.len() ==> (#[trigger] children@[i]).same_shape(
                        new.content->Internal_0@[i],
                        lvl + 1,
                        prec,
                    )
            },
        }
    }
}

pub(crate) proof fn lemma_shape_refl(n: Node, lvl: nat, prec: nat)
    ensures
        n.grows_into(n, lvl, prec),
        n.same_shape(n, lvl, prec),
    decreases prec - lvl,
{
    if lvl < prec && n.content is Internal {
        let children = n.content->Internal_0@;
        assert forall|i: int| 0 <= i < children.len() implies (#[trigger] children[i]).grows_into(
            children[i],
            lvl + 1,
            prec,
        ) && children[i].same_shape(children[i], lvl + 1, prec) by {
            lemma_shape_refl(children[i], lvl + 1, prec);
        }
    }
}

/// An internal node above the leaf depth grows into one whose children grow
/// from its own.
pub(crate) proof fn lemma_grows_internal_intro(n: Node, new: Node, lvl: nat, prec: nat)
    requires
        lvl < prec,
        n.content is Internal,
        new.content is Internal,
        new.content->Internal_0.len() >= n.content->Internal_0.len(),
        forall|i: int|
            0 <= i < n.content->Internal_0.len() ==> (#[trigger] n.content->Internal_0@[i]).grows_into(
                new.content->Internal_0@[i],
                lvl + 1,
                prec,
            ),
    ensures
        n.grows_into(new, lvl, prec),
{
}

/// An internal node above the leaf depth keeps its shape when its children do.
pub(crate) proof fn lemma_same_shape_internal_intro(n: Node, new: Node, lvl: nat, prec: nat)
    requires
        lvl < prec,
        n.content is Internal,
        new.content is Internal,
        new.content->Internal_0.len() == n.content->Internal_0.len(),
        forall|i: int|
            0 <= i < n.content->Internal_0.len() ==> (#[trigger] n.content->Internal_0@[i]).same_shape(
                new.content->Internal_0@[i],
                lvl + 1,
                prec,
            ),
    ensures
        n.same_shape(new, lvl, prec),
{
}

/// The number spelled by the digits `path` after the digits of `pre`.
pub open spec fn extend(pre: nat, path: Seq<int>) -> nat
    decreases path.len(),
{
    if path.len() == 0 {
        pre
    } else {
        extend((pre * 10 + path[0]) as nat, path.drop_first())
    }
}

impl Node {
    /// The node reached from this one by following the child indices `path`.
    pub open spec fn descendant(self, path: Seq<int>) -> Option<Node>
        decreases path.len(),
    {
        if path.len() == 0 {
            Some(self)
        } else {
            match self.content {
                NodeContent::Internal(children) => if 0 <= path[0] < children.len() {
                    children@[path[0]].descendant(path.drop_first())
                } else {
                    None
                },
                NodeContent::Leaf(_) => None,
            }
        }
    }
}

/// Every node below a well-formed node is well formed, at its own depth and
/// for the number its path spells.
pub proof fn lemma_descendant_wf(n: Node, lvl: nat, prec: nat, pre: nat, path: Seq<int>)
    requires
        n.wf(lvl, prec, pre),
        lvl <= prec,
        n.descendant(path) is Some,
    ensures
        lvl + path.len() <= prec,
        n.descendant(path)->0.wf(lvl + path.len(), prec, extend(pre, path)),
    decreases path.len(),
{
    if path.len() > 0 {
        if lvl >= prec {
            lemma_wf_leaf(n, lvl, prec, pre);
        } else {
            lemma_wf_internal(n, lvl, prec, pre);
            let children = n.content->Internal_0@;
            let child = children[path[0]];
            assert(child.wf(lvl + 1, prec, (pre * 10 + path[0]) as nat));
            lemma_descendant_wf(child, lvl + 1, prec, (pre * 10 + path[0]) as nat, path.drop_first());
        }
    }
}

} // verus!
