//! The digit-binning tree: insertion, removal, and weighted selection.

use crate::bitmap::{
    bitmap_contains, bitmap_difference, bitmap_ids, bitmap_insert, bitmap_len, bitmap_min,
    bitmap_new, bitmap_remove, bitmap_select, lemma_u32_set_finite, lemma_u32_set_size,
    rank_below,
};
use crate::node::{
    acc_sum, count_sum, extend, lemma_acc_sum_take_step, lemma_descendant_wf, lemma_empty_node, lemma_grows_internal_intro,
    lemma_mass_covers_count, lemma_mass_upto, lemma_members_internal, lemma_prefix_step,
    lemma_same_path_root, lemma_same_shape_internal_intro, lemma_shape_refl, lemma_split,
    lemma_sums_bound, lemma_sums_push_empty, lemma_sums_update, lemma_wf_internal,
    lemma_wf_internal_intro, lemma_wf_leaf, same_path, Node, NodeContent,
};
use crate::random::random_below;
use crate::weight::{
    accepts, bin_units, binned_units, digit_of, get_digit_at, lemma_binned_at_own_scale,
    lemma_pow10_max_scale, lemma_pow10_monotonic, lemma_pow10_positive, pow10, Weight,
    MAX_MANTISSA, MAX_SCALE,
};
use roaring::RoaringBitmap;
use vstd::arithmetic::div_mod::*;
use vstd::prelude::*;
use vstd::set_lib::lemma_len_subset;

verus! {

/// The precision used when none is given.
pub const DEFAULT_PRECISION: u8 = 3;

/// How many exhausted bins `select_many` may reach before it gives up.
pub const MAX_REJECTIONS: u64 = 1_000_000;

/// Whether `id` is among the ids of `picks`.
pub open spec fn picked(picks: Seq<(u32, Weight)>, id: u32) -> bool {
    exists|i: int| 0 <= i < picks.len() && (#[trigger] picks[i]).0 == id
}

/// The ids of `picks` are pairwise distinct.
pub open spec fn distinct_ids(picks: Seq<(u32, Weight)>) -> bool {
    forall|i: int, j: int|
        0 <= i < picks.len() && 0 <= j < picks.len() && i != j ==> (#[trigger] picks[i]).0 != (
        #[trigger] picks[j]).0
}

/// Σ of the mantissas of the weights of `picks`.
pub open spec fn weight_sum(picks: Seq<(u32, Weight)>) -> int
    decreases picks.len(),
{
    if picks.len() == 0 {
        0
    } else {
        weight_sum(picks.drop_last()) + picks.last().1.mantissa
    }
}

/// A data structure that organizes weighted items into bins by the decimal
/// digits of their weights, for fast weighted random selection and removal.
///
/// Weights are binned to `precision` decimal places: items whose binned
/// weights agree are indistinguishable for selection. In exchange, adding,
/// removing and selecting take time proportional to the precision.
#[derive(Debug)]
pub struct DigitBinIndex {
    /// The root node of the tree.
    pub root: Node,
    /// The number of decimal places used for binning.
    pub precision: u8,
}

impl DigitBinIndex {
    /// The ids of bin `b`: those whose binned weight is `b / 10^precision`.
    pub open spec fn bin(self, b: nat) -> Set<u32> {
        self.root.members(0, self.precision as nat, b)
    }

    /// Whether `id` is in the index.
    pub open spec fn contains(self, id: u32) -> bool {
        exists|b: nat| b < pow10(self.precision as nat) && #[trigger] self.bin(b).contains(id)
    }

    /// The number of individuals in the index.
    pub open spec fn population(self) -> nat {
        self.root.content_count as nat
    }

    /// The total binned weight in the index, in units of `10^-precision`.
    pub open spec fn mass(self) -> nat {
        self.root.accumulated_value as nat
    }

    /// The index invariant: a precision of 1 to 28 places, a well-formed tree
    /// whose total fits in a decimal, and each id in one bin at most.
    pub open spec fn wf(self) -> bool {
        &&& 1 <= self.precision <= MAX_SCALE
        &&& self.root.wf(0, self.precision as nat, 0)
        &&& self.root.accumulated_value <= MAX_MANTISSA
        &&& forall|id: u32, b1: nat, b2: nat|
            b1 < pow10(self.precision as nat) && b2 < pow10(self.precision as nat)
                && #[trigger] self.bin(b1).contains(id) && #[trigger] self.bin(b2).contains(id)
                ==> b1 == b2
    }

    /// The weight held by the bins lighter than `b`: `Σ_{c < b} c · |bin(c)|`,
    /// in units of `10^-precision`.
    pub open spec fn mass_below(self, b: nat) -> nat
        decreases b,
    {
        if b == 0 {
            0
        } else {
            let c = (b - 1) as nat;
            self.mass_below(c) + c * self.bin(c).len()
        }
    }

    /// Whether a draw of `target`, from `0` up to the total weight, falls in
    /// bin `b`: the bins are laid end to end in increasing order, each as wide
    /// as the weight it holds.
    pub open spec fn draws_bin(self, target: nat, b: nat) -> bool {
        &&& b < pow10(self.precision as nat)
        &&& self.mass_below(b) <= target
        &&& target < self.mass_below(b) + b * self.bin(b).len()
    }

    /// One draw of the unique multi-draw at `target`, against the ids `sel`
    /// selected so far: the smallest id of the drawn bin that is not in
    /// `sel`, with the bin's weight; `None` when the draw falls in no bin or
    /// every id of its bin is in `sel`.
    pub open spec fn unique_pick(self, target: nat, sel: Set<u32>) -> Option<(u32, Weight)> {
        if exists|b: nat| self.draws_bin(target, b) {
            let b = choose|b: nat| self.draws_bin(target, b);
            let available = self.bin(b).difference(sel);
            if exists|id: u32| available.contains(id) {
                let id = choose|id: u32|
                    available.contains(id) && forall|y: u32| available.contains(y) ==> id <= y;
                Some((id, Weight { mantissa: b as i128, scale: self.precision as u32 }))
            } else {
                None
            }
        } else {
            None
        }
    }

    /// What the unique multi-draw of `k` ids returns when its draws are
    /// `targets`, in order, after it has picked `picks` (whose ids are `sel`)
    /// and may still reject `rejections_left` draws: it stops with the picks
    /// once it has `k` of them, and fails when the draws run out or a draw is
    /// rejected with no rejections left.
    pub open spec fn many_from(
        self,
        k: nat,
        targets: Seq<u128>,
        picks: Seq<(u32, Weight)>,
        sel: Set<u32>,
        rejections_left: nat,
    ) -> Option<Seq<(u32, Weight)>>
        decreases targets.len(),
    {
        if picks.len() >= k {
            Some(picks)
        } else if targets.len() == 0 {
            None
        } else {
            match self.unique_pick(targets[0] as nat, sel) {
                Some(p) => self.many_from(
                    k,
                    targets.drop_first(),
                    picks.push(p),
                    sel.insert(p.0),
                    rejections_left,
                ),
                None => if rejections_left == 0 {
                    None
                } else {
                    self.many_from(
                        k,
                        targets.drop_first(),
                        picks,
                        sel,
                        (rejections_left - 1) as nat,
                    )
                },
            }
        }
    }

    /// Whether `r` is what the unique multi-draw of `k` ids returns for some
    /// sequence of draws below the total weight, starting from nothing and
    /// allowed `MAX_REJECTIONS` rejections.
    pub open spec fn many_for_some_draws(self, k: nat, r: Option<Vec<(u32, Weight)>>) -> bool {
        exists|targets: Seq<u128>|
            {
                &&& forall|i: int| 0 <= i < targets.len() ==> #[trigger] targets[i] < self.mass()
                &&& r.is_some() == (#[trigger] self.many_from(
                    k,
                    targets,
                    Seq::empty(),
                    Set::empty(),
                    MAX_REJECTIONS as nat,
                )).is_some()
                &&& r.is_some() ==> r.unwrap()@ == self.many_from(
                    k,
                    targets,
                    Seq::empty(),
                    Set::empty(),
                    MAX_REJECTIONS as nat,
                ).unwrap()
            }
    }

    /// Every non-empty bin holds at least `k` ids, so that no draw of a
    /// unique multi-draw of `k` ids can be rejected.
    pub open spec fn bins_hold_at_least(self, k: nat) -> bool {
        forall|b: nat|
            b < pow10(self.precision as nat) && self.bin(b).len() > 0 ==> #[trigger] self.bin(
                b,
            ).len() >= k
    }

    /// `new` is this index with `id` added to bin `b`.
    pub open spec fn adds(self, new: Self, id: u32, b: nat) -> bool {
        &&& new.precision == self.precision
        &&& new.population() == self.population() + 1
        &&& new.mass() == self.mass() + b
        &&& forall|c: nat|
            c < pow10(self.precision as nat) ==> #[trigger] new.bin(c) == if c == b {
                self.bin(c).insert(id)
            } else {
                self.bin(c)
            }
    }

    /// `new` is this index with `id` taken out of bin `b`.
    pub open spec fn removes(self, new: Self, id: u32, b: nat) -> bool {
        &&& new.precision == self.precision
        &&& new.population() == self.population() - 1
        &&& new.mass() == self.mass() - b
        &&& forall|c: nat|
            c < pow10(self.precision as nat) ==> #[trigger] new.bin(c) == if c == b {
                self.bin(c).remove(id)
            } else {
                self.bin(c)
            }
    }

    /// Each of `picks` is an id of the index with the binned weight of its bin.
    pub open spec fn holds_all(self, picks: Seq<(u32, Weight)>) -> bool {
        forall|i: int|
            0 <= i < picks.len() ==> {
                &&& (#[trigger] picks[i]).1.scale == self.precision
                &&& 0 < picks[i].1.mantissa < pow10(self.precision as nat)
                &&& self.bin(picks[i].1.mantissa as nat).contains(picks[i].0)
            }
    }

    /// Creates an empty index with the default precision of 3.
    pub fn new() -> (index: Self)
        ensures
            index.wf(),
            index.precision == DEFAULT_PRECISION,
            index.population() == 0,
            index.mass() == 0,
            forall|b: nat| #[trigger] index.bin(b) == Set::<u32>::empty(),
    {
        Self::with_precision(DEFAULT_PRECISION)
    }

    /// Creates an empty index that bins weights to `precision` decimal places.
    pub fn with_precision(precision: u8) -> (index: Self)
        requires
            1 <= precision <= MAX_SCALE,
        ensures
            index.wf(),
            index.precision == precision,
            index.population() == 0,
            index.mass() == 0,
            forall|b: nat| #[trigger] index.bin(b) == Set::<u32>::empty(),
    {
        let index = DigitBinIndex { root: Node::new_internal(), precision };
        proof {
            assert forall|b: nat| #[trigger] index.bin(b) == Set::<u32>::empty() by {
                lemma_empty_node(index.root, 0, precision as nat, 0, b);
            }
            lemma_empty_node(index.root, 0, precision as nat, 0, 0);
        }
        index
    }

    /// Adds an individual with a weight to the index.
    ///
    /// The weight is binned to the index's precision first. A weight that is
    /// not positive, that bins to zero, or that bins to one or more is
    /// refused: `false`, and the index is unchanged.
    pub fn add(&mut self, individual_id: u32, weight: Weight) -> (r: bool)
        requires
            old(self).wf(),
            weight.wf(),
            !old(self).contains(individual_id),
            old(self).population() < u32::MAX,
            accepts(weight, old(self).precision as nat) ==> old(self).mass() + binned_units(
                weight,
                old(self).precision as nat,
            ) <= MAX_MANTISSA,
        ensures
            final(self).wf(),
            final(self).precision == old(self).precision,
            r == accepts(weight, old(self).precision as nat),
            r ==> old(self).adds(
                *final(self),
                individual_id,
                binned_units(weight, old(self).precision as nat),
            ),
            r ==> old(self).root.grows_into(final(self).root, 0, old(self).precision as nat),
            !r ==> *final(self) == *old(self),
    {
        let units = match bin_units(weight, self.precision) {
            Some(u) => u,
            None => return false,
        };
        let ghost prec = self.precision as nat;
        let ghost old_index = *self;
        proof {
            lemma_pow10_monotonic(prec, MAX_SCALE as nat);
            lemma_pow10_max_scale();
            lemma_pow10_positive(prec);
            lemma_basic_div(units as int, pow10(prec) as int);
            assert(prec + 1 - 1 == prec);
            assert(!old_index.bin(units as nat).contains(individual_id));
        }
        let binned = Weight::from_i128_with_scale(units as i128, self.precision as u32);
        Self::add_recurse(&mut self.root, individual_id, binned, 1, self.precision);
        proof {
            assert forall|b: nat| b < pow10(prec) implies #[trigger] self.bin(b) == if b == units {
                old_index.bin(b).insert(individual_id)
            } else {
                old_index.bin(b)
            } by {
                lemma_same_path_root(b, units as nat, prec);
            }
            assert forall|id: u32, b1: nat, b2: nat|
                b1 < pow10(prec) && b2 < pow10(prec) && #[trigger] self.bin(b1).contains(id)
                    && #[trigger] self.bin(b2).contains(id) implies b1 == b2 by {
                if id != individual_id {
                    assert(old_index.bin(b1).contains(id));
                    assert(old_index.bin(b2).contains(id));
                } else {
                    if b1 != units {
                        assert(old_index.contains(id));
                    }
                    if b2 != units {
                        assert(old_index.contains(id));
                    }
                }
            }
        }
        true
    }

    /// Adds `individual_id` below `node`, a node at depth `current_depth - 1`,
    /// along the digits of the binned `weight`, whose scale is the depth of
    /// the tree.
    fn add_recurse(
        node: &mut Node,
        individual_id: u32,
        weight: Weight,
        current_depth: u8,
        max_depth: u8,
    )
        requires
            1 <= current_depth <= max_depth + 1,
            max_depth <= MAX_SCALE,
            weight.wf(),
            weight.scale == max_depth,
            0 < weight.mantissa < pow10(max_depth as nat),
            old(node).wf(
                (current_depth - 1) as nat,
                max_depth as nat,
                weight.mantissa as nat / pow10((max_depth + 1 - current_depth) as nat),
            ),
            !old(node).members(
                (current_depth - 1) as nat,
                max_depth as nat,
                weight.mantissa as nat,
            ).contains(individual_id),
            old(node).accumulated_value + weight.mantissa <= MAX_MANTISSA,
            old(node).content_count < u32::MAX,
        ensures
            final(node).wf(
                (current_depth - 1) as nat,
                max_depth as nat,
                weight.mantissa as nat / pow10((max_depth + 1 - current_depth) as nat),
            ),
            final(node).content_count == old(node).content_count + 1,
            final(node).accumulated_value == old(node).accumulated_value + weight.mantissa,
            forall|b: nat| #[trigger]
                final(node).members((current_depth - 1) as nat, max_depth as nat, b) == if same_path(
                    b,
                    weight.mantissa as nat,
                    (current_depth - 1) as nat,
                    max_depth as nat,
                ) {
                    old(node).members((current_depth - 1) as nat, max_depth as nat, b).insert(
                        individual_id,
                    )
                } else {
                    old(node).members((current_depth - 1) as nat, max_depth as nat, b)
                },
            old(node).grows_into(*final(node), (current_depth - 1) as nat, max_depth as nat),
        decreases max_depth + 1 - current_depth,
    {
        let ghost lvl = (current_depth - 1) as nat;
        let ghost prec = max_depth as nat;
        let ghost u = weight.mantissa as nat;
        let ghost pre = u / pow10((prec - lvl) as nat);
        let ghost old_node = *node;
        node.content_count = node.content_count + 1;
        node.accumulated_value = node.accumulated_value + weight.mantissa as u128;
        let mut content = NodeContent::Internal(Vec::new());
        std::mem::swap(&mut node.content, &mut content);
        if current_depth > max_depth {
            // First time on this path: the terminal node becomes a leaf.
            let mut ids = match content {
                NodeContent::Leaf(ids) => ids,
                NodeContent::Internal(_) => bitmap_new(),
            };
            let ghost old_ids = bitmap_ids(ids);
            proof {
                lemma_u32_set_finite(old_ids);
                assert(pre == u) by {
                    assert(pow10(0) == 1);
                    assert(u / 1 == u) by (nonlinear_arith);
                }
                assert(old_ids.len() == old_node.content_count);
                assert(u * old_ids.len() + u == u * (old_ids.len() + 1)) by (nonlinear_arith);
            }
            bitmap_insert(&mut ids, individual_id);
            node.content = NodeContent::Leaf(ids);
            proof {
                lemma_wf_leaf(old_node, lvl, prec, pre);
                assert(old_node.grows_into(*node, lvl, prec));
                assert forall|b: nat| #[trigger] node.members(lvl, prec, b) == if same_path(
                    b,
                    u,
                    lvl,
                    prec,
                ) {
                    old_node.members(lvl, prec, b).insert(individual_id)
                } else {
                    old_node.members(lvl, prec, b)
                } by {
                    assert(old_node.members(lvl, prec, b) == old_ids);
                }
            }
            return;
        }
        let digit = get_digit_at(weight, current_depth);
        match content {
            NodeContent::Internal(mut children) => {
                let ghost old_children = children@;
                proof {
                    lemma_wf_internal(old_node, lvl, prec, pre);
                }
                while children.len() <= digit
                    invariant
                        digit < 10,
                        old_children.len() <= children.len() <= 10,
                        children.len() <= old_children.len() || children.len() <= digit + 1,
                        forall|i: int|
                            0 <= i < old_children.len() ==> children@[i] == old_children[i],
                        forall|i: int|
                            old_children.len() <= i < children.len() ==> {
                                &&& (#[trigger] children@[i]).content is Internal
                                &&& children@[i].content->Internal_0@.len() == 0
                                &&& children@[i].accumulated_value == 0
                                &&& children@[i].content_count == 0
                            },
                        acc_sum(children@) == acc_sum(old_children),
                        count_sum(children@) == count_sum(old_children),
                    decreases digit + 1 - children.len(),
                {
                    let fresh = Node::new_internal();
                    proof {
                        lemma_sums_push_empty(children@, fresh);
                    }
                    children.push(fresh);
                }
                let ghost grown = children@;
                let ghost k = (prec - lvl - 1) as nat;
                proof {
                    lemma_prefix_step(u, k);
                    assert(k + 1 == prec - lvl);
                    let child = grown[digit as int];
                    if (digit as int) < old_children.len() {
                        assert(child.wf(lvl + 1, prec, (pre * 10 + digit) as nat));
                        assert(old_node.members(lvl, prec, u) == child.members(lvl + 1, prec, u));
                    } else {
                        lemma_empty_node(child, lvl + 1, prec, (pre * 10 + digit) as nat, u);
                    }
                    lemma_sums_bound(grown, digit as int);
                    assert((max_depth + 1 - (current_depth + 1)) as nat == k);
                }
                Self::add_recurse(
                    &mut children[digit],
                    individual_id,
                    weight,
                    current_depth + 1,
                    max_depth,
                );
                proof {
                    lemma_sums_update(grown, digit as int, children@[digit as int]);
                    assert(children@ == grown.update(digit as int, children@[digit as int]));
                }
                node.content = NodeContent::Internal(children);
                proof {
                    let new_children = children@;
                    let new_child = new_children[digit as int];
                    assert(new_child.wf(lvl + 1, prec, (pre * 10 + digit) as nat));
                    assert forall|i: int| 0 <= i < new_children.len() implies (#[trigger] new_children[i]).wf(
                        lvl + 1,
                        prec,
                        (pre * 10 + i) as nat,
                    ) by {
                        if i != digit as int {
                            if i < old_children.len() {
                                assert(new_children[i] == old_children[i]);
                                assert(old_children[i].wf(lvl + 1, prec, (pre * 10 + i) as nat));
                            } else {
                                lemma_empty_node(new_children[i], lvl + 1, prec, (pre * 10 + i) as nat, 0);
                            }
                        }
                    }
                    lemma_wf_internal_intro(*node, lvl, prec, pre);
                    assert forall|i: int| 0 <= i < old_children.len() implies (
                    #[trigger] old_children[i]).grows_into(new_children[i], lvl + 1, prec) by {
                        if i != digit as int {
                            assert(new_children[i] == old_children[i]);
                            lemma_shape_refl(old_children[i], lvl + 1, prec);
                        } else {
                            assert(grown[i] == old_children[i]);
                        }
                    }
                    lemma_grows_internal_intro(old_node, *node, lvl, prec);
                    assert forall|b: nat| #[trigger] node.members(lvl, prec, b) == if same_path(
                        b,
                        u,
                        lvl,
                        prec,
                    ) {
                        old_node.members(lvl, prec, b).insert(individual_id)
                    } else {
                        old_node.members(lvl, prec, b)
                    } by {
                        let d = digit_of(b, prec, lvl + 1);
                        lemma_members_internal(*node, lvl, prec, b);
                        lemma_members_internal(old_node, lvl, prec, b);
                        if d == digit as nat {
                            assert(node.members(lvl, prec, b) == new_child.members(lvl + 1, prec, b));
                        } else if d < new_children.len() {
                            if d < old_children.len() {
                                assert(new_children[d as int] == old_children[d as int]);
                            } else {
                                lemma_empty_node(new_children[d as int], lvl + 1, prec, 0, b);
                            }
                        }
                    }
                }
            },
            NodeContent::Leaf(ids) => {
                // a leaf above the leaf depth breaks the node invariant
                proof {
                    lemma_wf_leaf(old_node, lvl, prec, pre);
                }
                node.content = NodeContent::Leaf(ids);
            },
        }
    }

    /// Removes an individual, given the weight it was added with.
    ///
    /// The weight is binned as in `add`, and the individual is looked for in
    /// that bin only. Returns whether it was found and removed; when it was
    /// not, the index is unchanged.
    pub fn remove(&mut self, individual_id: u32, weight: Weight) -> (r: bool)
        requires
            old(self).wf(),
            weight.wf(),
        ensures
            final(self).wf(),
            final(self).precision == old(self).precision,
            r == (accepts(weight, old(self).precision as nat) && old(self).bin(
                binned_units(weight, old(self).precision as nat),
            ).contains(individual_id)),
            r ==> old(self).removes(
                *final(self),
                individual_id,
                binned_units(weight, old(self).precision as nat),
            ),
            r ==> old(self).root.same_shape(final(self).root, 0, old(self).precision as nat),
            !r ==> *final(self) == *old(self),
    {
        let units = match bin_units(weight, self.precision) {
            Some(u) => u,
            None => return false,
        };
        let ghost prec = self.precision as nat;
        let ghost old_index = *self;
        proof {
            lemma_pow10_monotonic(prec, MAX_SCALE as nat);
            lemma_pow10_max_scale();
            lemma_pow10_positive(prec);
            lemma_basic_div(units as int, pow10(prec) as int);
            assert(prec + 1 - 1 == prec);
        }
        let binned = Weight::from_i128_with_scale(units as i128, self.precision as u32);
        // look before touching anything: a miss leaves the index as it was
        if !Self::contains_recurse(&self.root, individual_id, binned, 1, self.precision) {
            return false;
        }
        let removed = Self::remove_recurse(&mut self.root, individual_id, binned, 1, self.precision);
        proof {
            if removed {
                assert forall|b: nat| b < pow10(prec) implies #[trigger] self.bin(b) == if b == units {
                    old_index.bin(b).remove(individual_id)
                } else {
                    old_index.bin(b)
                } by {
                    lemma_same_path_root(b, units as nat, prec);
                }
            }
            assert forall|id: u32, b1: nat, b2: nat|
                b1 < pow10(prec) && b2 < pow10(prec) && #[trigger] self.bin(b1).contains(id)
                    && #[trigger] self.bin(b2).contains(id) implies b1 == b2 by {
                assert(old_index.bin(b1).contains(id));
                assert(old_index.bin(b2).contains(id));
            }
        }
        removed
    }

    /// Whether `individual_id` is in the leaf below `node`, a node at depth
    /// `current_depth - 1`, along the digits of the binned `weight`.
    fn contains_recurse(
        node: &Node,
        individual_id: u32,
        weight: Weight,
        current_depth: u8,
        max_depth: u8,
    ) -> (r: bool)
        requires
            1 <= current_depth <= max_depth + 1,
            max_depth <= MAX_SCALE,
            weight.wf(),
            weight.scale == max_depth,
            0 < weight.mantissa < pow10(max_depth as nat),
            node.wf(
                (current_depth - 1) as nat,
                max_depth as nat,
                weight.mantissa as nat / pow10((max_depth + 1 - current_depth) as nat),
            ),
        ensures
            r == node.members(
                (current_depth - 1) as nat,
                max_depth as nat,
                weight.mantissa as nat,
            ).contains(individual_id),
        decreases max_depth + 1 - current_depth,
    {
        let ghost lvl = (current_depth - 1) as nat;
        let ghost prec = max_depth as nat;
        let ghost u = weight.mantissa as nat;
        let ghost pre = u / pow10((prec - lvl) as nat);
        if current_depth > max_depth {
            return match &node.content {
                NodeContent::Leaf(ids) => bitmap_contains(ids, individual_id),
                NodeContent::Internal(_) => false,
            };
        }
        let digit = get_digit_at(weight, current_depth);
        proof {
            let k = (prec - lvl - 1) as nat;
            lemma_wf_internal(*node, lvl, prec, pre);
            lemma_members_internal(*node, lvl, prec, u);
            lemma_prefix_step(u, k);
            assert(k + 1 == prec - lvl);
            assert((max_depth + 1 - (current_depth + 1)) as nat == k);
        }
        match &node.content {
            NodeContent::Internal(children) => {
                if digit < children.len() {
                    proof {
                        assert(children@[digit as int].wf(lvl + 1, prec, (pre * 10 + digit) as nat));
                    }
                    Self::contains_recurse(
                        &children[digit],
                        individual_id,
                        weight,
                        current_depth + 1,
                        max_depth,
                    )
                } else {
                    false
                }
            },
            NodeContent::Leaf(_) => false,
        }
    }

    /// Removes `individual_id` from the leaf below `node`, a node at depth
    /// `current_depth - 1`, along the digits of the binned `weight`; returns
    /// whether it was there.
    fn remove_recurse(
        node: &mut Node,
        individual_id: u32,
        weight: Weight,
        current_depth: u8,
        max_depth: u8,
    ) -> (r: bool)
        requires
            1 <= current_depth <= max_depth + 1,
            max_depth <= MAX_SCALE,
            weight.wf(),
            weight.scale == max_depth,
            0 < weight.mantissa < pow10(max_depth as nat),
            old(node).wf(
                (current_depth - 1) as nat,
                max_depth as nat,
                weight.mantissa as nat / pow10((max_depth + 1 - current_depth) as nat),
            ),
        ensures
            final(node).wf(
                (current_depth - 1) as nat,
                max_depth as nat,
                weight.mantissa as nat / pow10((max_depth + 1 - current_depth) as nat),
            ),
            r == old(node).members(
                (current_depth - 1) as nat,
                max_depth as nat,
                weight.mantissa as nat,
            ).contains(individual_id),
            r ==> final(node).content_count == old(node).content_count - 1,
            r ==> final(node).accumulated_value == old(node).accumulated_value - weight.mantissa,
            !r ==> final(node).content_count == old(node).content_count,
            !r ==> final(node).accumulated_value == old(node).accumulated_value,
            forall|b: nat| #[trigger]
                final(node).members((current_depth - 1) as nat, max_depth as nat, b) == if r
                    && same_path(
                    b,
                    weight.mantissa as nat,
                    (current_depth - 1) as nat,
                    max_depth as nat,
                ) {
                    old(node).members((current_depth - 1) as nat, max_depth as nat, b).remove(
                        individual_id,
                    )
                } else {
                    old(node).members((current_depth - 1) as nat, max_depth as nat, b)
                },
            old(node).same_shape(*final(node), (current_depth - 1) as nat, max_depth as nat),
        decreases max_depth + 1 - current_depth,
    {
        let ghost lvl = (current_depth - 1) as nat;
        let ghost prec = max_depth as nat;
        let ghost u = weight.mantissa as nat;
        let ghost pre = u / pow10((prec - lvl) as nat);
        let ghost old_node = *node;
        let mut content = NodeContent::Internal(Vec::new());
        std::mem::swap(&mut node.content, &mut content);
        if current_depth > max_depth {
            proof {
                lemma_wf_leaf(old_node, lvl, prec, pre);
                assert(pre == u) by {
                    assert(pow10(0) == 1);
                    assert(u / 1 == u) by (nonlinear_arith);
                }
            }
            match content {
                NodeContent::Leaf(mut ids) => {
                    let ghost old_ids = bitmap_ids(ids);
                    proof {
                        lemma_u32_set_finite(old_ids);
                    }
                    let removed = bitmap_remove(&mut ids, individual_id);
                    node.content = NodeContent::Leaf(ids);
                    if removed {
                        proof {
                            let k = old_ids.len();
                            assert(k >= 1) by {
                                assert(old_ids.contains(individual_id));
                            }
                            assert(u * k - u == u * (k - 1) && u * k >= u) by (nonlinear_arith)
                                requires
                                    k >= 1,
                            ;
                        }
                        node.content_count = node.content_count - 1;
                        node.accumulated_value = node.accumulated_value - weight.mantissa as u128;
                    }
                    proof {
                        assert(old_node.same_shape(*node, lvl, prec));
                        assert forall|b: nat| #[trigger] node.members(lvl, prec, b) == if removed
                            && same_path(b, u, lvl, prec) {
                            old_node.members(lvl, prec, b).remove(individual_id)
                        } else {
                            old_node.members(lvl, prec, b)
                        } by {
                            assert(old_node.members(lvl, prec, b) == old_ids);
                            if !removed {
                                assert(old_ids.remove(individual_id) =~= old_ids);
                            }
                        }
                    }
                    return removed;
                },
                NodeContent::Internal(children) => {
                    node.content = NodeContent::Internal(children);
                    proof {
                        assert(*node == old_node);
                        lemma_shape_refl(old_node, lvl, prec);
                    }
                    return false;
                },
            }
        }
        let digit = get_digit_at(weight, current_depth);
        match content {
            NodeContent::Internal(mut children) => {
                let ghost old_children = children@;
                let ghost k = (prec - lvl - 1) as nat;
                proof {
                    lemma_wf_internal(old_node, lvl, prec, pre);
                    lemma_prefix_step(u, k);
                    assert(k + 1 == prec - lvl);
                    assert((max_depth + 1 - (current_depth + 1)) as nat == k);
                }
                let mut removed = false;
                if digit < children.len() {
                    proof {
                        assert(old_children[digit as int].wf(lvl + 1, prec, (pre * 10 + digit) as nat));
                        lemma_sums_bound(old_children, digit as int);
                    }
                    removed = Self::remove_recurse(
                        &mut children[digit],
                        individual_id,
                        weight,
                        current_depth + 1,
                        max_depth,
                    );
                    proof {
                        lemma_sums_update(old_children, digit as int, children@[digit as int]);
                        assert(children@ == old_children.update(digit as int, children@[digit as int]));
                    }
                }
                node.content = NodeContent::Internal(children);
                if removed {
                    node.content_count = node.content_count - 1;
                    node.accumulated_value = node.accumulated_value - weight.mantissa as u128;
                }
                proof {
                    let new_children = children@;
                    assert forall|i: int| 0 <= i < new_children.len() implies (#[trigger] new_children[i]).wf(
                        lvl + 1,
                        prec,
                        (pre * 10 + i) as nat,
                    ) by {
                        if i != digit as int {
                            assert(new_children[i] == old_children[i]);
                            assert(old_children[i].wf(lvl + 1, prec, (pre * 10 + i) as nat));
                        }
                    }
                    lemma_wf_internal_intro(*node, lvl, prec, pre);
                    assert forall|i: int| 0 <= i < old_children.len() implies (
                    #[trigger] old_children[i]).same_shape(new_children[i], lvl + 1, prec) by {
                        if i != digit as int {
                            assert(new_children[i] == old_children[i]);
                            lemma_shape_refl(old_children[i], lvl + 1, prec);
                        }
                    }
                    lemma_same_shape_internal_intro(old_node, *node, lvl, prec);
                    lemma_members_internal(old_node, lvl, prec, u);
                    assert forall|b: nat| #[trigger] node.members(lvl, prec, b) == if removed
                        && same_path(b, u, lvl, prec) {
                        old_node.members(lvl, prec, b).remove(individual_id)
                    } else {
                        old_node.members(lvl, prec, b)
                    } by {
                        let d = digit_of(b, prec, lvl + 1);
                        lemma_members_internal(*node, lvl, prec, b);
                        lemma_members_internal(old_node, lvl, prec, b);
                        if d < new_children.len() && d != digit as nat {
                            assert(new_children[d as int] == old_children[d as int]);
                        }
                    }
                }
                removed
            },
            NodeContent::Leaf(ids) => {
                // a leaf above the leaf depth breaks the node invariant
                proof {
                    lemma_wf_leaf(old_node, lvl, prec, pre);
                }
                node.content = NodeContent::Leaf(ids);
                false
            },
        }
    }

    /// Descends from `node`, a node at depth `current_depth - 1` whose path
    /// spells `prefix`, to the leaf that the draw `target` falls in: at each
    /// node the children are scanned in digit order, each taking a share of
    /// the draws as wide as its weight. Returns the leaf's ids and its bin.
    fn locate<'a>(
        node: &'a Node,
        target: u128,
        prefix: u128,
        current_depth: u8,
        max_depth: u8,
    ) -> (r: Option<(&'a RoaringBitmap, u128)>)
        requires
            1 <= current_depth <= max_depth + 1,
            max_depth <= MAX_SCALE,
            prefix < pow10((current_depth - 1) as nat),
            node.wf((current_depth - 1) as nat, max_depth as nat, prefix as nat),
            target < node.accumulated_value,
        ensures
            r.is_some(),
            ({
                let lvl = (current_depth - 1) as nat;
                let prec = max_depth as nat;
                let span = pow10((prec - lvl) as nat);
                let base = prefix * span;
                let (ids, b) = r.unwrap();
                let below = node.mass_upto(lvl, prec, prefix as nat, (b - base) as nat);
                &&& base <= b < base + span
                &&& bitmap_ids(*ids) == node.members(lvl, prec, b as nat)
                &&& below <= target < below + b * bitmap_ids(*ids).len()
            }),
        decreases max_depth + 1 - current_depth,
    {
        let ghost lvl = (current_depth - 1) as nat;
        let ghost prec = max_depth as nat;
        let ghost pre = prefix as nat;
        if current_depth > max_depth {
            proof {
                lemma_wf_leaf(*node, lvl, prec, pre);
                assert(pow10(0) == 1);
                assert(prefix * 1 == prefix);
            }
            return match &node.content {
                NodeContent::Leaf(ids) => Some((ids, prefix)),
                NodeContent::Internal(_) => None,
            };
        }
        proof {
            lemma_wf_internal(*node, lvl, prec, pre);
        }
        match &node.content {
            NodeContent::Internal(children) => {
                let mut i: usize = 0;
                let mut t = target;
                while i < children.len() && children[i].accumulated_value <= t
                    invariant
                        i <= children.len(),
                        t + acc_sum(children@.take(i as int)) == target,
                        target < acc_sum(children@),
                    decreases children.len() - i,
                {
                    proof {
                        lemma_acc_sum_take_step(children@, i as int);
                    }
                    t = t - children[i].accumulated_value;
                    i = i + 1;
                }
                proof {
                    if i == children.len() {
                        assert(children@.take(i as int) =~= children@);
                    }
                    lemma_pow10_monotonic(lvl + 1, MAX_SCALE as nat);
                    lemma_pow10_max_scale();
                    assert(pow10(lvl + 1) == 10 * pow10(lvl));
                    assert(prefix * 10 + i < pow10(lvl + 1)) by (nonlinear_arith)
                        requires
                            prefix < pow10(lvl),
                            i < 10,
                            pow10(lvl + 1) == 10 * pow10(lvl),
                    ;
                }
                let r = Self::locate(
                    &children[i],
                    t,
                    prefix * 10 + i as u128,
                    current_depth + 1,
                    max_depth,
                );
                proof {
                    let k = (prec - lvl - 1) as nat;
                    let s = pow10(k);
                    let (ids, b) = r.unwrap();
                    let cpre = (pre * 10 + i) as nat;
                    let cbase = cpre * s;
                    let base = pre * pow10((prec - lvl) as nat);
                    lemma_pow10_positive(k);
                    assert(pow10((prec - lvl) as nat) == 10 * s);
                    assert((prec - (lvl + 1)) as nat == k);
                    let off = (b - cbase) as nat;
                    assert(b - base == i * s + off && base == pre * (10 * s) && b < base + 10 * s)
                        by (nonlinear_arith)
                        requires
                            cbase == (pre * 10 + i) * s,
                            base == pre * (10 * s),
                            cbase <= b < cbase + s,
                            off == b - cbase,
                            i < 10,
                    ;
                    lemma_split((b - base) as int, s as int, i as int, off as int);
                    assert(b == cpre * s + off);
                    lemma_split(b as int, s as int, cpre as int, off as int);
                    lemma_split(cpre as int, 10, pre as int, i as int);
                    assert(digit_of(b as nat, prec, lvl + 1) == i);
                    lemma_members_internal(*node, lvl, prec, b as nat);
                    lemma_mass_upto(*node, lvl, prec, pre, (b - base) as nat);
                }
                r
            },
            NodeContent::Leaf(_) => None,
        }
    }

    /// Selects one individual with given draws: `target`, from `0` up to the
    /// total weight, picks a bin as `draws_bin` says, and `pick` picks the
    /// `pick`-th smallest id in it (from 0). Returns the id and the bin's
    /// weight; `None` when `target` is not below the total weight or the bin
    /// has no `pick`-th id.
    pub fn select_at(&self, target: u128, pick: u32) -> (r: Option<(u32, Weight)>)
        requires
            self.wf(),
        ensures
            target >= self.mass() ==> r.is_none(),
            target < self.mass() ==> exists|b: nat| #[trigger]
                self.draws_bin(target as nat, b) && (r.is_some() <==> pick < self.bin(b).len())
                    && (r.is_some() ==> ({
                    let (id, w) = r.unwrap();
                    &&& w == Weight { mantissa: b as i128, scale: self.precision as u32 }
                    &&& self.bin(b).contains(id)
                    &&& rank_below(self.bin(b), id) == pick
                })),
    {
        if target >= self.root.accumulated_value {
            return None;
        }
        let (ids, b) = self.locate_root(target);
        match bitmap_select(ids, pick) {
            Some(id) => {
                proof {
                    lemma_pow10_monotonic(self.precision as nat, MAX_SCALE as nat);
                    lemma_pow10_max_scale();
                }
                Some((id, Weight::from_i128_with_scale(b as i128, self.precision as u32)))
            },
            None => None,
        }
    }

    /// The leaf that a draw below the total weight falls in, and its bin.
    fn locate_root(&self, target: u128) -> (r: (&RoaringBitmap, u128))
        requires
            self.wf(),
            target < self.mass(),
        ensures
            self.draws_bin(target as nat, r.1 as nat),
            bitmap_ids(*r.0) == self.bin(r.1 as nat),
    {
        proof {
            assert(pow10(0) == 1);
        }
        let r = Self::locate(&self.root, target, 0, 1, self.precision);
        proof {
            let (ids, b) = r.unwrap();
            let prec = self.precision as nat;
            assert(0 * pow10(prec) == 0);
            self.lemma_mass_below_is_mass_upto(b as nat);
        }
        r.unwrap()
    }

    /// `mass_below` is the root's `mass_upto`.
    proof fn lemma_mass_below_is_mass_upto(self, b: nat)
        ensures
            self.mass_below(b) == self.root.mass_upto(0, self.precision as nat, 0, b),
        decreases b,
    {
        if b > 0 {
            self.lemma_mass_below_is_mass_upto((b - 1) as nat);
            assert(0 * pow10(self.precision as nat) == 0);
        }
    }

    /// Performs a weighted random selection of one individual: each is drawn
    /// with a chance proportional to its binned weight, and within a bin all
    /// members are equally likely. Returns its id and binned weight, or
    /// `None` when the index is empty. The index is not changed.
    pub fn select(&self) -> (r: Option<(u32, Weight)>)
        requires
            self.wf(),
        ensures
            r.is_none() == (self.population() == 0),
            r.is_some() ==> ({
                let (id, w) = r.unwrap();
                &&& w.scale == self.precision
                &&& 0 < w.mantissa < pow10(self.precision as nat)
                &&& self.bin(w.mantissa as nat).contains(id)
            }),
    {
        if self.root.content_count == 0 {
            return None;
        }
        proof {
            lemma_mass_covers_count(self.root, 0, self.precision as nat, 0);
        }
        let target = random_below(self.root.accumulated_value);
        let (ids, b) = self.locate_root(target);
        let len = bitmap_len(ids);
        proof {
            lemma_u32_set_finite(bitmap_ids(*ids));
            assert(len > 0) by (nonlinear_arith)
                requires
                    target < self.mass_below(b as nat) + b * len,
                    self.mass_below(b as nat) <= target,
            ;
            assert(len <= 0x1_0000_0000) by {
                lemma_u32_set_size(bitmap_ids(*ids));
            }
        }
        let pick = random_below(len as u128) as u32;
        let r = self.select_at(target, pick);
        proof {
            let b2 = choose|b2: nat| #[trigger] self.draws_bin(target as nat, b2) && (r.is_some() <==> pick < self.bin(b2).len())
                && (r.is_some() ==> ({
                    let (id, w) = r.unwrap();
                    &&& w == Weight { mantissa: b2 as i128, scale: self.precision as u32 }
                    &&& self.bin(b2).contains(id)
                    &&& rank_below(self.bin(b2), id) == pick
                }));
            self.lemma_draws_bin_unique(target as nat, b as nat, b2);
            lemma_pow10_monotonic(self.precision as nat, MAX_SCALE as nat);
            lemma_pow10_max_scale();
            assert(b < pow10(self.precision as nat));
            assert(self.mass_below(b as nat) <= target < self.mass_below(b as nat) + b * len);
            assert(b > 0) by (nonlinear_arith)
                requires
                    target < self.mass_below(b as nat) + b * len,
                    self.mass_below(b as nat) <= target,
            ;
        }
        r
    }

    /// Selects one individual as `select` does, and removes it.
    pub fn select_and_remove(&mut self) -> (r: Option<(u32, Weight)>)
        requires
            old(self).wf(),
        ensures
            final(self).wf(),
            r.is_none() == (old(self).population() == 0),
            r.is_none() ==> *final(self) == *old(self),
            r.is_some() ==> ({
                let (id, w) = r.unwrap();
                &&& w.scale == old(self).precision
                &&& 0 < w.mantissa < pow10(old(self).precision as nat)
                &&& old(self).bin(w.mantissa as nat).contains(id)
                &&& old(self).removes(*final(self), id, w.mantissa as nat)
            }),
    {
        match self.select() {
            Some((individual_id, weight)) => {
                proof {
                    lemma_binned_at_own_scale(weight, self.precision as nat);
                    lemma_pow10_monotonic(self.precision as nat, MAX_SCALE as nat);
                    lemma_pow10_max_scale();
                }
                self.remove(individual_id, weight);
                Some((individual_id, weight))
            },
            None => None,
        }
    }

    /// One draw of the unique multi-draw, with a given `target`: the draw
    /// picks a bin as `draws_bin` says, and the smallest id of that bin that
    /// is not in `selected_ids` comes back with the bin's weight. `None` when
    /// `target` is not below the total weight, or when every id of the bin is
    /// already selected (the draw is then rejected).
    pub fn select_unique_at(&self, target: u128, selected_ids: &RoaringBitmap) -> (r: Option<
        (u32, Weight),
    >)
        requires
            self.wf(),
        ensures
            target >= self.mass() ==> r.is_none(),
            target < self.mass() ==> exists|b: nat| #[trigger]
                self.draws_bin(target as nat, b) && (r.is_some() <==> !self.bin(b).subset_of(
                    bitmap_ids(*selected_ids),
                )) && (r.is_some() ==> ({
                    let (id, w) = r.unwrap();
                    &&& w == Weight { mantissa: b as i128, scale: self.precision as u32 }
                    &&& self.bin(b).contains(id)
                    &&& !bitmap_ids(*selected_ids).contains(id)
                    &&& forall|y: u32|
                        self.bin(b).contains(y) && !bitmap_ids(*selected_ids).contains(y) ==> id
                            <= y
                })),
            r == self.unique_pick(target as nat, bitmap_ids(*selected_ids)),
    {
        if target >= self.root.accumulated_value {
            proof {
                if exists|b: nat| self.draws_bin(target as nat, b) {
                    let b = choose|b: nat| self.draws_bin(target as nat, b);
                    self.lemma_draws_below_mass(target as nat, b);
                }
            }
            return None;
        }
        let (ids, b) = self.locate_root(target);
        // the members of this bin not selected yet
        let available_ids = bitmap_difference(ids, selected_ids);
        let r = match bitmap_min(&available_ids) {
            Some(id) => {
                proof {
                    lemma_pow10_monotonic(self.precision as nat, MAX_SCALE as nat);
                    lemma_pow10_max_scale();
                }
                Some((id, Weight::from_i128_with_scale(b as i128, self.precision as u32)))
            },
            None => None,
        };
        proof {
            let bin = self.bin(b as nat);
            let sel = bitmap_ids(*selected_ids);
            let avail = bitmap_ids(available_ids);
            if r.is_none() {
                assert forall|y: u32| bin.contains(y) implies sel.contains(y) by {
                    if !sel.contains(y) {
                        assert(avail.contains(y));
                    }
                }
            } else {
                let id = r.unwrap().0;
                assert(avail.contains(id));
                assert(bin.contains(id) && !sel.contains(id));
                assert(!bin.subset_of(sel));
                assert forall|y: u32| bin.contains(y) && !sel.contains(y) implies id <= y by {
                    assert(avail.contains(y));
                }
            }
            assert(self.draws_bin(target as nat, b as nat));
            let b2 = choose|b2: nat| self.draws_bin(target as nat, b2);
            self.lemma_draws_bin_unique(target as nat, b as nat, b2);
            let rest = self.bin(b2).difference(sel);
            assert(rest =~= avail);
            if r.is_some() {
                let id = r.unwrap().0;
                let id2 = choose|id2: u32|
                    rest.contains(id2) && forall|y: u32| rest.contains(y) ==> id2 <= y;
                assert(rest.contains(id));
                assert(id2 <= id && id <= id2);
            } else {
                assert(!exists|id: u32| rest.contains(id));
            }
        }
        r
    }

    /// Selects `num_to_draw` distinct individuals, each draw weighted by the
    /// index as it stands: the index is not changed between draws, and a
    /// draw that reaches a bin whose ids are all selected already is
    /// rejected and made again, as `many_from` says.
    ///
    /// Returns `None` when `num_to_draw` exceeds the number of individuals.
    /// As a safety bound, it also gives up with `None` when a draw is
    /// rejected after `MAX_REJECTIONS` rejections; that cannot happen when
    /// every non-empty bin holds at least `num_to_draw` ids, and is only
    /// likely when a bin holding nearly all the weight has few ids.
    #[verifier::rlimit(50)]
    pub fn select_many(&self, num_to_draw: u32) -> (r: Option<Vec<(u32, Weight)>>)
        requires
            self.wf(),
        ensures
            num_to_draw > self.population() ==> r.is_none(),
            num_to_draw == 0 ==> r.is_some() && r.unwrap()@.len() == 0,
            num_to_draw <= self.population() ==> self.many_for_some_draws(num_to_draw as nat, r),
            num_to_draw <= self.population() && self.bins_hold_at_least(num_to_draw as nat)
                ==> r.is_some(),
            r.is_some() ==> r.unwrap()@.len() == num_to_draw && self.holds_all(r.unwrap()@)
                && distinct_ids(r.unwrap()@),
    {
        let ghost k = num_to_draw as nat;
        if num_to_draw > self.count() {
            return None;
        }
        if num_to_draw == 0 {
            proof {
                let none = Seq::<u128>::empty();
                assert(forall|i: int| 0 <= i < none.len() ==> #[trigger] none[i] < self.mass());
                assert(self.many_from(k, none, Seq::empty(), Set::empty(), MAX_REJECTIONS as nat)
                    == Some(Seq::<(u32, Weight)>::empty()));
            }
            return Some(Vec::new());
        }
        proof {
            lemma_mass_covers_count(self.root, 0, self.precision as nat, 0);
        }
        let mut selected: Vec<(u32, Weight)> = Vec::new();
        let mut selected_ids = bitmap_new();
        let mut rejections_left: u64 = MAX_REJECTIONS;
        let ghost mut used: Seq<u128> = Seq::empty();
        proof {
            assert forall|future: Seq<u128>| #[trigger]
                self.many_from(k, used + future, Seq::empty(), Set::empty(), MAX_REJECTIONS as nat)
                    == self.many_from(
                    k,
                    future,
                    selected@,
                    bitmap_ids(selected_ids),
                    rejections_left as nat,
                ) by {
                assert(used + future =~= future);
            }
        }
        while selected.len() < num_to_draw as usize
            invariant
                self.wf(),
                k == num_to_draw,
                0 < num_to_draw <= self.population(),
                self.mass() > 0,
                selected.len() <= num_to_draw,
                self.holds_all(selected@),
                distinct_ids(selected@),
                forall|i: int|
                    0 <= i < selected.len() ==> bitmap_ids(selected_ids).contains(
                        (#[trigger] selected@[i]).0,
                    ),
                bitmap_ids(selected_ids).len() == selected.len(),
                forall|i: int| 0 <= i < used.len() ==> #[trigger] used[i] < self.mass(),
                forall|future: Seq<u128>| #[trigger]
                    self.many_from(k, used + future, Seq::empty(), Set::empty(), MAX_REJECTIONS as nat)
                        == self.many_from(
                        k,
                        future,
                        selected@,
                        bitmap_ids(selected_ids),
                        rejections_left as nat,
                    ),
            decreases num_to_draw - selected.len(), rejections_left,
        {
            let target = random_below(self.root.accumulated_value);
            let ghost old_used = used;
            let ghost old_picks = selected@;
            let ghost old_sel = bitmap_ids(selected_ids);
            let ghost old_left = rejections_left as nat;
            let pick = self.select_unique_at(target, &selected_ids);
            proof {
                used = used.push(target);
                assert forall|i: int| 0 <= i < used.len() implies #[trigger] used[i] < self.mass() by {
                    if i < old_used.len() {
                        assert(used[i] == old_used[i]);
                    }
                }
                lemma_u32_set_finite(old_sel);
            }
            match pick {
                Some((id, weight)) => {
                    bitmap_insert(&mut selected_ids, id);
                    selected.push((id, weight));
                    proof {
                        let b = choose|b: nat| #[trigger]
                            self.draws_bin(target as nat, b) && (pick.is_some()
                                <==> !self.bin(b).subset_of(old_sel)) && (pick.is_some() ==> ({
                                let (id, w) = pick.unwrap();
                                &&& w == Weight { mantissa: b as i128, scale: self.precision as u32 }
                                &&& self.bin(b).contains(id)
                                &&& !old_sel.contains(id)
                                &&& forall|y: u32| self.bin(b).contains(y) && !old_sel.contains(y) ==> id <= y
                            }));
                        let len = self.bin(b).len();
                        lemma_u32_set_finite(self.bin(b));
                        assert(len > 0) by {
                            assert(self.bin(b).contains(id));
                        }
                        assert(b > 0) by (nonlinear_arith)
                            requires
                                target < self.mass_below(b) + b * len,
                                self.mass_below(b) <= target,
                        ;
                        lemma_pow10_monotonic(self.precision as nat, MAX_SCALE as nat);
                        lemma_pow10_max_scale();
                        assert(selected@ == old_picks.push((id, weight)));
                        assert forall|i: int|
                            0 <= i < selected.len() implies bitmap_ids(selected_ids).contains(
                                (#[trigger] selected@[i]).0,
                            ) by {
                            if i < old_picks.len() {
                                assert(selected@[i] == old_picks[i]);
                            }
                        }
                        assert forall|i: int, j: int|
                            0 <= i < selected.len() && 0 <= j < selected.len() && i != j implies (
                            #[trigger] selected@[i]).0 != (#[trigger] selected@[j]).0 by {
                            if i < old_picks.len() && j < old_picks.len() {
                                assert(selected@[i] == old_picks[i]);
                                assert(selected@[j] == old_picks[j]);
                            } else if i < old_picks.len() {
                                assert(selected@[i] == old_picks[i]);
                                assert(old_sel.contains(old_picks[i].0));
                            } else {
                                assert(selected@[j] == old_picks[j]);
                                assert(old_sel.contains(old_picks[j].0));
                            }
                        }
                        assert forall|i: int| 0 <= i < selected.len() implies {
                            &&& (#[trigger] selected@[i]).1.scale == self.precision
                            &&& 0 < selected@[i].1.mantissa < pow10(self.precision as nat)
                            &&& self.bin(selected@[i].1.mantissa as nat).contains(selected@[i].0)
                        } by {
                            if i < old_picks.len() {
                                assert(selected@[i] == old_picks[i]);
                            }
                        }
                        self.lemma_many_from_step(
                            k,
                            old_used,
                            target,
                            old_picks,
                            old_sel,
                            old_left,
                            selected@,
                            bitmap_ids(selected_ids),
                            rejections_left as nat,
                        );
                    }
                },
                None => {
                    proof {
                        let b = choose|b: nat| #[trigger]
                            self.draws_bin(target as nat, b) && (pick.is_some()
                                <==> !self.bin(b).subset_of(old_sel)) && (pick.is_some() ==> ({
                                let (id, w) = pick.unwrap();
                                &&& w == Weight { mantissa: b as i128, scale: self.precision as u32 }
                                &&& self.bin(b).contains(id)
                                &&& !old_sel.contains(id)
                                &&& forall|y: u32| self.bin(b).contains(y) && !old_sel.contains(y) ==> id <= y
                            }));
                        let len = self.bin(b).len();
                        assert(len > 0) by (nonlinear_arith)
                            requires
                                target < self.mass_below(b) + b * len,
                                self.mass_below(b) <= target,
                        ;
                        lemma_len_subset(self.bin(b), old_sel);
                        // a rejected draw needs a bin with fewer ids than asked for
                        assert(!self.bins_hold_at_least(k));
                    }
                    if rejections_left == 0 {
                        proof {
                            let f1 = seq![target];
                            assert(old_used + f1 =~= used);
                            assert(self.many_from(k, old_used + f1, Seq::empty(), Set::empty(), MAX_REJECTIONS as nat)
                                == self.many_from(k, f1, old_picks, old_sel, old_left));
                            assert(f1[0] == target);
                            assert(self.many_from(k, f1, old_picks, old_sel, old_left).is_none());
                        }
                        return None;
                    }
                    rejections_left = rejections_left - 1;
                    proof {
                        self.lemma_many_from_step(
                            k,
                            old_used,
                            target,
                            old_picks,
                            old_sel,
                            old_left,
                            selected@,
                            bitmap_ids(selected_ids),
                            rejections_left as nat,
                        );
                    }
                },
            }
        }
        proof {
            let f0 = Seq::<u128>::empty();
            assert(used + f0 =~= used);
            assert(self.many_from(k, used + f0, Seq::empty(), Set::empty(), MAX_REJECTIONS as nat)
                == self.many_from(k, f0, selected@, bitmap_ids(selected_ids), rejections_left as nat));
        }
        Some(selected)
    }

    /// Selects `num_to_draw` distinct individuals as `select_many` does, then
    /// removes them all; when `select_many` gives `None`, so does this, and
    /// the index is unchanged.
    pub fn select_many_and_remove(&mut self, num_to_draw: u32) -> (r: Option<Vec<(u32, Weight)>>)
        requires
            old(self).wf(),
        ensures
            final(self).wf(),
            num_to_draw > old(self).population() ==> r.is_none(),
            num_to_draw == 0 ==> r.is_some() && r.unwrap()@.len() == 0,
            num_to_draw <= old(self).population() ==> old(self).many_for_some_draws(
                num_to_draw as nat,
                r,
            ),
            num_to_draw <= old(self).population() && old(self).bins_hold_at_least(
                num_to_draw as nat,
            ) ==> r.is_some(),
            r.is_none() ==> *final(self) == *old(self),
            r.is_some() ==> ({
                let picks = r.unwrap()@;
                &&& picks.len() == num_to_draw
                &&& old(self).holds_all(picks)
                &&& distinct_ids(picks)
                &&& final(self).precision == old(self).precision
                &&& final(self).population() == old(self).population() - num_to_draw
                &&& final(self).mass() == old(self).mass() - weight_sum(picks)
                &&& forall|c: nat, id: u32|
                    c < pow10(old(self).precision as nat) ==> (#[trigger] final(self).bin(
                        c,
                    ).contains(id) <==> old(self).bin(c).contains(id) && !picked(picks, id))
            }),
    {
        let selected = match self.select_many(num_to_draw) {
            Some(selected) => selected,
            None => return None,
        };
        let ghost start = *self;
        let ghost picks = selected@;
        let ghost prec = self.precision as nat;
        let mut i: usize = 0;
        while i < selected.len()
            invariant
                self.wf(),
                self.precision == start.precision,
                prec == start.precision,
                start.wf(),
                picks == selected@,
                i <= picks.len() <= u32::MAX,
                start.holds_all(picks),
                distinct_ids(picks),
                self.population() == start.population() - i,
                self.mass() == start.mass() - weight_sum(picks.take(i as int)),
                forall|c: nat, id: u32|
                    c < pow10(prec) ==> (#[trigger] self.bin(c).contains(id) <==> start.bin(
                        c,
                    ).contains(id) && !picked(picks.take(i as int), id)),
            decreases picks.len() - i,
        {
            let (individual_id, weight) = selected[i];
            let ghost b = weight.mantissa as nat;
            let ghost before = *self;
            proof {
                assert(picks[i as int] == (individual_id, weight));
                assert(start.bin(b).contains(individual_id));
                assert(!picked(picks.take(i as int), individual_id)) by {
                    if picked(picks.take(i as int), individual_id) {
                        let j = choose|j: int|
                            0 <= j < i && (#[trigger] picks.take(i as int)[j]).0 == individual_id;
                        assert(picks.take(i as int)[j] == picks[j]);
                    }
                }
                assert(self.bin(b).contains(individual_id));
                lemma_binned_at_own_scale(weight, prec);
                lemma_pow10_monotonic(prec, MAX_SCALE as nat);
                lemma_pow10_max_scale();
            }
            self.remove(individual_id, weight);
            proof {
                let next = picks.take(i + 1);
                assert(next.drop_last() =~= picks.take(i as int));
                assert(next.last() == picks[i as int]);
                assert forall|id: u32| #[trigger] picked(next, id) <==> picked(
                    picks.take(i as int),
                    id,
                ) || id == individual_id by {
                    if picked(picks.take(i as int), id) {
                        let j = choose|j: int|
                            0 <= j < i && (#[trigger] picks.take(i as int)[j]).0 == id;
                        assert(next[j] == picks.take(i as int)[j]);
                    }
                    if id == individual_id {
                        assert(next[i as int].0 == id);
                    }
                    if picked(next, id) {
                        let j = choose|j: int| 0 <= j < i + 1 && (#[trigger] next[j]).0 == id;
                        if j < i {
                            assert(picks.take(i as int)[j] == next[j]);
                        }
                    }
                }
                assert forall|c: nat, id: u32| c < pow10(prec) implies (#[trigger] self.bin(
                    c,
                ).contains(id) <==> start.bin(c).contains(id) && !picked(next, id)) by {
                    if id == individual_id && c != b && start.bin(c).contains(id) {
                        assert(start.bin(b).contains(id));
                    }
                }
            }
            i = i + 1;
        }
        proof {
            assert(picks.take(picks.len() as int) =~= picks);
        }
        Some(selected)
    }

    /// The number of ids in the bins lighter than `b`: `Σ_{c < b} |bin(c)|`.
    pub open spec fn count_below(self, b: nat) -> nat
        decreases b,
    {
        if b == 0 {
            0
        } else {
            let c = (b - 1) as nat;
            self.count_below(c) + self.bin(c).len()
        }
    }

    proof fn lemma_count_below_is_count_upto(self, b: nat)
        ensures
            self.count_below(b) == self.root.count_upto(0, self.precision as nat, 0, b),
        decreases b,
    {
        if b > 0 {
            self.lemma_count_below_is_count_upto((b - 1) as nat);
            assert(0 * pow10(self.precision as nat) == 0);
        }
    }

    /// The aggregate invariant at the root: the total weight is
    /// `Σ_{b < 10^precision} b · |bin(b)|`, and the count is
    /// `Σ_{b < 10^precision} |bin(b)|`.
    pub proof fn lemma_totals(self)
        requires
            self.wf(),
        ensures
            self.mass() == self.mass_below(pow10(self.precision as nat)),
            self.population() == self.count_below(pow10(self.precision as nat)),
    {
        let prec = self.precision as nat;
        self.root.lemma_aggregates(0, prec, 0);
        self.lemma_mass_below_is_mass_upto(pow10(prec));
        self.lemma_count_below_is_count_upto(pow10(prec));
    }

    /// The aggregate invariant at every node: the node at the end of any
    /// path of child indices holds as accumulated value the sum of the
    /// weights of the ids below it, and as count their number.
    pub proof fn lemma_every_node_aggregates(self, path: Seq<int>)
        requires
            self.wf(),
            self.root.descendant(path) is Some,
        ensures
            ({
                let n = self.root.descendant(path)->0;
                let prec = self.precision as nat;
                let lvl = path.len();
                let pre = extend(0, path);
                &&& lvl <= prec
                &&& n.accumulated_value == n.mass_upto(lvl, prec, pre, pow10((prec - lvl) as nat))
                &&& n.content_count == n.count_upto(lvl, prec, pre, pow10((prec - lvl) as nat))
            }),
    {
        let prec = self.precision as nat;
        lemma_descendant_wf(self.root, 0, prec, 0, path);
        self.root.descendant(path)->0.lemma_aggregates(path.len(), prec, extend(0, path));
    }

    /// Adding an individual and then removing it with its binned weight
    /// gives back the count, the total weight and every bin.
    pub proof fn lemma_add_remove_round_trip(
        before: Self,
        added: Self,
        after: Self,
        id: u32,
        weight: Weight,
    )
        requires
            before.wf(),
            weight.wf(),
            !before.contains(id),
            accepts(weight, before.precision as nat),
            before.adds(added, id, binned_units(weight, before.precision as nat)),
            added.removes(
                after,
                id,
                binned_units(
                    Weight {
                        mantissa: binned_units(weight, before.precision as nat) as i128,
                        scale: before.precision as u32,
                    },
                    before.precision as nat,
                ),
            ),
        ensures
            after.population() == before.population(),
            after.mass() == before.mass(),
            forall|b: nat|
                b < pow10(before.precision as nat) ==> #[trigger] after.bin(b) == before.bin(b),
    {
        let prec = before.precision as nat;
        let u = binned_units(weight, prec);
        lemma_pow10_monotonic(prec, MAX_SCALE as nat);
        lemma_pow10_max_scale();
        lemma_binned_at_own_scale(Weight { mantissa: u as i128, scale: before.precision as u32 }, prec);
        assert forall|b: nat| b < pow10(prec) implies #[trigger] after.bin(b) == before.bin(b) by {
            if b == u {
                assert(!before.bin(b).contains(id));
                assert(before.bin(b).insert(id).remove(id) =~= before.bin(b));
            }
        }
    }

    proof fn lemma_mass_below_monotonic(self, a: nat, b: nat)
        requires
            a <= b,
        ensures
            self.mass_below(a) <= self.mass_below(b),
        decreases b,
    {
        if a < b {
            self.lemma_mass_below_monotonic(a, (b - 1) as nat);
        }
    }

    /// One draw moves the unique multi-draw on: if the draws `used` lead
    /// from the start to the state (`picks`, `sel`, `left`), then `used`
    /// followed by `target` leads to the state after that draw.
    proof fn lemma_many_from_step(
        self,
        k: nat,
        used: Seq<u128>,
        target: u128,
        picks: Seq<(u32, Weight)>,
        sel: Set<u32>,
        left: nat,
        next_picks: Seq<(u32, Weight)>,
        next_sel: Set<u32>,
        next_left: nat,
    )
        requires
            picks.len() < k,
            forall|future: Seq<u128>| #[trigger]
                self.many_from(k, used + future, Seq::empty(), Set::empty(), MAX_REJECTIONS as nat)
                    == self.many_from(k, future, picks, sel, left),
            match self.unique_pick(target as nat, sel) {
                Some(p) => next_picks == picks.push(p) && next_sel == sel.insert(p.0) && next_left
                    == left,
                None => left > 0 && next_picks == picks && next_sel == sel && next_left == left - 1,
            },
        ensures
            forall|future: Seq<u128>| #[trigger]
                self.many_from(
                    k,
                    used.push(target) + future,
                    Seq::empty(),
                    Set::empty(),
                    MAX_REJECTIONS as nat,
                ) == self.many_from(k, future, next_picks, next_sel, next_left),
    {
        assert forall|future: Seq<u128>| #[trigger]
            self.many_from(
                k,
                used.push(target) + future,
                Seq::empty(),
                Set::empty(),
                MAX_REJECTIONS as nat,
            ) == self.many_from(k, future, next_picks, next_sel, next_left) by {
            let f2 = seq![target] + future;
            assert(used.push(target) + future =~= used + f2);
            assert(f2.drop_first() =~= future);
            assert(f2[0] == target);
            assert(self.many_from(k, used + f2, Seq::empty(), Set::empty(), MAX_REJECTIONS as nat)
                == self.many_from(k, f2, picks, sel, left));
        }
    }

    /// A draw that falls in a bin is below the total weight.
    pub proof fn lemma_draws_below_mass(self, target: nat, b: nat)
        requires
            self.wf(),
            self.draws_bin(target, b),
        ensures
            target < self.mass(),
    {
        self.lemma_totals();
        self.lemma_mass_below_monotonic(b + 1, pow10(self.precision as nat));
    }

    /// A draw falls in one bin at most.
    pub proof fn lemma_draws_bin_unique(self, target: nat, b1: nat, b2: nat)
        requires
            self.draws_bin(target, b1),
            self.draws_bin(target, b2),
        ensures
            b1 == b2,
    {
        if b1 < b2 {
            self.lemma_mass_below_monotonic(b1 + 1, b2);
        } else if b2 < b1 {
            self.lemma_mass_below_monotonic(b2 + 1, b1);
        }
    }

    /// Returns the number of individuals in the index.
    pub fn count(&self) -> (r: u32)
        ensures
            r == self.population(),
    {
        self.root.content_count
    }

    /// Returns the sum of the binned weights in the index, at the index's precision.
    pub fn total_weight(&self) -> (r: Weight)
        requires
            self.wf(),
        ensures
            r.wf(),
            r.mantissa == self.mass(),
            r.scale == self.precision,
    {
        Weight::from_i128_with_scale(self.root.accumulated_value as i128, self.precision as u32)
    }
}

impl Default for DigitBinIndex {
    fn default() -> (index: Self)
        ensures
            index.wf(),
            index.precision == DEFAULT_PRECISION,
            index.population() == 0,
            index.mass() == 0,
    {
        Self::new()
    }
}

} // verus!
