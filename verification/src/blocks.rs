//! The constraints grouped by name into blocks, and the order in which the
//! blocks are satisfied: a block is ready once every block it waits for has
//! been satisfied.
use vstd::prelude::*;
use crate::constraint_state::ConstraintState;
use crate::linked::{name_set_items, name_set_len, name_set_remove};
use linked_hash_set::LinkedHashSet;
use std::collections::hash_map::RandomState;

verus! {

/// The constraints of one name that are not satisfied yet, with the names
/// of the constraints they still wait for.
pub struct UnsatisfiedBlock {
    pub name: String,
    pub dependency_names: LinkedHashSet<String, RandomState>,
    pub constraints: Vec<ConstraintState>,
}

/// A block by value: its name and the names it still waits for.
pub type BlockView = (Seq<char>, Seq<Seq<char>>);

pub open spec fn block_view(b: UnsatisfiedBlock) -> BlockView {
    (b.name@, name_set_items(b.dependency_names))
}

pub open spec fn blocks_view(bs: Seq<UnsatisfiedBlock>) -> Seq<BlockView> {
    bs.map_values(|b: UnsatisfiedBlock| block_view(b))
}

/// `s` without the occurrences of `x`, the others in their order.
pub open spec fn without<A>(s: Seq<A>, x: A) -> Seq<A>
    decreases s.len(),
{
    if s.len() == 0 {
        s
    } else {
        let r = without(s.drop_last(), x);
        if s.last() == x {
            r
        } else {
            r.push(s.last())
        }
    }
}

pub proof fn lemma_without<A>(s: Seq<A>, x: A)
    ensures
        forall|y: A| #[trigger] without(s, x).contains(y) <==> (s.contains(y) && y != x),
        without(s, x).len() <= s.len(),
    decreases s.len(),
{
    if s.len() > 0 {
        let p = s.drop_last();
        lemma_without(p, x);
        let r = without(p, x);
        assert forall|y: A| #[trigger] without(s, x).contains(y) <==> (s.contains(y) && y != x) by {
            if s.contains(y) {
                let i = choose|i: int| 0 <= i < s.len() && s[i] == y;
                if i < s.len() - 1 {
                    assert(p[i] == y);
                }
            }
            if p.contains(y) {
                let i = choose|i: int| 0 <= i < p.len() && p[i] == y;
                assert(s[i] == y);
            }
            if s.last() != x {
                assert(r.push(s.last())[r.len() as int] == s.last());
                if r.push(s.last()).contains(y) {
                    let i = choose|i: int| 0 <= i < r.len() + 1 && r.push(s.last())[i] == y;
                    if i < r.len() {
                        assert(r[i] == y);
                    }
                }
                if r.contains(y) {
                    let i = choose|i: int| 0 <= i < r.len() && r[i] == y;
                    assert(r.push(s.last())[i] == y);
                }
            }
        }
    }
}

/// The position of the first block at or after `i` that waits for nothing.
pub open spec fn first_ready_from(bs: Seq<BlockView>, i: int) -> Option<int>
    decreases bs.len() - i,
{
    if i < 0 || i >= bs.len() {
        None
    } else if bs[i].1.len() == 0 {
        Some(i)
    } else {
        first_ready_from(bs, i + 1)
    }
}

/// The blocks once the block at `i` is satisfied: it goes, and no other
/// block waits for its name any more.
pub open spec fn release(bs: Seq<BlockView>, i: int) -> Seq<BlockView> {
    bs.remove(i).map_values(|b: BlockView| (b.0, without(b.1, bs[i].0)))
}

/// The names of the blocks in the order in which they are satisfied, within
/// `fuel` steps, and the blocks left waiting.
pub open spec fn schedule(bs: Seq<BlockView>, fuel: nat) -> (Seq<Seq<char>>, Seq<BlockView>)
    decreases fuel,
{
    if fuel == 0 {
        (Seq::empty(), bs)
    } else {
        match first_ready_from(bs, 0) {
            None => (Seq::empty(), bs),
            Some(i) => {
                let r = schedule(release(bs, i), (fuel - 1) as nat);
                (seq![bs[i].0] + r.0, r.1)
            },
        }
    }
}

/// No two blocks share a name.
pub open spec fn names_unique(bs: Seq<BlockView>) -> bool {
    forall|i: int, j: int| 0 <= i < bs.len() && 0 <= j < bs.len() && i != j ==> bs[i].0 != bs[j].0
}

pub proof fn lemma_first_ready(bs: Seq<BlockView>, i: int)
    requires
        0 <= i <= bs.len(),
    ensures
        match first_ready_from(bs, i) {
            Some(p) => i <= p < bs.len() && bs[p].1.len() == 0 && forall|q: int| i <= q < p ==> (#[trigger] bs[q]).1.len() != 0,
            None => forall|q: int| i <= q < bs.len() ==> (#[trigger] bs[q]).1.len() != 0,
        },
    decreases bs.len() - i,
{
    if i < bs.len() {
        lemma_first_ready(bs, i + 1);
    }
}


/// Finds the first block that waits for nothing, takes it out, and releases
/// the others from waiting for its name (see `release`). `None`, with
/// nothing changed, when every block still waits.
pub fn find_satisfiable_constraint_block(blocks: &mut Vec<UnsatisfiedBlock>) -> (r: Option<
    (Vec<ConstraintState>, String),
>)
    ensures
        match first_ready_from(blocks_view(old(blocks)@), 0) {
            None => r is None && final(blocks)@ == old(blocks)@,
            Some(i) => r matches Some(p) && p.0 == old(blocks)@[i].constraints && p.1@ == old(blocks)@[i].name@
                && blocks_view(final(blocks)@) == release(blocks_view(old(blocks)@), i)
                && final(blocks)@.len() == old(blocks)@.len() - 1
                && forall|k: int| 0 <= k < final(blocks)@.len() ==> (#[trigger] final(blocks)@[k]).constraints == old(blocks)@.remove(i)[k].constraints,
        },
{
    let ghost bv = blocks_view(blocks@);
    let mut i: usize = 0;
    while i < blocks.len()
        invariant
            i <= blocks@.len(),
            bv == blocks_view(blocks@),
            first_ready_from(bv, 0) == first_ready_from(bv, i as int),
        ensures
            i <= blocks@.len(),
            first_ready_from(bv, 0) == first_ready_from(bv, i as int),
            i < blocks@.len() ==> bv[i as int].1.len() == 0,
        decreases blocks@.len() - i,
    {
        proof {
            assert(bv[i as int] == block_view(blocks@[i as int]));
        }
        if name_set_len(&blocks[i].dependency_names) == 0 {
            break;
        }
        i = i + 1;
    }
    if i == blocks.len() {
        return None;
    }
    let ghost b0 = blocks@;
    let ready = blocks.remove(i);
    let ghost b1 = blocks@;
    let mut j: usize = 0;
    while j < blocks.len()
        invariant
            blocks@.len() == b1.len(),
            j <= b1.len(),
            b1 == b0.remove(i as int),
            forall|p: int| j <= p < b1.len() ==> #[trigger] blocks@[p] == b1[p],
            forall|p: int| 0 <= p < j ==> (#[trigger] blocks@[p]).constraints == b1[p].constraints,
            forall|p: int| 0 <= p < j ==> #[trigger] block_view(blocks@[p]) == (b1[p].name@, without(name_set_items(b1[p].dependency_names), ready.name@)),
        decreases b1.len() - j,
    {
        let mut b = blocks.remove(j);
        proof {
            assert(b == b1[j as int]);
        }
        name_set_remove(&mut b.dependency_names, &ready.name);
        let ghost before = blocks@;
        blocks.insert(j, b);
        proof {
            assert forall|p: int| j + 1 <= p < b1.len() implies #[trigger] blocks@[p] == b1[p] by {
                assert(blocks@[p] == before[p - 1]);
            }
            assert forall|p: int| 0 <= p < j + 1 implies (#[trigger] blocks@[p]).constraints == b1[p].constraints by {
                if p < j {
                    assert(blocks@[p] == before[p]);
                }
            }
            assert forall|p: int| 0 <= p < j + 1 implies #[trigger] block_view(blocks@[p]) == (b1[p].name@, without(name_set_items(b1[p].dependency_names), ready.name@)) by {
                if p < j {
                    assert(blocks@[p] == before[p]);
                }
            }
        }
        j = j + 1;
    }
    proof {
        assert(ready == b0[i as int]);
        assert(blocks_view(blocks@) =~= release(bv, i as int)) by {
            assert forall|p: int| 0 <= p < blocks@.len() implies blocks_view(blocks@)[p] == release(bv, i as int)[p] by {
                assert(blocks_view(blocks@)[p] == block_view(blocks@[p]));
                let q = if p < i { p } else { p + 1 };
                assert(b1[p] == b0[q]);
                assert(bv[q] == block_view(b0[q]));
            }
        }
    }
    let name = ready.name;
    let constraints = ready.constraints;
    Some((constraints, name))
}

/// In a schedule, each block that gets satisfied comes after every block
/// whose name it waited for.
pub proof fn lemma_schedule_after_dependencies(bs: Seq<BlockView>, fuel: nat)
    requires
        names_unique(bs),
    ensures
        forall|p: int, j: int, n: Seq<char>|
            0 <= p < schedule(bs, fuel).0.len() && 0 <= j < bs.len() && #[trigger] schedule(bs, fuel).0[p] == bs[j].0
                && #[trigger] bs[j].1.contains(n) ==> exists|q: int| 0 <= q < p && schedule(bs, fuel).0[q] == n,
        forall|p: int| 0 <= p < schedule(bs, fuel).0.len() ==> exists|j: int| 0 <= j < bs.len() && #[trigger] schedule(bs, fuel).0[p] == bs[j].0,
        schedule(bs, fuel).0.len() + schedule(bs, fuel).1.len() == bs.len(),
        forall|p: int, q: int| 0 <= p < schedule(bs, fuel).0.len() && 0 <= q < schedule(bs, fuel).0.len() && p != q
            ==> schedule(bs, fuel).0[p] != schedule(bs, fuel).0[q],
    decreases fuel,
{
    if fuel > 0 {
        lemma_first_ready(bs, 0);
        match first_ready_from(bs, 0) {
            None => {},
            Some(i) => {
                let rb = release(bs, i);
                assert(names_unique(rb)) by {
                    assert forall|a: int, b: int| 0 <= a < rb.len() && 0 <= b < rb.len() && a != b implies rb[a].0 != rb[b].0 by {
                        let aa = if a < i { a } else { a + 1 };
                        let bb = if b < i { b } else { b + 1 };
                        assert(rb[a].0 == bs[aa].0 && rb[b].0 == bs[bb].0);
                    }
                }
                lemma_schedule_after_dependencies(rb, (fuel - 1) as nat);
                let r = schedule(rb, (fuel - 1) as nat);
                let order = schedule(bs, fuel).0;
                assert(order == seq![bs[i].0] + r.0);
                assert forall|p: int, j: int, n: Seq<char>|
                    0 <= p < order.len() && 0 <= j < bs.len() && #[trigger] order[p] == bs[j].0
                        && #[trigger] bs[j].1.contains(n) implies exists|q: int| 0 <= q < p && order[q] == n by {
                    if p == 0 {
                        assert(bs[j].0 == bs[i].0);
                        assert(j == i);
                    } else {
                        assert(order[p] == r.0[p - 1]);
                        let w = choose|w: int| 0 <= w < rb.len() && #[trigger] r.0[p - 1] == rb[w].0;
                        let jj = if w < i { w } else { w + 1 };
                        assert(rb[w].0 == bs[jj].0);
                        assert(jj == j);
                        lemma_without(bs[j].1, bs[i].0);
                        if n == bs[i].0 {
                            assert(order[0] == n);
                        } else {
                            assert(rb[w].1 == without(bs[j].1, bs[i].0));
                            assert(rb[w].1.contains(n));
                            let q = choose|q: int| 0 <= q < p - 1 && r.0[q] == n;
                            assert(order[q + 1] == n);
                        }
                    }
                }
                assert forall|p: int, q: int| 0 <= p < order.len() && 0 <= q < order.len() && p != q implies order[p] != order[q] by {
                    if p == 0 || q == 0 {
                        let o = if p == 0 { q } else { p };
                        assert(order[o] == r.0[o - 1]);
                        let w = choose|w: int| 0 <= w < rb.len() && #[trigger] r.0[o - 1] == rb[w].0;
                        let jj = if w < i { w } else { w + 1 };
                        assert(rb[w].0 == bs[jj].0);
                        assert(jj != i);
                    } else {
                        assert(order[p] == r.0[p - 1] && order[q] == r.0[q - 1]);
                    }
                }
                assert forall|p: int| 0 <= p < order.len() implies exists|j: int| 0 <= j < bs.len() && #[trigger] order[p] == bs[j].0 by {
                    if p == 0 {
                        assert(order[0] == bs[i].0);
                    } else {
                        assert(order[p] == r.0[p - 1]);
                        let w = choose|w: int| 0 <= w < rb.len() && #[trigger] r.0[p - 1] == rb[w].0;
                        let jj = if w < i { w } else { w + 1 };
                        assert(rb[w].0 == bs[jj].0);
                    }
                }
            },
        }
    }
}

} // verus!
