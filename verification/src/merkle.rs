//! A binary Merkle tree over 32-byte leaf digests: level-by-level
//! construction (an odd node is paired with itself), inclusion-proof
//! generation, and pure inclusion-proof verification.

use vstd::prelude::*;
use crate::hash::{sha256, sha256_of, bytes_equal, copy_bytes, concat_bytes, byte_views,
    digest_views};

verus! {

/// The digest of an internal node from its two children, left then right.
pub open spec fn hash_pair(l: Seq<u8>, r: Seq<u8>) -> Seq<u8> {
    sha256_of(l + r)
}

/// One level reduced to the next: children `2i` and `2i+1` hash to parent
/// `i`; a last child without a sibling is duplicated.
pub open spec fn next_level(level: Seq<Seq<u8>>) -> Seq<Seq<u8>> {
    Seq::new(
        ((level.len() + 1) / 2) as nat,
        |i: int|
            if 2 * i + 1 < level.len() {
                hash_pair(level[2 * i], level[2 * i + 1])
            } else {
                hash_pair(level[2 * i], level[2 * i])
            },
    )
}

/// The root digest of a leaf level: repeated level reduction down to one node.
pub open spec fn root_of(level: Seq<Seq<u8>>) -> Seq<u8>
    decreases level.len(),
{
    if level.len() == 0 {
        Seq::empty()
    } else if level.len() == 1 {
        level[0]
    } else {
        root_of(next_level(level))
    }
}

/// The sibling position of `idx` inside a level of `level_len` nodes; a
/// rightmost node without a sibling is its own sibling.
pub open spec fn sib_index(level_len: int, idx: int) -> int {
    if idx % 2 == 0 {
        if idx + 1 < level_len {
            idx + 1
        } else {
            idx
        }
    } else {
        idx - 1
    }
}

/// The sibling digests collected from level `k` up to the root for a node
/// that sits at position `idx` of level `k`.
pub open spec fn sibs_from(levels: Seq<Seq<Seq<u8>>>, k: int, idx: int) -> Seq<Seq<u8>>
    decreases levels.len() - k,
{
    if k < 0 || k >= levels.len() - 1 {
        Seq::empty()
    } else {
        seq![levels[k][sib_index(levels[k].len() as int, idx)]] + sibs_from(levels, k + 1, idx / 2)
    }
}

/// Recomputes the root from a leaf digest, its position, and the sibling
/// digests, halving the position at each level to decide left/right order.
pub open spec fn path_root(h: Seq<u8>, idx: int, sibs: Seq<Seq<u8>>) -> Seq<u8>
    decreases sibs.len(),
{
    if sibs.len() == 0 {
        h
    } else {
        let parent = if idx % 2 == 0 {
            hash_pair(h, sibs[0])
        } else {
            hash_pair(sibs[0], h)
        };
        path_root(parent, idx / 2, sibs.subrange(1, sibs.len() as int))
    }
}

/// The level sizes of a well-built tree: nonempty leaves, each level half
/// the one below (rounded up), a single node on top, every digest 32 bytes.
pub open spec fn levels_shape(levels: Seq<Seq<Seq<u8>>>) -> bool {
    &&& levels.len() >= 1
    &&& levels[0].len() >= 1
    &&& levels.last().len() == 1
    &&& forall|k: int|
        0 <= k < levels.len() - 1 ==> (#[trigger] levels[k]).len() >= 2 && levels[k + 1].len() == (
        levels[k].len() + 1) / 2
    &&& forall|k: int, i: int|
        0 <= k < levels.len() && 0 <= i < levels[k].len() ==> (#[trigger] levels[k][i]).len() == 32
}

/// Every level above the leaves is the hash reduction of the level below.
pub open spec fn levels_hashed(levels: Seq<Seq<Seq<u8>>>) -> bool {
    forall|k: int| 0 <= k < levels.len() - 1 ==> levels[k + 1] == next_level(#[trigger] levels[k])
}

/// In a well-built tree the top node is the root of the leaf level.
pub proof fn lemma_root_from_levels(levels: Seq<Seq<Seq<u8>>>, k: int)
    requires
        levels_shape(levels),
        levels_hashed(levels),
        0 <= k < levels.len(),
    ensures
        root_of(levels[k]) == levels.last()[0],
    decreases levels.len() - k,
{
    if k == levels.len() - 1 {
    } else {
        lemma_root_from_levels(levels, k + 1);
    }
}

/// The Merkle round-trip law: for a node at position `idx` of level `k` of a
/// well-built tree, recomputing the path over the collected siblings
/// reconstructs the root; with `k == 0` this says every generated inclusion
/// proof verifies against the tree's own root.
pub proof fn lemma_path_reconstructs(levels: Seq<Seq<Seq<u8>>>, k: int, idx: int)
    requires
        levels_shape(levels),
        levels_hashed(levels),
        0 <= k < levels.len(),
        0 <= idx < levels[k].len(),
    ensures
        path_root(levels[k][idx], idx, sibs_from(levels, k, idx)) == levels.last()[0],
    decreases levels.len() - k,
{
    if k == levels.len() - 1 {
        assert(levels[k].len() == 1);
    } else {
        let level = levels[k];
        let sibs = sibs_from(levels, k, idx);
        let s = level[sib_index(level.len() as int, idx)];
        let parent = if idx % 2 == 0 {
            hash_pair(level[idx], s)
        } else {
            hash_pair(s, level[idx])
        };
        assert(levels[k + 1] == next_level(level));
        assert(next_level(level)[idx / 2] == parent) by {
            if idx % 2 == 0 {
                assert(2 * (idx / 2) == idx);
            } else {
                assert(2 * (idx / 2) == idx - 1);
                assert(2 * (idx / 2) + 1 == idx);
            }
        }
        assert(sibs[0] == s);
        assert(sibs.subrange(1, sibs.len() as int) =~= sibs_from(levels, k + 1, idx / 2));
        assert(0 <= idx / 2 < levels[k + 1].len());
        lemma_path_reconstructs(levels, k + 1, idx / 2);
    }
}

/// Level-by-level facts about assembled storage give the well-built-tree
/// predicates over its digest views.
proof fn lemma_levels_assembled(ls: Seq<Vec<Vec<u8>>>, leaves: Seq<Seq<u8>>)
    requires
        ls.len() >= 1,
        leaves.len() >= 1,
        byte_views(ls[0]@) == leaves,
        ls[ls.len() - 1]@.len() == 1,
        forall|k: int|
            0 <= k < ls.len() - 1 ==> (#[trigger] ls[k])@.len() >= 2 && byte_views(ls[k + 1]@)
                == next_level(byte_views(ls[k]@)) && ls[k + 1]@.len() == (ls[k]@.len() + 1) / 2,
        forall|k: int, i: int|
            0 <= k < ls.len() && 0 <= i < ls[k]@.len() ==> ((#[trigger] ls[k]@[i])@).len() == 32,
    ensures
        levels_shape(digest_views(ls)),
        levels_hashed(digest_views(ls)),
        digest_views(ls)[0] == leaves,
        digest_views(ls).last()[0] == root_of(leaves),
{
    let lv = digest_views(ls);
    assert(lv.len() == ls.len());
    assert(lv.last().len() == 1);
    assert forall|k: int| 0 <= k < lv.len() - 1 implies (#[trigger] lv[k]).len() >= 2 && lv[k
        + 1].len() == (lv[k].len() + 1) / 2 && lv[k + 1] == next_level(lv[k]) by {
        assert(lv[k] == byte_views(ls[k]@));
        assert(lv[k + 1] == byte_views(ls[k + 1]@));
    }
    assert forall|k: int, i: int| 0 <= k < lv.len() && 0 <= i < lv[k].len() implies (
    #[trigger] lv[k][i]).len() == 32 by {
        assert(lv[k] == byte_views(ls[k]@));
        assert(lv[k][i] == ls[k]@[i]@);
    }
    assert(lv[0] == leaves);
    assert(levels_shape(lv));
    assert(levels_hashed(lv));
    lemma_root_from_levels(lv, 0);
}

/// Builds every level of the tree, leaves first, by repeated reduction.
fn build_levels(leaf_digests: Vec<Vec<u8>>) -> (r: Vec<Vec<Vec<u8>>>)
    requires
        leaf_digests@.len() >= 1,
        forall|i: int| 0 <= i < leaf_digests@.len() ==> (#[trigger] leaf_digests@[i])@.len() == 32,
    ensures
        r@.len() >= 1,
        byte_views(r@[0]@) == byte_views(leaf_digests@),
        r@[r@.len() - 1]@.len() == 1,
        forall|k: int|
            0 <= k < r@.len() - 1 ==> (#[trigger] r@[k])@.len() >= 2 && byte_views(r@[k + 1]@)
                == next_level(byte_views(r@[k]@)) && r@[k + 1]@.len() == (r@[k]@.len() + 1) / 2,
        forall|k: int, i: int|
            0 <= k < r@.len() && 0 <= i < r@[k]@.len() ==> ((#[trigger] r@[k]@[i])@).len() == 32,
{
    let ghost leaves = byte_views(leaf_digests@);
    let mut levels: Vec<Vec<Vec<u8>>> = Vec::new();
    let mut top_len = leaf_digests.len();
    levels.push(leaf_digests);
    while top_len > 1            invariant
                levels@.len() >= 1,
                byte_views(levels@[0]@) == leaves,
                leaves.len() >= 1,
                1 <= top_len,
                top_len == levels@[levels@.len() - 1]@.len(),
                forall|k: int|
                    0 <= k < levels@.len() - 1 ==> (#[trigger] levels@[k])@.len() >= 2
                        && byte_views(levels@[k + 1]@) == next_level(byte_views(levels@[k]@))
                        && levels@[k + 1]@.len() == (levels@[k]@.len() + 1) / 2,
                forall|k: int, i: int|
                    0 <= k < levels@.len() && 0 <= i < levels@[k]@.len() ==> ((#[trigger] levels@[k]@[i])@).len()
                        == 32,
            decreases top_len,
        {
            let last = levels.len() - 1;
            let next = build_next_level(&levels[last]);
            top_len = next.len();
            let ghost old_levels = levels@;
            levels.push(next);
            proof {
                assert forall|k: int| 0 <= k < levels@.len() - 1 implies (#[trigger] levels@[k])@.len()
                    >= 2 && byte_views(levels@[k + 1]@) == next_level(byte_views(levels@[k]@))
                    && levels@[k + 1]@.len() == (levels@[k]@.len() + 1) / 2 by {
                    if k < old_levels.len() - 1 {
                        assert(levels@[k] == old_levels[k]);
                        assert(levels@[k + 1] == old_levels[k + 1]);
                    } else {
                        assert(levels@[k] == old_levels[old_levels.len() - 1]);
                        assert(levels@[k + 1] == next);
                    }
                }
            }
        }
    levels
}

/// A binary Merkle tree; `levels[0]` holds the leaf digests and each later
/// level the pairwise hashes of the one before, up to the single root.
pub struct MerkleTree {
    levels: Vec<Vec<Vec<u8>>>,
}

/// An inclusion proof for one leaf: its position, its digest, and the
/// sibling digests from the leaf level up to just below the root.
pub struct MerkleProof {
    pub leaf_index: usize,
    pub leaf_value: Vec<u8>,
    pub sibling_hashes: Vec<Vec<u8>>,
}

/// Reduces one level to the next, hashing children pairwise and duplicating
/// a last child without a sibling.
fn build_next_level(cur: &Vec<Vec<u8>>) -> (r: Vec<Vec<u8>>)
    requires
        cur@.len() >= 1,
        forall|i: int| 0 <= i < cur@.len() ==> (#[trigger] cur@[i])@.len() == 32,
    ensures
        byte_views(r@) == next_level(byte_views(cur@)),
        r@.len() == (cur@.len() + 1) / 2,
        forall|i: int| 0 <= i < r@.len() ==> (#[trigger] r@[i])@.len() == 32,
{
    let ghost target = next_level(byte_views(cur@));
    let mut out: Vec<Vec<u8>> = Vec::new();
    let n = cur.len();
    let half = n / 2 + n % 2;
    proof {
        assert(half == (n + 1) / 2);
    }
    let mut i: usize = 0;
    while i < half
        invariant
            i <= half,
            half == (cur@.len() + 1) / 2,
            n == cur@.len(),
            forall|j: int| 0 <= j < cur@.len() ==> (#[trigger] cur@[j])@.len() == 32,
            target == next_level(byte_views(cur@)),
            byte_views(out@) =~= target.take(i as int),
            out@.len() == i,
            forall|j: int| 0 <= j < out@.len() ==> (#[trigger] out@[j])@.len() == 32,
        decreases half - i,
    {
        let combined = if 2 * i + 1 < n {
            concat_bytes(&cur[2 * i], &cur[2 * i + 1])
        } else {
            concat_bytes(&cur[2 * i], &cur[2 * i])
        };
        let h = sha256(&combined);
        proof {
            assert(byte_views(cur@)[2 * i as int] == cur@[2 * i as int]@);
            if 2 * i + 1 < n {
                assert(byte_views(cur@)[2 * i as int + 1] == cur@[2 * i as int + 1]@);
            }
            assert(h@ == target[i as int]);
        }
        out.push(h);
        i = i + 1;
        proof {
            assert(byte_views(out@) =~= target.take(i as int));
        }
    }
    proof {
        assert(target.take(half as int) =~= target);
        assert(byte_views(out@) =~= target);
    }
    out
}

impl MerkleTree {
    /// The tree's levels, leaves first.
    pub closed spec fn spec_levels(self) -> Seq<Seq<Seq<u8>>> {
        digest_views(self.levels@)
    }

    /// The committed leaf digests.
    pub open spec fn leaves(self) -> Seq<Seq<u8>> {
        self.spec_levels()[0]
    }

    /// The root digest.
    pub open spec fn root_seq(self) -> Seq<u8> {
        self.spec_levels().last()[0]
    }

    /// The level sizes are those of a well-built tree.
    pub open spec fn shape_wf(self) -> bool {
        levels_shape(self.spec_levels())
    }

    /// The tree is well built: right shape and every level hashed from the
    /// one below, so the top node is the root of the leaves.
    pub open spec fn wf(self) -> bool {
        self.shape_wf() && levels_hashed(self.spec_levels())
    }

    /// Builds the tree over the given leaf digests by repeated level
    /// reduction.
    pub fn new(leaf_digests: Vec<Vec<u8>>) -> (r: Self)
        requires
            leaf_digests@.len() >= 1,
            forall|i: int| 0 <= i < leaf_digests@.len() ==> (#[trigger] leaf_digests@[i])@.len()
                == 32,
        ensures
            r.wf(),
            r.leaves() == byte_views(leaf_digests@),
            r.root_seq() == root_of(byte_views(leaf_digests@)),
    {
        let ghost leaves = byte_views(leaf_digests@);
        let levels = build_levels(leaf_digests);
        let r = Self { levels };
        proof {
            lemma_levels_assembled(r.levels@, leaves);
        }
        r
    }


    /// The number of committed leaves.
    pub fn leaf_count(&self) -> (r: usize)
        requires
            self.shape_wf(),
        ensures
            r == self.leaves().len(),
    {
        proof {
            assert(self.leaves() == byte_views(self.levels@[0]@));
        }
        self.levels[0].len()
    }

    /// A copy of the root digest at the top of the tree.
    pub fn get_root(&self) -> (r: Vec<u8>)
        requires
            self.shape_wf(),
        ensures
            r@ == self.root_seq(),
            self.wf() ==> r@ == root_of(self.leaves()),
    {
        proof {
            if self.wf() {
                lemma_root_from_levels(self.spec_levels(), 0);
            }
            assert(self.spec_levels().last() == byte_views(
                self.levels@[self.levels@.len() - 1]@,
            ));
        }
        let last = self.levels.len() - 1;
        copy_bytes(&self.levels[last][0])
    }

    /// Walks leaf to root collecting the sibling digest at every level; the
    /// returned proof reconstructs the root of a well-built tree.
    pub fn prove(&self, index: usize) -> (r: MerkleProof)
        requires
            self.shape_wf(),
            index < self.leaves().len(),
        ensures
            r.leaf_index == index,
            r.leaf_value@ == self.leaves()[index as int],
            byte_views(r.sibling_hashes@) == sibs_from(self.spec_levels(), 0, index as int),
            self.wf() ==> path_root(r.leaf_value@, index as int, byte_views(r.sibling_hashes@))
                == self.root_seq(),
    {
        let ghost lv = self.spec_levels();
        let mut sibs: Vec<Vec<u8>> = Vec::new();
        let mut cur: usize = index;
        let mut k: usize = 0;
        let depth = self.levels.len() - 1;
        proof {
            assert(lv[0] == byte_views(self.levels@[0]@));
        }
        while k < depth
            invariant
                k <= depth,
                depth == lv.len() - 1,
                lv == self.spec_levels(),
                levels_shape(lv),
                cur < lv[k as int].len(),
                byte_views(sibs@) + sibs_from(lv, k as int, cur as int) =~= sibs_from(
                    lv,
                    0,
                    index as int,
                ),
            decreases depth - k,
        {
            proof {
                assert(lv[k as int] == byte_views(self.levels@[k as int]@));
            }
            let level = &self.levels[k];
            let s = if cur % 2 == 0 {
                if cur + 1 < level.len() {
                    copy_bytes(&level[cur + 1])
                } else {
                    copy_bytes(&level[cur])
                }
            } else {
                copy_bytes(&level[cur - 1])
            };
            proof {
                assert(s@ == lv[k as int][sib_index(lv[k as int].len() as int, cur as int)]);
            }
            let ghost old_sibs = byte_views(sibs@);
            sibs.push(s);
            proof {
                assert(byte_views(sibs@) =~= old_sibs.push(s@));
                assert(sibs_from(lv, k as int, cur as int) =~= seq![s@] + sibs_from(
                    lv,
                    k as int + 1,
                    cur as int / 2,
                ));
                assert(byte_views(sibs@) + sibs_from(lv, k as int + 1, cur as int / 2) =~= old_sibs
                    + sibs_from(lv, k as int, cur as int));
            }
            cur = cur / 2;
            k = k + 1;
        }
        proof {
            assert(sibs_from(lv, depth as int, cur as int) =~= Seq::<Seq<u8>>::empty());
            assert(byte_views(sibs@) =~= sibs_from(lv, 0, index as int));
            assert(lv[0] == byte_views(self.levels@[0]@));
            if self.wf() {
                lemma_path_reconstructs(lv, 0, index as int);
            }
        }
        let leaf = copy_bytes(&self.levels[0][index]);
        MerkleProof { leaf_index: index, leaf_value: leaf, sibling_hashes: sibs }
    }

    /// The root of the given leaf digests, without keeping the tree.
    pub fn build_tree(leaf_digests: Vec<Vec<u8>>) -> (r: Vec<u8>)
        requires
            leaf_digests@.len() >= 1,
            forall|i: int| 0 <= i < leaf_digests@.len() ==> (#[trigger] leaf_digests@[i])@.len()
                == 32,
        ensures
            r@ == root_of(byte_views(leaf_digests@)),
    {
        let tree = MerkleTree::new(leaf_digests);
        tree.get_root()
    }
}

impl MerkleProof {
    /// Recomputes the path from the leaf digest over the sibling digests,
    /// halving the position at each level, and compares with `root`: a pure
    /// decision with no failure path besides `false`.
    pub fn verify(&self, root: &Vec<u8>) -> (r: bool)
        ensures
            r == (path_root(
                self.leaf_value@,
                self.leaf_index as int,
                byte_views(self.sibling_hashes@),
            ) == root@),
    {
        let ghost total = byte_views(self.sibling_hashes@);
        let mut current = copy_bytes(&self.leaf_value);
        let mut idx: usize = self.leaf_index;
        let n = self.sibling_hashes.len();
        let mut i: usize = 0;
        proof {
            assert(total.subrange(0, n as int) =~= total);
        }
        while i < n
            invariant
                i <= n,
                n == total.len(),
                total == byte_views(self.sibling_hashes@),
                path_root(self.leaf_value@, self.leaf_index as int, total) == path_root(
                    current@,
                    idx as int,
                    total.subrange(i as int, n as int),
                ),
            decreases n - i,
        {
            proof {
                assert(total[i as int] == self.sibling_hashes@[i as int]@);
            }
            let combined = if idx % 2 == 0 {
                concat_bytes(&current, &self.sibling_hashes[i])
            } else {
                concat_bytes(&self.sibling_hashes[i], &current)
            };
            let next = sha256(&combined);
            proof {
                let rest = total.subrange(i as int, n as int);
                assert(rest[0] == total[i as int]);
                assert(rest.subrange(1, rest.len() as int) =~= total.subrange(i + 1, n as int));
            }
            current = next;
            idx = idx / 2;
            i = i + 1;
        }
        proof {
            assert(total.subrange(n as int, n as int) =~= Seq::<Seq<u8>>::empty());
        }
        bytes_equal(&current, root)
    }
}

} // verus!
