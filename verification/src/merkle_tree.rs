//! A Merkle tree over string data, with inclusion proofs.
//!
//! Leaves are the SHA-256 digests of the data's UTF-8 bytes; each parent is
//! the digest of its two children concatenated, and an odd last node is paired
//! with itself.

use vstd::prelude::*;
use crate::text::{bytes_hex, push_hex_byte};

verus! {

/// What SHA-256 computes of a byte string (as `sha2` implements it).
pub uninterp spec fn sha256(data: Seq<u8>) -> Seq<u8>;

/// Which side of the running hash a proof item's sibling stands on.
#[derive(Clone, Copy, Debug, PartialEq, Eq, Structural)]
pub enum Direction {
    Left,
    Right,
}

#[derive(Debug)]
pub struct ProofItem {
    pub hash: Vec<u8>,
    pub direction: Direction,
}

#[derive(Debug)]
pub struct MerkleProof {
    pub items: Vec<ProofItem>,
}

pub struct MerkleTree {
    levels: Vec<Vec<Vec<u8>>>,
    /// The data the tree was built over; the position of the last equal item
    /// is the leaf that a proof starts from.
    leaves: Vec<String>,
}

/// The digest of two hashes joined left then right.
pub open spec fn pair_hash(left: Seq<u8>, right: Seq<u8>) -> Seq<u8> {
    sha256(left + right)
}

/// The hash of the leaf for one data item.
pub open spec fn leaf_hash(item: Seq<char>) -> Seq<u8> {
    sha256(vstd::utf8::encode_utf8(item))
}

/// The level above `level`: node `i` hashes nodes `2i` and `2i + 1`, the last
/// node of an odd level being paired with itself.
pub open spec fn next_level(level: Seq<Seq<u8>>) -> Seq<Seq<u8>> {
    Seq::new(
        ((level.len() + 1) / 2) as nat,
        |i: int|
            pair_hash(
                level[2 * i],
                if 2 * i + 1 < level.len() {
                    level[2 * i + 1]
                } else {
                    level[2 * i]
                },
            ),
    )
}

/// All levels from `level` up to the first one with at most one hash.
pub open spec fn levels_from(level: Seq<Seq<u8>>) -> Seq<Seq<Seq<u8>>>
    decreases level.len(),
{
    if level.len() <= 1 {
        seq![level]
    } else {
        seq![level] + levels_from(next_level(level))
    }
}

/// The levels of the tree over `data`, leaves first.
pub open spec fn tree_levels(data: Seq<Seq<char>>) -> Seq<Seq<Seq<u8>>> {
    levels_from(data.map_values(|d: Seq<char>| leaf_hash(d)))
}

/// The position of the last item of `leaves` equal to `item`, if any.
pub open spec fn last_index_of(leaves: Seq<Seq<char>>, item: Seq<char>) -> Option<int>
    decreases leaves.len(),
{
    if leaves.len() == 0 {
        None
    } else if leaves.last() == item {
        Some(leaves.len() - 1)
    } else {
        last_index_of(leaves.drop_last(), item)
    }
}

/// The proof item for node `idx` of `level`: its sibling and on which side it stands.
pub open spec fn proof_item(level: Seq<Seq<u8>>, idx: int) -> (Seq<u8>, Direction) {
    if idx % 2 == 0 {
        (if idx + 1 < level.len() { level[idx + 1] } else { level[idx] }, Direction::Right)
    } else {
        (level[idx - 1], Direction::Left)
    }
}

/// The proof items from level `j` upward for node `idx` of that level.
pub open spec fn proof_from(levels: Seq<Seq<Seq<u8>>>, j: int, idx: int) -> Seq<(Seq<u8>, Direction)>
    decreases levels.len() - j,
{
    if j < 0 || j >= levels.len() || levels[j].len() == 1 {
        Seq::empty()
    } else {
        seq![proof_item(levels[j], idx)] + proof_from(levels, j + 1, idx / 2)
    }
}

/// One step of checking a proof: combine the running hash with the sibling.
pub open spec fn proof_step(current: Seq<u8>, item: (Seq<u8>, Direction)) -> Seq<u8> {
    match item.1 {
        Direction::Left => pair_hash(item.0, current),
        Direction::Right => pair_hash(current, item.0),
    }
}

/// The hash that a proof leads to from `start`.
pub open spec fn fold_proof(start: Seq<u8>, items: Seq<(Seq<u8>, Direction)>) -> Seq<u8>
    decreases items.len(),
{
    if items.len() == 0 {
        start
    } else {
        fold_proof(proof_step(start, items[0]), items.drop_first())
    }
}

/// The levels are a chain: each one above a level of two or more hashes is
/// that level's parent level, and the last has at most one hash.
pub open spec fn is_chain(levels: Seq<Seq<Seq<u8>>>) -> bool {
    &&& levels.len() >= 1
    &&& forall|j: int|
        0 <= j < levels.len() - 1 ==> #[trigger] levels[j].len() > 1 && levels[j + 1]
            == next_level(levels[j])
    &&& levels.last().len() <= 1
}

impl ProofItem {
    pub open spec fn view(&self) -> (Seq<u8>, Direction) {
        (self.hash@, self.direction)
    }
}

impl MerkleProof {
    pub open spec fn view(&self) -> Seq<(Seq<u8>, Direction)> {
        self.items@.map_values(|it: ProofItem| it.view())
    }
}

proof fn lemma_levels_from_chain(level: Seq<Seq<u8>>)
    ensures
        is_chain(levels_from(level)),
        levels_from(level)[0] == level,
    decreases level.len(),
{
    if level.len() > 1 {
        let next = next_level(level);
        lemma_levels_from_chain(next);
        let rest = levels_from(next);
        let all = levels_from(level);
        assert(all == seq![level] + rest);
        assert forall|j: int| 0 <= j < all.len() - 1 implies #[trigger] all[j].len() > 1 && all[j
            + 1] == next_level(all[j]) by {
            if j > 0 {
                assert(all[j] == rest[j - 1]);
                assert(all[j + 1] == rest[j]);
            }
        }
    }
}

proof fn lemma_fold_proof_reaches_root(levels: Seq<Seq<Seq<u8>>>, j: int, idx: int)
    requires
        is_chain(levels),
        0 <= j < levels.len(),
        0 <= idx < levels[j].len(),
    ensures
        fold_proof(levels[j][idx], proof_from(levels, j, idx)) == levels.last()[0],
    decreases levels.len() - j,
{
    if levels[j].len() == 1 {
        if j < levels.len() - 1 {
            assert(levels[j].len() > 1);
        }
        assert(j == levels.len() - 1);
    } else {
        if j == levels.len() - 1 {
            assert(levels.last().len() <= 1);
        }
        let level = levels[j];
        assert(levels[j].len() > 1 && levels[j + 1] == next_level(levels[j]));
        let items = proof_from(levels, j, idx);
        assert(items[0] == proof_item(level, idx));
        assert(items.drop_first() =~= proof_from(levels, j + 1, idx / 2));
        let parent = next_level(level)[idx / 2];
        assert(proof_step(level[idx], proof_item(level, idx)) == parent) by {
            if idx % 2 == 0 {
                assert(2 * (idx / 2) == idx);
            } else {
                assert(2 * (idx / 2) == idx - 1);
                assert(2 * (idx / 2) + 1 == idx);
            }
        }
        lemma_fold_proof_reaches_root(levels, j + 1, idx / 2);
    }
}

/// A proof built for an item of the tree leads from that item's leaf hash to
/// the root: `verify_proof(d, &t.generate_proof(d).unwrap(), t.root())` holds
/// for every `d` that the tree was built over.
pub proof fn lemma_generated_proof_verifies(data: Seq<Seq<char>>, item: Seq<char>)
    requires
        last_index_of(data, item) is Some,
    ensures
        fold_proof(
            leaf_hash(item),
            proof_from(tree_levels(data), 0, last_index_of(data, item)->0),
        ) == tree_levels(data).last()[0],
{
    let leaves = data.map_values(|d: Seq<char>| leaf_hash(d));
    lemma_levels_from_chain(leaves);
    let idx = last_index_of(data, item)->0;
    lemma_last_index_of(data, item);
    assert(leaves[idx] == leaf_hash(item));
    lemma_fold_proof_reaches_root(tree_levels(data), 0, idx);
}

proof fn lemma_last_index_of(leaves: Seq<Seq<char>>, item: Seq<char>)
    ensures
        last_index_of(leaves, item) matches Some(i) ==> 0 <= i < leaves.len() && leaves[i] == item
            && forall|k: int| i < k < leaves.len() ==> leaves[k] != item,
        last_index_of(leaves, item) is None ==> forall|k: int|
            0 <= k < leaves.len() ==> leaves[k] != item,
    decreases leaves.len(),
{
    if leaves.len() > 0 {
        lemma_last_index_of(leaves.drop_last(), item);
        if leaves.last() != item {
            assert forall|k: int| 0 <= k < leaves.len() - 1 implies leaves[k] == leaves.drop_last()[k] by {}
        }
    }
}

/// SHA-256 digest of a byte string (`sha2::Sha256::digest`): the result is
/// the digest that `sha256` names, 32 bytes long.
#[verifier::external_body]
fn sha256_digest(data: &[u8]) -> (r: Vec<u8>)
    ensures
        r@ == sha256(data@),
        r@.len() == 32,
{
    <sha2::Sha256 as sha2::Digest>::digest(data).to_vec()
}

fn copy_level(level: &Vec<Vec<u8>>) -> (r: Vec<Vec<u8>>)
    ensures
        r@.map_values(|h: Vec<u8>| h@) == level@.map_values(|h: Vec<u8>| h@),
{
    let mut r: Vec<Vec<u8>> = Vec::new();
    let mut i: usize = 0;
    while i < level.len()
        invariant
            i <= level@.len(),
            r@.map_values(|h: Vec<u8>| h@) == level@.map_values(|h: Vec<u8>| h@).take(i as int),
        decreases level@.len() - i,
    {
        let ghost before = r@.map_values(|h: Vec<u8>| h@);
        let h = copy_hash(&level[i]);
        r.push(h);
        assert(r@.map_values(|h: Vec<u8>| h@) =~= before.push(h@));
        assert(r@.map_values(|h: Vec<u8>| h@) =~= level@.map_values(|h: Vec<u8>| h@).take(i + 1));
        i = i + 1;
    }
    assert(level@.map_values(|h: Vec<u8>| h@).take(level@.len() as int) =~= level@.map_values(
        |h: Vec<u8>| h@,
    ));
    r
}

fn bytes_equal(a: &[u8], b: &[u8]) -> (r: bool)
    ensures
        r == (a@ == b@),
{
    if a.len() != b.len() {
        return false;
    }
    let mut i: usize = 0;
    while i < a.len()
        invariant
            a@.len() == b@.len(),
            i <= a@.len(),
            forall|k: int| 0 <= k < i ==> a@[k] == b@[k],
        decreases a@.len() - i,
    {
        if a[i] != b[i] {
            return false;
        }
        i = i + 1;
    }
    assert(a@ =~= b@);
    true
}

fn copy_hash(h: &Vec<u8>) -> (r: Vec<u8>)
    ensures
        r@ == h@,
{
    let mut r: Vec<u8> = Vec::new();
    let mut i: usize = 0;
    while i < h.len()
        invariant
            i <= h.len(),
            r@ == h@.take(i as int),
        decreases h.len() - i,
    {
        r.push(h[i]);
        assert(r@ =~= h@.take(i + 1));
        i = i + 1;
    }
    assert(h@.take(h.len() as int) =~= h@);
    r
}

impl MerkleTree {
    /// The levels, leaves first, as hashes.
    pub closed spec fn levels_view(&self) -> Seq<Seq<Seq<u8>>> {
        self.levels@.map_values(|l: Vec<Vec<u8>>| l@.map_values(|h: Vec<u8>| h@))
    }

    /// The data the tree was built over, in order.
    pub closed spec fn data_view(&self) -> Seq<Seq<char>> {
        self.leaves@.map_values(|s: String| s@)
    }

    /// The tree's levels are those of its data.
    pub closed spec fn wf(&self) -> bool {
        self.levels_view() == tree_levels(self.data_view())
    }

    /// The root hash, when the tree has at least one item.
    pub open spec fn root_view(&self) -> Seq<u8> {
        tree_levels(self.data_view()).last()[0]
    }

    /// Builds the tree over `data`: hashes the items, then hashes pairs level
    /// by level until one hash is left.
    pub fn new(data: Vec<&str>) -> (t: MerkleTree)
        ensures
            t.wf(),
            t.data_view() == data@.map_values(|s: &str| s@),
    {
        let ghost dv = data@.map_values(|s: &str| s@);
        let mut leaves: Vec<String> = Vec::new();
        let mut current_level: Vec<Vec<u8>> = Vec::new();
        let mut i: usize = 0;
        while i < data.len()
            invariant
                i <= data.len(),
                dv == data@.map_values(|s: &str| s@),
                leaves@.map_values(|s: String| s@) == dv.take(i as int),
                current_level@.map_values(|h: Vec<u8>| h@) == dv.take(i as int).map_values(
                    |d: Seq<char>| leaf_hash(d),
                ),
            decreases data.len() - i,
        {
            let item: &str = data[i];
            let hash = sha256_digest(item.as_bytes());
            assert(hash@ == leaf_hash(item@));
            let ghost before = current_level@.map_values(|h: Vec<u8>| h@);
            leaves.push(String::from_str(item));
            current_level.push(hash);
            assert(current_level@.map_values(|h: Vec<u8>| h@) =~= before.push(leaf_hash(item@)));
            assert(leaves@.map_values(|s: String| s@) =~= dv.take(i + 1));
            assert(current_level@.map_values(|h: Vec<u8>| h@) =~= dv.take(i + 1).map_values(
                |d: Seq<char>| leaf_hash(d),
            ));
            i = i + 1;
        }
        assert(dv.take(data.len() as int) =~= dv);
        let ghost leaf_level = dv.map_values(|d: Seq<char>| leaf_hash(d));
        let mut levels: Vec<Vec<Vec<u8>>> = Vec::new();
        levels.push(copy_level(&current_level));
        proof {
            assert(levels@.map_values(|l: Vec<Vec<u8>>| l@.map_values(|h: Vec<u8>| h@)) =~= seq![
                leaf_level,
            ]);
        }
        while current_level.len() > 1
            invariant
                levels@.len() >= 1,
                ({
                    let lv = levels@.map_values(|l: Vec<Vec<u8>>| l@.map_values(|h: Vec<u8>| h@));
                    &&& lv.last() == current_level@.map_values(|h: Vec<u8>| h@)
                    &&& lv.drop_last() + levels_from(lv.last()) == levels_from(leaf_level)
                }),
            decreases current_level.len(),
        {
            let ghost cur = current_level@.map_values(|h: Vec<u8>| h@);
            let ghost lv0 = levels@.map_values(|l: Vec<Vec<u8>>| l@.map_values(|h: Vec<u8>| h@));
            let mut next_level_v: Vec<Vec<u8>> = Vec::new();
            let n = current_level.len();
            let half = n / 2 + n % 2;
            let mut p: usize = 0;
            while p < half
                invariant
                    n == current_level@.len(),
                    n > 1,
                    half == (n + 1) / 2,
                    cur == current_level@.map_values(|h: Vec<u8>| h@),
                    p <= half,
                    next_level_v@.map_values(|h: Vec<u8>| h@) =~= next_level(cur).take(p as int),
                decreases half - p,
            {
                let i = 2 * p;
                let left = &current_level[i];
                let right = if i + 1 < current_level.len() {
                    &current_level[i + 1]
                } else {
                    left
                };
                let parent = Self::hash_pair(left.as_slice(), right.as_slice());
                let ghost before = next_level_v@.map_values(|h: Vec<u8>| h@);
                next_level_v.push(parent);
                proof {
                    let nl = next_level(cur);
                    assert(nl[p as int] == parent@);
                    assert(next_level_v@.map_values(|h: Vec<u8>| h@) =~= before.push(parent@));
                    assert(next_level_v@.map_values(|h: Vec<u8>| h@) =~= nl.take(p + 1));
                }
                p = p + 1;
            }
            proof {
                let nl = next_level(cur);
                assert(nl.take(p as int) =~= nl);
            }
            let copied = copy_level(&next_level_v);
            levels.push(copied);
            proof {
                let lv = levels@.map_values(|l: Vec<Vec<u8>>| l@.map_values(|h: Vec<u8>| h@));
                assert(lv =~= lv0.push(next_level(cur)));
                assert(lv.drop_last() =~= lv0);
                assert(levels_from(cur) == seq![cur] + levels_from(next_level(cur)));
                assert(lv0 =~= lv0.drop_last().push(cur));
                assert(lv.drop_last() + levels_from(lv.last()) =~= lv0.drop_last() + levels_from(cur));
            }
            current_level = next_level_v;
        }
        proof {
            let lv = levels@.map_values(|l: Vec<Vec<u8>>| l@.map_values(|h: Vec<u8>| h@));
            assert(levels_from(lv.last()) == seq![lv.last()]);
            assert(lv =~= lv.drop_last() + seq![lv.last()]);
        }
        MerkleTree { levels, leaves }
    }

    /// SHA-256 of a byte string.
    fn hash(data: &[u8]) -> (r: Vec<u8>)
        ensures
            r@ == sha256(data@),
    {
        sha256_digest(data)
    }

    /// The digest of `left` followed by `right`.
    pub fn hash_pair(left: &[u8], right: &[u8]) -> (r: Vec<u8>)
        ensures
            r@ == pair_hash(left@, right@),
    {
        let mut combined: Vec<u8> = Vec::new();
        let mut i: usize = 0;
        while i < left.len()
            invariant
                i <= left@.len(),
                combined@ == left@.take(i as int),
            decreases left@.len() - i,
        {
            combined.push(left[i]);
            assert(combined@ =~= left@.take(i + 1));
            i = i + 1;
        }
        let mut j: usize = 0;
        while j < right.len()
            invariant
                i == left@.len(),
                j <= right@.len(),
                combined@ == left@ + right@.take(j as int),
            decreases right@.len() - j,
        {
            combined.push(right[j]);
            assert(combined@ =~= left@ + right@.take(j + 1));
            j = j + 1;
        }
        assert(left@.take(left@.len() as int) =~= left@);
        assert(right@.take(right@.len() as int) =~= right@);
        Self::hash(combined.as_slice())
    }

    /// The root hash. The tree must hold at least one item.
    pub fn root(&self) -> (r: &Vec<u8>)
        requires
            self.wf(),
            self.data_view().len() > 0,
        ensures
            r@ == self.root_view(),
    {
        proof {
            let leaves = self.data_view().map_values(|d: Seq<char>| leaf_hash(d));
            lemma_levels_from_chain(leaves);
            lemma_root_level_single(leaves);
        }
        let n = self.levels.len();
        &self.levels[n - 1][0]
    }

    /// The proof for `data`, built from the last leaf that holds it; `None`
    /// when the tree was not built over `data`.
    pub fn generate_proof(&self, data: &str) -> (r: Option<MerkleProof>)
        requires
            self.wf(),
        ensures
            r is None <==> last_index_of(self.data_view(), data@) is None,
            r matches Some(p) ==> p@ == proof_from(
                tree_levels(self.data_view()),
                0,
                last_index_of(self.data_view(), data@)->0,
            ),
    {
        let ghost dv = self.data_view();
        let ghost lv = self.levels_view();
        proof {
            lemma_last_index_of(dv, data@);
            lemma_levels_from_chain(dv.map_values(|d: Seq<char>| leaf_hash(d)));
        }
        let target = String::from_str(data);
        let mut found: Option<usize> = None;
        let mut k: usize = 0;
        while k < self.leaves.len()
            invariant
                k <= self.leaves@.len(),
                dv == self.data_view(),
                target@ == data@,
                found matches Some(f) ==> f < k && dv[f as int] == data@ && forall|m: int|
                    f < m < k ==> dv[m] != data@,
                found is None ==> forall|m: int| 0 <= m < k ==> dv[m] != data@,
            decreases self.leaves@.len() - k,
        {
            if self.leaves[k] == target {
                found = Some(k);
            }
            k = k + 1;
        }
        let mut index = match found {
            None => {
                proof {
                    if last_index_of(dv, data@) is Some {
                        let f = last_index_of(dv, data@)->0;
                        assert(dv[f] == data@);
                    }
                }
                return None;
            },
            Some(f) => f,
        };
        proof {
            let f = last_index_of(dv, data@)->0;
            if f != index as int {
                if f < index {
                    assert(dv[index as int] == data@);
                } else {
                    assert(dv[f] == data@);
                }
            }
            assert(lv[0].len() == dv.len());
        }
        let ghost idx0 = index as int;
        let mut proof_items: Vec<ProofItem> = Vec::new();
        let mut j: usize = 0;
        while j < self.levels.len()
            invariant
                self.wf(),
                lv == self.levels_view(),
                lv == tree_levels(dv),
                is_chain(lv),
                j <= lv.len(),
                j < lv.len() ==> index < lv[j as int].len(),
                proof_items@.map_values(|it: ProofItem| it.view()) + proof_from(lv, j as int, index as int)
                    == proof_from(lv, 0, idx0),
            ensures
                proof_from(lv, j as int, index as int) =~= Seq::<(Seq<u8>, Direction)>::empty(),
                proof_items@.map_values(|it: ProofItem| it.view()) + proof_from(lv, j as int, index as int)
                    == proof_from(lv, 0, idx0),
            decreases lv.len() - j,
        {
            let level = &self.levels[j];
            if level.len() == 1 {
                break;
            }
            let ghost lj = lv[j as int];
            assert(lj.len() == level@.len());
            let sibling_index = if index % 2 == 0 {
                index + 1
            } else {
                index - 1
            };
            let sibling_hash = if sibling_index < level.len() {
                copy_hash(&level[sibling_index])
            } else {
                copy_hash(&level[index])
            };
            let direction = if index % 2 == 0 {
                Direction::Right
            } else {
                Direction::Left
            };
            let item = ProofItem { hash: sibling_hash, direction };
            proof {
                assert(item.view() == proof_item(lj, index as int));
                assert(proof_from(lv, j as int, index as int) == seq![proof_item(lj, index as int)]
                    + proof_from(lv, j + 1, index as int / 2));
                if j + 1 < lv.len() {
                    assert(lv[j as int].len() > 1 && lv[j + 1] == next_level(lv[j as int]));
                } else {
                    assert(lv.last().len() <= 1);
                }
            }
            let ghost before = proof_items@.map_values(|it: ProofItem| it.view());
            proof_items.push(item);
            assert(proof_items@.map_values(|it: ProofItem| it.view()) =~= before.push(
                proof_item(lj, index as int),
            ));
            index = index / 2;
            j = j + 1;
        }
        proof {
            assert(proof_from(lv, j as int, index as int) =~= Seq::empty());
            assert(proof_items@.map_values(|it: ProofItem| it.view()) =~= proof_items@.map_values(
                |it: ProofItem| it.view(),
            ) + proof_from(lv, j as int, index as int));
        }
        Some(MerkleProof { items: proof_items })
    }

    /// Whether the proof leads from the leaf hash of `data` to `root`.
    pub fn verify_proof(data: &str, proof: &MerkleProof, root: &[u8]) -> (r: bool)
        ensures
            r == (fold_proof(leaf_hash(data@), proof@) == root@),
    {
        let mut current_hash = Self::hash(data.as_bytes());
        let ghost items = proof@;
        assert(current_hash@ == leaf_hash(data@));
        assert(items.skip(0) =~= items);
        let mut i: usize = 0;
        while i < proof.items.len()
            invariant
                items == proof@,
                i <= items.len(),
                fold_proof(current_hash@, items.skip(i as int)) == fold_proof(
                    leaf_hash(data@),
                    items,
                ),
            decreases items.len() - i,
        {
            let item = &proof.items[i];
            proof {
                assert(items.skip(i as int)[0] == item.view());
                assert(items.skip(i as int).drop_first() =~= items.skip(i + 1));
            }
            current_hash = match item.direction {
                Direction::Left => Self::hash_pair(item.hash.as_slice(), current_hash.as_slice()),
                Direction::Right => Self::hash_pair(current_hash.as_slice(), item.hash.as_slice()),
            };
            i = i + 1;
        }
        proof {
            assert(items.skip(0) =~= items);
            assert(items.skip(items.len() as int) =~= Seq::empty());
        }
        bytes_equal(current_hash.as_slice(), root)
    }
}

proof fn lemma_root_level_single(leaves: Seq<Seq<u8>>)
    requires
        leaves.len() > 0,
    ensures
        levels_from(leaves).last().len() == 1,
    decreases leaves.len(),
{
    if leaves.len() > 1 {
        lemma_root_level_single(next_level(leaves));
        assert(levels_from(leaves).last() == levels_from(next_level(leaves)).last());
    }
}

/// Lower-case hexadecimal rendering of a hash, two digits per byte.
pub fn to_hex(hash: &[u8]) -> (r: String)
    ensures
        r@ == bytes_hex(hash@),
{
    let mut r = String::new();
    let mut i: usize = 0;
    while i < hash.len()
        invariant
            i <= hash@.len(),
            r@ == bytes_hex(hash@.take(i as int)),
        decreases hash@.len() - i,
    {
        push_hex_byte(&mut r, hash[i]);
        assert(hash@.take(i + 1).drop_last() =~= hash@.take(i as int));
        i = i + 1;
    }
    assert(hash@.take(hash@.len() as int) =~= hash@);
    r
}

} // verus!
