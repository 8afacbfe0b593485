//! A binary SHA-256 hash tree over byte-string leaves, with inclusion proofs.
use vstd::prelude::*;
use sha2::{Digest, Sha256};
use crate::bytes::{bytes_eq, concat_bytes, copy_bytes};

verus! {

/// The SHA-256 digest of a byte string.
pub uninterp spec fn sha256(data: Seq<u8>) -> Seq<u8>;

/// Relies on `sha2::Sha256::digest`: the 32-byte SHA-256 digest of the input.
#[verifier::external_body]
fn sha256_digest(data: &[u8]) -> (r: Vec<u8>)
    ensures
        r@ == sha256(data@),
        r@.len() == 32,
{
    Sha256::digest(data).to_vec()
}

pub open spec fn pair_hash(l: Seq<u8>, r: Seq<u8>) -> Seq<u8> {
    sha256(l + r)
}

/// The layer above `l`: adjacent nodes hashed in pairs, an odd last node with itself.
pub open spec fn parent_layer(l: Seq<Seq<u8>>) -> Seq<Seq<u8>> {
    Seq::new(
        ((l.len() + 1) / 2) as nat,
        |i: int|
            pair_hash(
                l[2 * i],
                if 2 * i + 1 < l.len() {
                    l[2 * i + 1]
                } else {
                    l[2 * i]
                },
            ),
    )
}

/// Layer `k + 1` is the parent of layer `k`, which has at least two nodes.
pub open spec fn layer_link(ls: Seq<Seq<Seq<u8>>>, k: int) -> bool {
    ls[k].len() >= 2 && ls[k + 1] == parent_layer(ls[k])
}

/// Each layer is the parent of the one below, up to a single root.
pub open spec fn layers_well_formed(ls: Seq<Seq<Seq<u8>>>) -> bool {
    &&& ls.len() >= 1
    &&& ls.last().len() == 1
    &&& forall|k: int| 0 <= k < ls.len() - 1 ==> #[trigger] layer_link(ls, k)
}

/// A vector of byte strings, as sequences.
pub open spec fn nodes_view(v: Seq<Vec<u8>>) -> Seq<Seq<u8>> {
    Seq::new(v.len(), |i: int| v[i]@)
}

pub open spec fn layers_view(v: Seq<Vec<Vec<u8>>>) -> Seq<Seq<Seq<u8>>> {
    Seq::new(v.len(), |k: int| nodes_view(v[k]@))
}

pub open spec fn leaf_hashes(data: Seq<Seq<u8>>) -> Seq<Seq<u8>> {
    Seq::new(data.len(), |i: int| sha256(data[i]))
}

pub open spec fn slices_view(data: Seq<&[u8]>) -> Seq<Seq<u8>> {
    Seq::new(data.len(), |i: int| data[i]@)
}

/// `i` is the first position of `h` in `s`.
pub open spec fn is_first_index(s: Seq<Seq<u8>>, h: Seq<u8>, i: int) -> bool {
    &&& 0 <= i < s.len()
    &&& s[i] == h
    &&& forall|j: int| 0 <= j < i ==> s[j] != h
}

/// The node paired with position `idx` of a layer (the node itself when it has no partner).
pub open spec fn sibling_at(layer: Seq<Seq<u8>>, idx: int) -> Seq<u8> {
    let s = if idx % 2 == 0 {
        idx + 1
    } else {
        idx - 1
    };
    if s >= layer.len() {
        layer[idx]
    } else {
        layer[s]
    }
}

/// The siblings met on the way from leaf `idx` up to the root.
pub open spec fn path_siblings(ls: Seq<Seq<Seq<u8>>>, idx: int) -> Seq<Seq<u8>>
    decreases ls.len(),
{
    if ls.len() <= 1 {
        Seq::empty()
    } else {
        seq![sibling_at(ls[0], idx)] + path_siblings(ls.drop_first(), idx / 2)
    }
}

/// The root that a hash at position `idx` and its siblings lead to.
pub open spec fn fold_path(h: Seq<u8>, idx: int, sibs: Seq<Seq<u8>>) -> Seq<u8>
    decreases sibs.len(),
{
    if sibs.len() == 0 {
        h
    } else {
        let next = if idx % 2 == 0 {
            pair_hash(h, sibs[0])
        } else {
            pair_hash(sibs[0], h)
        };
        fold_path(next, idx / 2, sibs.drop_first())
    }
}

#[derive(Debug)]
pub struct MerkleTree {
    layers: Vec<Vec<Vec<u8>>>,
}

#[derive(Debug, Clone)]
pub struct MerkleProof {
    pub siblings: Vec<Vec<u8>>,
    pub leaf_index: usize,
}

impl View for MerkleTree {
    type V = Seq<Seq<Seq<u8>>>;

    closed spec fn view(&self) -> Seq<Seq<Seq<u8>>> {
        layers_view(self.layers@)
    }
}

fn build_parent(cur: &Vec<Vec<u8>>) -> (r: Vec<Vec<u8>>)
    ensures
        nodes_view(r@) == parent_layer(nodes_view(cur@)),
{
    let n = cur.len();
    let half = n / 2 + n % 2;
    let mut next: Vec<Vec<u8>> = Vec::new();
    let mut j: usize = 0;
    while j < half
        invariant
            n == cur.len(),
            half == (n + 1) / 2,
            j <= half,
            nodes_view(next@) =~= parent_layer(nodes_view(cur@)).subrange(0, j as int),
        decreases half - j,
    {
        let left = cur[2 * j].as_slice();
        let right = if 2 * j + 1 < n {
            cur[2 * j + 1].as_slice()
        } else {
            cur[2 * j].as_slice()
        };
        let combined = concat_bytes(left, right);
        let ghost before = nodes_view(next@);
        let d = sha256_digest(combined.as_slice());
        next.push(d);
        assert(nodes_view(next@) =~= before.push(d@));
        assert(nodes_view(next@) =~= parent_layer(nodes_view(cur@)).subrange(0, j + 1));
        j = j + 1;
    }
    next
}

fn position(layer: &Vec<Vec<u8>>, h: &[u8]) -> (r: Option<usize>)
    ensures
        r is None <==> !nodes_view(layer@).contains(h@),
        r matches Some(i) ==> is_first_index(nodes_view(layer@), h@, i as int),
{
    let mut i: usize = 0;
    while i < layer.len()
        invariant
            i <= layer.len(),
            forall|j: int| 0 <= j < i ==> nodes_view(layer@)[j] != h@,
        decreases layer.len() - i,
    {
        if bytes_eq(layer[i].as_slice(), h) {
            assert(nodes_view(layer@)[i as int] == h@);
            return Some(i);
        }
        i = i + 1;
    }
    proof {
        if nodes_view(layer@).contains(h@) {
            let k = choose|k: int| 0 <= k < nodes_view(layer@).len() && nodes_view(layer@)[k] == h@;
            assert(nodes_view(layer@)[k] != h@);
        }
    }
    None
}

proof fn lemma_path_step(ls: Seq<Seq<Seq<u8>>>, k: int, idx: int)
    requires
        0 <= k,
        k + 1 < ls.len(),
    ensures
        path_siblings(ls.subrange(k, ls.len() as int), idx) == seq![sibling_at(ls[k], idx)]
            + path_siblings(ls.subrange(k + 1, ls.len() as int), idx / 2),
{
    let rest = ls.subrange(k, ls.len() as int);
    assert(rest.drop_first() =~= ls.subrange(k + 1, ls.len() as int));
    assert(rest[0] == ls[k]);
}

/// The root that a bottom layer leads to.
pub open spec fn merkle_root(leaves: Seq<Seq<u8>>) -> Seq<u8>
    decreases leaves.len(),
{
    if leaves.len() <= 1 {
        leaves[0]
    } else {
        merkle_root(parent_layer(leaves))
    }
}

/// The root of a well-formed tree is the root its bottom layer leads to.
pub proof fn lemma_root_of_layers(ls: Seq<Seq<Seq<u8>>>)
    requires
        layers_well_formed(ls),
    ensures
        ls.last()[0] == merkle_root(ls[0]),
    decreases ls.len(),
{
    if ls.len() > 1 {
        let rest = ls.drop_first();
        assert(layer_link(ls, 0));
        assert forall|k: int| 0 <= k < rest.len() - 1 implies #[trigger] layer_link(rest, k) by {
            assert(layer_link(ls, k + 1));
        }
        lemma_root_of_layers(rest);
        assert(ls[0].len() >= 2);
    }
}

/// From position `idx` of the bottom layer of a well-formed tree, the hash there and
/// the siblings on its path lead to the root.
pub proof fn lemma_path_reaches_root(ls: Seq<Seq<Seq<u8>>>, idx: int)
    requires
        layers_well_formed(ls),
        0 <= idx < ls[0].len(),
    ensures
        fold_path(ls[0][idx], idx, path_siblings(ls, idx)) == ls.last()[0],
    decreases ls.len(),
{
    if ls.len() > 1 {
        let rest = ls.drop_first();
        assert(layer_link(ls, 0));
        assert forall|k: int| 0 <= k < rest.len() - 1 implies #[trigger] layer_link(rest, k) by {
            assert(layer_link(ls, k + 1));
        }
        let sib = sibling_at(ls[0], idx);
        let next = if idx % 2 == 0 {
            pair_hash(ls[0][idx], sib)
        } else {
            pair_hash(sib, ls[0][idx])
        };
        assert(next == rest[0][idx / 2]);
        assert(path_siblings(ls, idx).drop_first() =~= path_siblings(rest, idx / 2));
        lemma_path_reaches_root(rest, idx / 2);
    }
}

/// A tree built from `data` verifies each of its leaves: the leaf's hash is in the
/// bottom layer, so an inclusion proof is produced, and from the first position of
/// that hash the siblings of the proof lead back to the root.
pub proof fn lemma_tree_verifies_its_leaves(data: Seq<Seq<u8>>, ls: Seq<Seq<Seq<u8>>>, j: int)
    requires
        layers_well_formed(ls),
        ls[0] == leaf_hashes(data),
        0 <= j < data.len(),
    ensures
        ls[0].contains(sha256(data[j])),
        forall|i: int|
            is_first_index(ls[0], sha256(data[j]), i) ==> fold_path(
                sha256(data[j]),
                i,
                path_siblings(ls, i),
            ) == ls.last()[0],
{
    assert(ls[0][j] == sha256(data[j]));
    assert forall|i: int| is_first_index(ls[0], sha256(data[j]), i) implies fold_path(
        sha256(data[j]),
        i,
        path_siblings(ls, i),
    ) == ls.last()[0] by {
        lemma_path_reaches_root(ls, i);
    }
}

fn collect_siblings(layers: &Vec<Vec<Vec<u8>>>, index: usize) -> (r: Vec<Vec<u8>>)
    requires
        layers_well_formed(layers_view(layers@)),
        index < layers_view(layers@)[0].len(),
    ensures
        nodes_view(r@) == path_siblings(layers_view(layers@), index as int),
{
        let ghost ls = layers_view(layers@);
        let mut siblings: Vec<Vec<u8>> = Vec::new();
        let mut current_index = index;
        let mut k: usize = 0;
        assert(ls.subrange(0, ls.len() as int) =~= ls);
        assert(nodes_view(siblings@) + path_siblings(ls, index as int) =~= path_siblings(
            ls,
            index as int,
        ));
        let n = layers.len();
        assert(n == ls.len() && n >= 1);
        while k < n - 1
            invariant
                ls == layers_view(layers@),
                n == ls.len(),
                n >= 1,
                layers_well_formed(ls),
                k < ls.len(),
                0 <= current_index < ls[k as int].len(),
                path_siblings(ls, index as int) == nodes_view(siblings@) + path_siblings(
                    ls.subrange(k as int, ls.len() as int),
                    current_index as int,
                ),
            decreases ls.len() - k,
        {
            let layer = &layers[k];
            assert(layer_link(ls, k as int));
            assert(ls[k + 1].len() == (ls[k as int].len() + 1) / 2);
            assert(ls[k as int] == nodes_view(layer@));
            let sibling_index = if current_index % 2 == 0 {
                current_index + 1
            } else {
                current_index - 1
            };
            let sibling_hash = if sibling_index >= layer.len() {
                copy_bytes(layer[current_index].as_slice())
            } else {
                copy_bytes(layer[sibling_index].as_slice())
            };
            assert(sibling_hash@ == sibling_at(ls[k as int], current_index as int));
            proof {
                lemma_path_step(ls, k as int, current_index as int);
            }
            let ghost old_sibs = nodes_view(siblings@);
            siblings.push(sibling_hash);
            assert(nodes_view(siblings@) =~= old_sibs.push(
                sibling_at(ls[k as int], current_index as int),
            ));
            assert(old_sibs + seq![sibling_at(ls[k as int], current_index as int)] =~= nodes_view(
                siblings@,
            ));
            assert(ls[k + 1] == parent_layer(ls[k as int]));
            current_index = current_index / 2;
            k = k + 1;
        }
        assert(path_siblings(ls.subrange(k as int, ls.len() as int), current_index as int)
            =~= Seq::empty());
        assert(nodes_view(siblings@) + Seq::<Seq<u8>>::empty() =~= nodes_view(siblings@));
    siblings
}

impl MerkleTree {
    #[verifier::type_invariant]
    closed spec fn shaped(self) -> bool {
        layers_view(self.layers@).len() == 0 || layers_well_formed(layers_view(self.layers@))
    }

    pub fn new(data: &[&[u8]]) -> (r: MerkleTree)
        ensures
            data@.len() == 0 ==> r@.len() == 0,
            data@.len() > 0 ==> layers_well_formed(r@) && r@[0] == leaf_hashes(
                slices_view(data@),
            ),
    {
        let mut leaves: Vec<Vec<u8>> = Vec::new();
        let mut i: usize = 0;
        while i < data.len()
            invariant
                i <= data@.len(),
                nodes_view(leaves@) =~= leaf_hashes(slices_view(data@)).subrange(0, i as int),
            decreases data@.len() - i,
        {
            let ghost before = nodes_view(leaves@);
            let d = sha256_digest(data[i]);
            leaves.push(d);
            assert(nodes_view(leaves@) =~= before.push(d@));
            assert(nodes_view(leaves@) =~= leaf_hashes(slices_view(data@)).subrange(0, i + 1));
            i = i + 1;
        }
        if leaves.len() == 0 {
            return MerkleTree { layers: Vec::new() };
        }
        let ghost first = nodes_view(leaves@);
        let mut layers: Vec<Vec<Vec<u8>>> = Vec::new();
        let mut cur = leaves;
        while cur.len() > 1
            invariant
                cur.len() >= 1,
                layers.len() == 0 ==> nodes_view(cur@) == first,
                layers.len() > 0 ==> layers_view(layers@)[0] == first,
                forall|k: int|
                    0 <= k < layers.len() ==> (#[trigger] layers_view(layers@)[k]).len() >= 2 && (
                    layers_view(layers@).push(nodes_view(cur@)))[k + 1] == parent_layer(
                        layers_view(layers@)[k],
                    ),
            decreases cur.len(),
        {
            let next = build_parent(&cur);
            assert(nodes_view(next@).len() == next@.len());
            assert(next@.len() >= 1 && next@.len() < cur@.len());
            let ghost old_layers = layers_view(layers@);
            let ghost old_cur = nodes_view(cur@);
            layers.push(cur);
            assert(layers_view(layers@) =~= old_layers.push(old_cur));
            cur = next;
            assert forall|k: int| 0 <= k < layers.len() implies (
            #[trigger] layers_view(layers@)[k]).len() >= 2 && (layers_view(layers@).push(
                nodes_view(cur@),
            ))[k + 1] == parent_layer(layers_view(layers@)[k]) by {
                if k < layers.len() - 1 {
                    assert(layers_view(layers@)[k] == old_layers[k]);
                    assert(old_layers.push(old_cur)[k + 1] == layers_view(layers@).push(
                        nodes_view(cur@),
                    )[k + 1]);
                }
            }
        }
        let ghost old_layers = layers_view(layers@);
        let ghost old_cur = nodes_view(cur@);
        layers.push(cur);
        assert(layers_view(layers@) =~= old_layers.push(old_cur));
        assert forall|k: int| 0 <= k < layers_view(layers@).len() - 1 implies #[trigger] layer_link(
            layers_view(layers@),
            k,
        ) by {
            assert(layers_view(layers@)[k] == old_layers[k]);
        }
        MerkleTree { layers }
    }

    /// The root hash; `None` for a tree without leaves.
    pub fn root(&self) -> (r: Option<Vec<u8>>)
        ensures
            r is None <==> self@.len() == 0,
            r matches Some(h) ==> h@ == self@.last()[0],
    {
        proof {
            use_type_invariant(self);
        }
        let n = self.layers.len();
        if n == 0 {
            return None;
        }
        Some(copy_bytes(self.layers[n - 1][0].as_slice()))
    }

    /// The inclusion proof of the leaf at position `index`.
    pub fn proof_at(&self, index: usize) -> (r: Option<MerkleProof>)
        ensures
            r is None <==> self@.len() == 0 || index >= self@[0].len(),
            r matches Some(p) ==> p.leaf_index == index && nodes_view(p.siblings@) == path_siblings(
                self@,
                index as int,
            ),
    {
        proof {
            use_type_invariant(self);
        }
        if self.layers.len() == 0 || index >= self.layers[0].len() {
            return None;
        }
        let siblings = collect_siblings(&self.layers, index);
        Some(MerkleProof { siblings, leaf_index: index })
    }

    /// The inclusion proof of the first leaf whose hash is that of `leaf`.
    pub fn generate_proof(&self, leaf: &[u8]) -> (r: Option<MerkleProof>)
        ensures
            r is None <==> self@.len() == 0 || !self@[0].contains(sha256(leaf@)),
            r matches Some(p) ==> is_first_index(self@[0], sha256(leaf@), p.leaf_index as int)
                && nodes_view(p.siblings@) == path_siblings(self@, p.leaf_index as int),
    {
        proof {
            use_type_invariant(self);
        }
        let leaf_hash = sha256_digest(leaf);
        if self.layers.len() == 0 {
            return None;
        }
        let index = match position(&self.layers[0], leaf_hash.as_slice()) {
            Some(i) => i,
            None => return None,
        };
        let siblings = collect_siblings(&self.layers, index);
        Some(MerkleProof { siblings, leaf_index: index })
    }

    /// Recomputes the root from `leaf_data` and the siblings of `proof`, starting at
    /// the first position of the leaf's hash, and compares it with this tree's root.
    pub fn verify_proof(&self, leaf_data: &[u8], proof: &MerkleProof) -> (r: bool)
        ensures
            r == (self@.len() > 0 && exists|i: int|
                is_first_index(self@[0], sha256(leaf_data@), i) && fold_path(
                    sha256(leaf_data@),
                    i,
                    nodes_view(proof.siblings@),
                ) == self@.last()[0]),
    {
        proof {
            use_type_invariant(self);
        }
        let leaf_hash = sha256_digest(leaf_data);
        if self.layers.len() == 0 {
            return false;
        }
        let index = match position(&self.layers[0], leaf_hash.as_slice()) {
            Some(i) => i,
            None => return false,
        };
        let n = self.layers.len();
        let root = self.layers[n - 1][0].as_slice();
        let ok = path_leads_to(leaf_hash.as_slice(), index, &proof.siblings, root);
        proof {
            let h = sha256(leaf_data@);
            assert forall|i: int| is_first_index(self@[0], h, i) implies i == index by {
                if i < index {
                    assert(self@[0][i] == h);
                } else if i > index {
                    assert(self@[0][index as int] == h);
                }
            }
        }
        ok
    }
}

impl MerkleTree {
    /// Whether `leaf_data`, placed at the proof's leaf index, and the proof's siblings
    /// lead to `expected_root`.
    pub fn verify_against_root(leaf_data: &[u8], proof: &MerkleProof, expected_root: &[u8]) -> (r: bool)
        ensures
            r == (fold_path(sha256(leaf_data@), proof.leaf_index as int, nodes_view(proof.siblings@))
                == expected_root@),
    {
        let leaf_hash = sha256_digest(leaf_data);
        path_leads_to(leaf_hash.as_slice(), proof.leaf_index, &proof.siblings, expected_root)
    }
}

/// Whether the hash `leaf_hash` at position `index` and `siblings` lead to `root`.
pub fn path_leads_to(leaf_hash: &[u8], index: usize, siblings: &Vec<Vec<u8>>, root: &[u8]) -> (r:
    bool)
    ensures
        r == (fold_path(leaf_hash@, index as int, nodes_view(siblings@)) == root@),
{
    let ghost sibs = nodes_view(siblings@);
    let mut current = copy_bytes(leaf_hash);
    let mut idx = index;
    let mut k: usize = 0;
    assert(sibs.subrange(0, sibs.len() as int) =~= sibs);
    while k < siblings.len()
        invariant
            sibs == nodes_view(siblings@),
            k <= sibs.len(),
            fold_path(leaf_hash@, index as int, sibs) == fold_path(
                current@,
                idx as int,
                sibs.subrange(k as int, sibs.len() as int),
            ),
        decreases sibs.len() - k,
    {
        let sib = siblings[k].as_slice();
        let combined = if idx % 2 == 0 {
            concat_bytes(current.as_slice(), sib)
        } else {
            concat_bytes(sib, current.as_slice())
        };
        let ghost rest = sibs.subrange(k as int, sibs.len() as int);
        assert(rest.drop_first() =~= sibs.subrange(k + 1, sibs.len() as int));
        assert(rest[0] == sib@);
        current = sha256_digest(combined.as_slice());
        idx = idx / 2;
        k = k + 1;
    }
    assert(sibs.subrange(k as int, sibs.len() as int) =~= Seq::<Seq<u8>>::empty());
    bytes_eq(current.as_slice(), root)
}

} // verus!
