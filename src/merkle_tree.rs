//! The tree itself: building, root digest, inclusion proofs, their
//! verification, and copy-on-write insertion and deletion.
use crate::digest::{combine, hash_nodes, leaf_digest, Hashable};
use crate::model::{
    climb, first_index, lemma_first_index, lemma_first_index_at, lemma_shaped_node,
    node_digest_of, padded, path, proof_path, root_of, shaped, sibling, stored_leaves,
};
use crate::width::{
    is_pow2, leaf_width, lemma_leaf_width_covers, lemma_leaf_width_least, node_count,
};
use vstd::layout::size_of;
use vstd::prelude::*;

verus! {

/// Why an operation on a tree could not be carried out.
#[derive(Debug, Clone, Copy, PartialEq, Eq, Structural)]
pub enum MerkleError {
    /// A tree cannot be built over no elements.
    InvalidInput,
    /// The element is not among the tree's logical leaves.
    ElementNotFound,
    /// The position is not that of a logical leaf.
    IndexOutOfRange,
}

/// The texts of a sequence of strings.
pub open spec fn views(v: Seq<String>) -> Seq<Seq<char>> {
    v.map_values(|s: String| s@)
}

/// The leaf digests of a sequence of elements, in order.
pub open spec fn element_digests<T: Hashable>(v: Seq<T>) -> Seq<Seq<char>> {
    v.map_values(|e: T| leaf_digest(e.text()))
}

/// The logical leaves that remain after deleting the first one equal to `d`.
pub open spec fn without_first(leaves: Seq<Seq<char>>, d: Seq<char>) -> Seq<Seq<char>> {
    leaves.remove(first_index(leaves, d))
}

/// The index of the root in the node array.
const ROOT_INDEX: usize = 1;

/// A Merkle tree kept as an implicit binary tree in a flat array: the root at
/// index 1, the children of `i` at `2i` and `2i + 1`, the leaf slots in the
/// upper half. Slots past the logical leaves copy the last logical leaf.
pub struct MerkleTree {
    nodes: Vec<String>,
    size: usize,
}

impl View for MerkleTree {
    /// The digests of the logical leaves, in order.
    type V = Seq<Seq<char>>;

    closed spec fn view(&self) -> Seq<Seq<char>> {
        stored_leaves(views(self.nodes@), self.size as nat)
    }
}

impl MerkleTree {
    #[verifier::type_invariant]
    spec fn well_formed(&self) -> bool {
        shaped(views(self.nodes@), self.size as nat)
    }

    /// What the type invariant gives about the fields.
    proof fn lemma_fields(&self)
        requires
            self.well_formed(),
        ensures
            self.size >= 1,
            self.size <= leaf_width(self.size as nat),
            self.nodes@.len() == node_count(self.size as nat),
            self@.len() == self.size,
            forall|i: int|
                0 <= i < self.size ==> #[trigger] self@[i] == self.nodes@[leaf_width(
                    self.size as nat,
                ) + i]@,
            forall|i: int| 1 <= i < self.nodes@.len() ==>
                #[trigger] self.nodes@[i]@ == node_digest_of(self@, i as nat),
    {
        lemma_leaf_width_covers(self.size as nat);
        assert forall|i: int| 1 <= i < self.nodes@.len() implies
            #[trigger] self.nodes@[i]@ == node_digest_of(self@, i as nat) by {
            lemma_shaped_node(views(self.nodes@), self.size as nat, i as nat);
        }
    }
}

impl MerkleTree {
    /// Whether `node_index` is a leaf slot of the node array `nodes`.
    fn is_leaf(nodes: &Vec<String>, node_index: usize) -> (r: bool)
        ensures
            r == (nodes@.len() / 2 <= node_index < nodes@.len()),
    {
        node_index >= nodes.len() / 2 && node_index < nodes.len()
    }

    /// The index of the left child of `parent_index`.
    fn left_child_index(parent_index: usize) -> (r: usize)
        requires
            2 * parent_index <= usize::MAX,
        ensures
            r == 2 * parent_index,
    {
        parent_index * 2
    }

    /// The index of the right child of `parent_index`.
    fn right_child_index(parent_index: usize) -> (r: usize)
        requires
            2 * parent_index + 1 <= usize::MAX,
        ensures
            r == 2 * parent_index + 1,
    {
        parent_index * 2 + 1
    }

    /// The index of the other child of the parent of `node_index`.
    fn sibling_index(node_index: usize) -> (r: usize)
        ensures
            r == sibling(node_index as nat),
            sibling(r as nat) == node_index,
            r / 2 == node_index / 2,
    {
        if node_index % 2 == 0 {
            node_index + 1
        } else {
            node_index - 1
        }
    }

    /// The index of the parent of `node_index`.
    fn parent_index(node_index: usize) -> (r: usize)
        ensures
            r == node_index / 2,
    {
        node_index / 2
    }

    /// Whether `x` is a power of two.
    fn is_power_of_two(x: usize) -> (r: bool)
        ensures
            r == is_pow2(x as nat),
    {
        if x == 0 {
            return false;
        }
        let mut y: usize = x;
        while y % 2 == 0
            invariant
                y >= 1,
                is_pow2(y as nat) == is_pow2(x as nat),
            decreases y,
        {
            y = y / 2;
        }
        y == 1
    }

    /// The digests of the elements, in order.
    fn hash_leaves<T: Hashable>(input_elements: Vec<T>) -> (r: Vec<String>)
        ensures
            views(r@) == element_digests(input_elements@),
    {
        let mut hashed_input_elements: Vec<String> = Vec::new();
        let mut i: usize = 0;
        while i < input_elements.len()
            invariant
                i <= input_elements@.len(),
                hashed_input_elements@.len() == i,
                forall|k: int|
                    0 <= k < i ==> #[trigger] hashed_input_elements@[k]@ == leaf_digest(
                        input_elements@[k].text(),
                    ),
            decreases input_elements@.len() - i,
        {
            hashed_input_elements.push(input_elements[i].digest());
            i += 1;
        }
        assert(views(hashed_input_elements@) =~= element_digests(input_elements@));
        hashed_input_elements
    }

    /// Appends copies of the last digest until the count is a power of two.
    fn complete_until_power_of_two(input_elements: Vec<String>) -> (r: Vec<String>)
        requires
            input_elements@.len() >= 1,
        ensures
            views(r@) == padded(views(input_elements@)),
    {
        let ghost n = input_elements@.len();
        let ghost first = input_elements@;
        proof {
            lemma_leaf_width_covers(n);
        }
        let mut power_of_two_elements = input_elements;
        while !Self::is_power_of_two(power_of_two_elements.len())
            invariant
                n <= power_of_two_elements@.len() <= leaf_width(n),
                n >= 1,
                is_pow2(leaf_width(n)),
                forall|k: int| 0 <= k < n ==> #[trigger] power_of_two_elements@[k] == first[k],
                forall|k: int|
                    n <= k < power_of_two_elements@.len() ==> #[trigger] power_of_two_elements@[k]@
                        == first[n - 1]@,
            decreases leaf_width(n) - power_of_two_elements@.len(),
        {
            let last = power_of_two_elements[power_of_two_elements.len() - 1].clone();
            power_of_two_elements.push(last);
        }
        proof {
            lemma_leaf_width_least(n, power_of_two_elements@.len());
        }
        assert(views(power_of_two_elements@) =~= padded(views(first)));
        power_of_two_elements
    }
}

impl MerkleTree {
    /// Recomputes every internal node from its children, bottom-up, leaving the
    /// leaf slots in the upper half as they are.
    fn build(nodes: &mut Vec<String>)
        requires
            old(nodes)@.len() % 2 == 0,
        ensures
            final(nodes)@.len() == old(nodes)@.len(),
            final(nodes)@.len() > 0 ==> final(nodes)@[0] == old(nodes)@[0],
            forall|k: int|
                final(nodes)@.len() / 2 <= k < final(nodes)@.len() ==> #[trigger] final(nodes)@[k]
                    == old(nodes)@[k],
            forall|k: int|
                1 <= k < final(nodes)@.len() / 2 ==> #[trigger] final(nodes)@[k]@ == combine(
                    final(nodes)@[2 * k]@,
                    final(nodes)@[2 * k + 1]@,
                ),
    {
        let ghost start = nodes@;
        let len = nodes.len();
        let mut i: usize = len;
        while i > 1
            invariant
                i <= len,
                len == start.len(),
                len % 2 == 0,
                nodes@.len() == len,
                len > 0 ==> nodes@[0] == start[0],
                forall|k: int| len / 2 <= k < len ==> #[trigger] nodes@[k] == start[k],
                forall|k: int|
                    i <= k < len / 2 ==> #[trigger] nodes@[k]@ == combine(
                        nodes@[2 * k]@,
                        nodes@[2 * k + 1]@,
                    ),
            decreases i,
        {
            i -= 1;
            if !Self::is_leaf(nodes, i) {
                let left = Self::left_child_index(i);
                let right = Self::right_child_index(i);
                let digest = hash_nodes(nodes[left].as_str(), nodes[right].as_str());
                nodes.set(i, digest);
            }
        }
    }

    /// The tree whose logical leaves are the given digests, in order.
    fn new_from_hashed(input_elements: Vec<String>) -> (r: Self)
        requires
            input_elements@.len() >= 1,
        ensures
            r@ == views(input_elements@),
    {
        let size = input_elements.len();
        let ghost digests = views(input_elements@);
        let leaves = Self::complete_until_power_of_two(input_elements);
        let width = leaves.len();
        proof {
            lemma_leaf_width_covers(size as nat);
        }
        let mut nodes: Vec<String> = Vec::new();
        let mut i: usize = 0;
        while i < width
            invariant
                i <= width,
                nodes@.len() == i,
            decreases width - i,
        {
            nodes.push(String::new());
            i += 1;
        }
        let mut j: usize = 0;
        while j < width
            invariant
                j <= width,
                width == leaves@.len(),
                nodes@.len() == width + j,
                forall|k: int| 0 <= k < j ==> #[trigger] nodes@[width + k] == leaves@[k],
            decreases width - j,
        {
            nodes.push(leaves[j].clone());
            j += 1;
        }
        Self::build(&mut nodes);
        proof {
            let v = views(nodes@);
            assert(digests.len() == size);
            assert(views(leaves@).len() == width);
            assert(width == leaf_width(size as nat));
            assert(v.len() == 2 * width);
            assert forall|k: int| width <= k < 2 * width implies #[trigger] v[k] == padded(
                digests,
            )[k - width] by {
                assert(nodes@[width + (k - width)] == leaves@[k - width]);
                assert(views(leaves@)[k - width] == leaves@[k - width]@);
            }
            assert forall|k: int| 1 <= k < width implies #[trigger] v[k] == combine(
                v[2 * k],
                v[2 * k + 1],
            ) by {
                assert(nodes@[k]@ == combine(nodes@[2 * k]@, nodes@[2 * k + 1]@));
            }
            assert forall|k: int| width + size <= k < 2 * width implies #[trigger] v[k] == v[width
                + size - 1] by {
                assert(v[k] == padded(digests)[k - width]);
                assert(v[width + size - 1] == padded(digests)[size - 1]);
            }
            assert(stored_leaves(v, size as nat) =~= digests) by {
                assert forall|k: int| 0 <= k < size implies #[trigger] stored_leaves(
                    v,
                    size as nat,
                )[k] == digests[k] by {
                    assert(v[width + k] == padded(digests)[k]);
                }
            }
        }
        MerkleTree { nodes, size }
    }

    /// Builds the tree over the digests of the elements, in order; an empty
    /// sequence has no tree.
    pub fn new_from<T: Hashable>(input_elements: Vec<T>) -> (r: Result<Self, MerkleError>)
        ensures
            match r {
                Ok(tree) => input_elements@.len() > 0 && tree@ == element_digests(input_elements@),
                Err(e) => input_elements@.len() == 0 && e == MerkleError::InvalidInput,
            },
    {
        if input_elements.len() == 0 {
            return Err(MerkleError::InvalidInput);
        }
        let hashed = Self::hash_leaves(input_elements);
        assert(hashed@.len() == views(hashed@).len());
        Ok(Self::new_from_hashed(hashed))
    }

    /// The digest at the root.
    pub fn get_root_hash(&self) -> (r: String)
        ensures
            r@ == root_of(self@),
    {
        proof {
            use_type_invariant(self);
            self.lemma_fields();
        }
        self.nodes[ROOT_INDEX].clone()
    }

    /// The digests of the logical leaves, in order.
    fn get_leaves(&self) -> (r: Vec<String>)
        ensures
            views(r@) == self@,
    {
        proof {
            use_type_invariant(self);
            self.lemma_fields();
        }
        let leaves_start = self.nodes.len() / 2;
        let mut leaves: Vec<String> = Vec::new();
        let mut i: usize = 0;
        while i < self.size
            invariant
                i <= self.size,
                self.size <= leaves_start,
                leaves_start == leaf_width(self.size as nat),
                self.nodes@.len() == 2 * leaves_start,
                self.nodes@.len() <= usize::MAX,
                leaves@.len() == i,
                forall|k: int|
                    0 <= k < self.size ==> #[trigger] self@[k] == self.nodes@[leaves_start + k]@,
                forall|k: int| 0 <= k < i ==> #[trigger] leaves@[k]@ == self@[k],
            decreases self.size - i,
        {
            leaves.push(self.nodes[leaves_start + i].clone());
            i += 1;
        }
        assert(views(leaves@) =~= self@);
        leaves
    }

    /// The position of the first logical leaf equal to `elem`.
    fn leaf_index_of(&self, elem: &String) -> (r: Option<usize>)
        ensures
            match r {
                Some(i) => i as int == first_index(self@, elem@),
                None => first_index(self@, elem@) < 0,
            },
    {
        proof {
            use_type_invariant(self);
            self.lemma_fields();
            lemma_first_index(self@, elem@);
        }
        let leaves_start = self.nodes.len() / 2;
        let mut i: usize = 0;
        while i < self.size
            invariant
                i <= self.size,
                self.size <= leaves_start,
                leaves_start == leaf_width(self.size as nat),
                self.nodes@.len() == 2 * leaves_start,
                self.nodes@.len() <= usize::MAX,
                self@.len() == self.size,
                forall|k: int|
                    0 <= k < self.size ==> #[trigger] self@[k] == self.nodes@[leaves_start + k]@,
                forall|k: int| 0 <= k < i ==> self@[k] != elem@,
            decreases self.size - i,
        {
            if self.nodes[leaves_start + i] == *elem {
                proof {
                    lemma_first_index_at(self@, elem@, i as int);
                }
                return Some(i);
            }
            i += 1;
        }
        assert(!self@.contains(elem@));
        None
    }
}

impl MerkleTree {
    /// The sibling digests from the logical leaf at `leaf_index` up to the root.
    fn collect_siblings(&self, leaf_index: usize) -> (r: Vec<String>)
        requires
            leaf_index < self@.len(),
        ensures
            views(r@) == proof_path(self@, leaf_index as nat),
    {
        proof {
            use_type_invariant(self);
            self.lemma_fields();
        }
        let ghost slots = padded(self@);
        let width = self.nodes.len() / 2;
        let mut current = width + leaf_index;
        let mut siblings: Vec<String> = Vec::new();
        assert(views(siblings@) + path(slots, current as nat) =~= path(slots, current as nat));
        while current != ROOT_INDEX
            invariant
                1 <= current < self.nodes@.len(),
                self.nodes@.len() <= usize::MAX,
                self.nodes@.len() == 2 * width,
                width == leaf_width(self@.len()),
                leaf_index < self@.len(),
                slots == padded(self@),
                views(siblings@) + path(slots, current as nat) == path(
                    slots,
                    (width + leaf_index) as nat,
                ),
                forall|i: int|
                    1 <= i < self.nodes@.len() ==> #[trigger] self.nodes@[i]@ == node_digest_of(
                        self@,
                        i as nat,
                    ),
            decreases current,
        {
            let ghost before = views(siblings@);
            let sibling_at = Self::sibling_index(current);
            siblings.push(self.nodes[sibling_at].clone());
            proof {
                let x = self.nodes@[sibling_at as int]@;
                assert(views(siblings@) =~= before.push(x));
                assert(path(slots, current as nat) == seq![x] + path(slots, current as nat / 2));
                assert(before.push(x) + path(slots, current as nat / 2) =~= before + (seq![x]
                    + path(slots, current as nat / 2)));
            }
            current = Self::parent_index(current);
        }
        assert(views(siblings@) + path(slots, 1) =~= views(siblings@));
        siblings
    }

    /// The inclusion proof of the first logical leaf whose digest is that of
    /// `element`; empty when no logical leaf has it.
    pub fn proof_of<T: Hashable>(&self, element: T) -> (r: Vec<String>)
        ensures
            views(r@) == (if self@.contains(leaf_digest(element.text())) {
                proof_path(self@, first_index(self@, leaf_digest(element.text())) as nat)
            } else {
                Seq::empty()
            }),
    {
        let hash = element.digest();
        proof {
            lemma_first_index(self@, hash@);
        }
        match self.leaf_index_of(&hash) {
            Some(current) => {
                self.collect_siblings(current)
            },
            None => {
                let empty: Vec<String> = Vec::new();
                assert(views(empty@) =~= Seq::empty());
                empty
            },
        }
    }

    /// The inclusion proof of the logical leaf at position `index`.
    pub fn proof_at(&self, index: usize) -> (r: Result<Vec<String>, MerkleError>)
        ensures
            match r {
                Ok(siblings) => index < self@.len() && views(siblings@) == proof_path(
                    self@,
                    index as nat,
                ),
                Err(e) => index >= self@.len() && e == MerkleError::IndexOutOfRange,
            },
    {
        proof {
            use_type_invariant(self);
            self.lemma_fields();
        }
        if index >= self.size {
            return Err(MerkleError::IndexOutOfRange);
        }
        Ok(self.collect_siblings(index))
    }

    /// A new tree with the digest of `element` appended to the logical leaves.
    pub fn add<T: Hashable>(&self, element: T) -> (r: MerkleTree)
        ensures
            r@ == self@.push(leaf_digest(element.text())),
    {
        self.add_hashed(element.digest())
    }

    /// A new tree with the digest `element` appended to the logical leaves.
    pub fn add_hashed(&self, element: String) -> (r: MerkleTree)
        ensures
            r@ == self@.push(element@),
    {
        let mut leaves = self.get_leaves();
        let ghost before = views(leaves@);
        leaves.push(element);
        assert(views(leaves@) =~= before.push(element@));
        MerkleTree::new_from_hashed(leaves)
    }

    /// A new tree without the first logical leaf whose digest is that of
    /// `element`. Deleting the only leaf would leave no tree.
    pub fn delete_element<T: Hashable>(&self, element: T) -> (r: Result<MerkleTree, MerkleError>)
        ensures
            match r {
                Ok(tree) => self@.contains(leaf_digest(element.text())) && self@.len() > 1
                    && tree@ == without_first(self@, leaf_digest(element.text())),
                Err(e) => (e == MerkleError::ElementNotFound && !self@.contains(
                    leaf_digest(element.text()),
                )) || (e == MerkleError::InvalidInput && self@.contains(
                    leaf_digest(element.text()),
                ) && self@.len() == 1),
            },
    {
        let mut leaves_of_the_actual_tree = self.get_leaves();
        let hash = element.digest();
        proof {
            lemma_first_index(self@, hash@);
        }
        if let Some(element_to_remove_index) = self.leaf_index_of(&hash) {
            let ghost before = views(leaves_of_the_actual_tree@);
            leaves_of_the_actual_tree.remove(element_to_remove_index);
            assert(views(leaves_of_the_actual_tree@) =~= before.remove(
                element_to_remove_index as int,
            ));
            if leaves_of_the_actual_tree.len() == 0 {
                return Err(MerkleError::InvalidInput);
            }
            Ok(MerkleTree::new_from_hashed(leaves_of_the_actual_tree))
        } else {
            Err(MerkleError::ElementNotFound)
        }
    }
}

/// Whether the logical leaf with the digest of `element` (its first position)
/// climbs along `merkle_proof` to the tree's root digest; false when no logical leaf
/// has that digest.
pub fn verify_tree_element<T: Hashable>(
    tree: &MerkleTree,
    element: T,
    merkle_proof: Vec<String>,
) -> (r: bool)
    ensures
        r == (tree@.contains(leaf_digest(element.text())) && climb(
            leaf_digest(element.text()),
            first_index(tree@, leaf_digest(element.text())) as nat,
            views(merkle_proof@),
        ) == root_of(tree@)),
{
    let hashed_element = element.digest();
    let root_hash = tree.get_root_hash();
    let elem_index = tree.leaf_index_of(&hashed_element);
    proof {
        lemma_first_index(tree@, hashed_element@);
    }
    if let Some(index) = elem_index {
        verify(hashed_element, index, merkle_proof, root_hash)
    } else {
        false
    }
}

/// Whether climbing from `hashed_element` at logical position `elem_index`
/// along `merkle_proof` reaches `root_hash`.
pub fn verify(
    hashed_element: String,
    elem_index: usize,
    merkle_proof: Vec<String>,
    root_hash: String,
) -> (r: bool)
    ensures
        r == (climb(hashed_element@, elem_index as nat, views(merkle_proof@)) == root_hash@),
{
    let ghost steps = views(merkle_proof@);
    let mut current = hashed_element;
    let mut index = elem_index;
    let mut i: usize = 0;
    assert(steps.skip(0) =~= steps);
    while i < merkle_proof.len()
        invariant
            i <= merkle_proof@.len(),
            steps == views(merkle_proof@),
            climb(current@, index as nat, steps.skip(i as int)) == climb(
                hashed_element@,
                elem_index as nat,
                steps,
            ),
        decreases merkle_proof@.len() - i,
    {
        let ghost rest = steps.skip(i as int);
        assert(rest[0] == merkle_proof@[i as int]@);
        assert(rest.drop_first() =~= steps.skip(i + 1));
        if index % 2 == 0 {
            current = hash_nodes(current.as_str(), merkle_proof[i].as_str());
        } else {
            current = hash_nodes(merkle_proof[i].as_str(), current.as_str());
        }
        index = index / 2;
        i += 1;
    }
    assert(steps.skip(i as int) =~= Seq::empty());
    root_hash == current
}

impl MerkleTree {
    /// Whether the node array holds exactly `size` slots.
    pub fn nodes_count_equals(&self, size: u32) -> (r: bool)
        ensures
            r == (size as nat == node_count(self@.len())),
    {
        proof {
            use_type_invariant(self);
            self.lemma_fields();
        }
        self.nodes.len() == size as usize
    }

    /// The number of logical leaves.
    pub fn size(&self) -> (r: usize)
        ensures
            r == self@.len(),
            r >= 1,
    {
        proof {
            use_type_invariant(self);
            self.lemma_fields();
        }
        self.size
    }

    /// Whether the tree has exactly `size` logical leaves.
    pub fn has_size(&self, size: u32) -> (r: bool)
        ensures
            r == (size as nat == self@.len()),
    {
        proof {
            use_type_invariant(self);
            self.lemma_fields();
        }
        self.size == size as usize
    }

    /// The bytes taken by the tree value and by the string headers of its node
    /// array.
    pub open spec fn footprint(&self) -> nat {
        size_of::<MerkleTree>() + node_count(self@.len()) * size_of::<String>()
    }

    /// The bytes taken by the tree value and by the string headers of its node
    /// array, saturating at `usize::MAX`.
    pub fn size_in_bytes(&self) -> (r: usize)
        ensures
            r == (if self.footprint() > usize::MAX {
                usize::MAX as nat
            } else {
                self.footprint()
            }),
    {
        proof {
            use_type_invariant(self);
            self.lemma_fields();
        }
        let headers = match self.nodes.len().checked_mul(std::mem::size_of::<String>()) {
            Some(bytes) => bytes,
            None => usize::MAX,
        };
        std::mem::size_of::<MerkleTree>().saturating_add(headers)
    }
}

/// Two sequences of elements, of any element types, whose elements hash as the
/// same texts in the same order give trees with the same logical leaves and
/// the same root digest.
pub proof fn lemma_same_texts_same_root<T: Hashable, U: Hashable>(xs: Seq<T>, ys: Seq<U>)
    requires
        xs.len() == ys.len(),
        forall|i: int| 0 <= i < xs.len() ==> #[trigger] xs[i].text() == ys[i].text(),
    ensures
        element_digests(xs) == element_digests(ys),
        root_of(element_digests(xs)) == root_of(element_digests(ys)),
{
    assert(element_digests(xs) =~= element_digests(ys));
}

} // verus!
