use vstd::arithmetic::power2::{lemma2_to64, lemma_pow2_adds, lemma_pow2_pos, pow2};
use vstd::prelude::*;

use crate::pippenger::current_num_threads;

verus! {

/// Why a hash could not be computed.
#[derive(Clone, Copy, Debug, PartialEq, Eq, Structural)]
pub enum HashError {
    /// The input does not fill a whole number of blocks.
    InputLength,
}

/// The parameters of a hash over a field.
pub trait FieldBasedHashParameters {
    type Fr;
}

/// A hash from field elements to a field element.
pub trait FieldBasedHash {
    type Data;

    type Parameters: FieldBasedHashParameters;

    fn evaluate(input: &Vec<Self::Data>) -> Result<Self::Data, HashError>;
}

/// A hash of two field elements to one, applied to many pairs at once.
pub trait BatchFieldBasedHash {
    type Data: Copy;

    type Parameters: FieldBasedHashParameters;

    /// The hash of the pair `(a, b)`.
    spec fn spec_hash(a: Self::Data, b: Self::Data) -> Self::Data;

    /// The zero of the field.
    spec fn spec_zero() -> Self::Data;

    fn zero() -> (r: Self::Data)
        ensures
            r == Self::spec_zero(),
    ;

    /// The hash of each pair `(input[2j], input[2j + 1])`.
    fn batch_evaluate(input_array: &Vec<Self::Data>) -> (r: Vec<Self::Data>)
        requires
            input_array@.len() % 2 == 0,
        ensures
            r@.len() == input_array@.len() / 2,
            forall|j: int|
                0 <= j < r@.len() ==> #[trigger] r@[j] == Self::spec_hash(
                    input_array@[2 * j],
                    input_array@[2 * j + 1],
                ),
    ;
}

/// The parents of the pairs of `s`.
pub open spec fn pair_hashes<H: BatchFieldBasedHash>(s: Seq<H::Data>) -> Seq<H::Data> {
    Seq::new(s.len() / 2, |j: int| H::spec_hash(s[2 * j], s[2 * j + 1]))
}

/// The root of the tree of height `h` over the leaves `s`.
pub open spec fn merkle_root<H: BatchFieldBasedHash>(s: Seq<H::Data>, h: nat) -> H::Data
    decreases h,
{
    if h == 0 {
        s[0]
    } else {
        merkle_root::<H>(pair_hashes::<H>(s), (h - 1) as nat)
    }
}

/// A Merkle tree of arity two whose leaves are pushed one by one and whose
/// inner nodes are computed in batches as their children come in.
pub struct BatchedMerkleTreeMem<H: BatchFieldBasedHash> {
    root: H::Data,
    /// The nodes of each level computed so far, the leaves first.
    nodes: Vec<Vec<H::Data>>,
    /// The height of the tree.
    levels: usize,
    /// The number of leaves: `2^levels`.
    size: usize,
    /// How many unhashed nodes of the leaf level trigger a batch.
    processing_step: usize,
}

impl<H: BatchFieldBasedHash> BatchedMerkleTreeMem<H> {
    /// Every computed level above the leaves is the parents of the level below,
    /// as far as it goes.
    pub closed spec fn wf(&self) -> bool {
        &&& self.nodes@.len() == self.levels + 1
        &&& self.size as nat == pow2(self.levels as nat)
        &&& self.levels < 64
        &&& self.nodes@[0]@.len() <= self.size
        &&& forall|i: int|
            0 <= i < self.levels ==> #[trigger] self.nodes@[i + 1]@.len() <= self.nodes@[i]@.len()
                / 2
        &&& forall|i: int|
            0 <= i < self.levels ==> #[trigger] self.nodes@[i + 1]@ == pair_hashes::<H>(
                self.nodes@[i]@,
            ).take(self.nodes@[i + 1]@.len() as int)
    }

    /// Every pair of nodes has its parent.
    pub closed spec fn complete(&self) -> bool {
        forall|i: int|
            0 <= i < self.levels ==> #[trigger] self.nodes@[i + 1]@.len() == self.nodes@[i]@.len()
                / 2
    }

    /// The leaves pushed so far.
    pub closed spec fn leaves(&self) -> Seq<H::Data> {
        self.nodes@[0]@
    }

    pub closed spec fn height(&self) -> nat {
        self.levels as nat
    }

    pub closed spec fn capacity(&self) -> nat {
        self.size as nat
    }

    pub closed spec fn spec_root(&self) -> H::Data {
        self.root
    }

    /// A well-formed tree has `2^height` leaves.
    pub proof fn lemma_capacity(&self)
        requires
            self.wf(),
        ensures
            self.capacity() == pow2(self.height()),
    {
    }

    /// The root of a finalized tree depends on its leaves and capacity
    /// alone: not on the processing step or on the threads.
    pub proof fn lemma_root_independent(t1: &Self, t2: &Self)
        requires
            t1.wf(),
            t2.wf(),
            t1.capacity() == t2.capacity(),
            t1.leaves() == t2.leaves(),
            t1.spec_root() == merkle_root::<H>(t1.leaves(), t1.height()),
            t2.spec_root() == merkle_root::<H>(t2.leaves(), t2.height()),
        ensures
            t1.spec_root() == t2.spec_root(),
    {
        if t1.levels < t2.levels {
            vstd::arithmetic::power2::lemma_pow2_strictly_increases(t1.levels as nat, t2.levels as nat);
        } else if t2.levels < t1.levels {
            vstd::arithmetic::power2::lemma_pow2_strictly_increases(t2.levels as nat, t1.levels as nat);
        }
    }

    /// The root, as the last `finalize` left it.
    pub fn root(&self) -> (r: H::Data)
        ensures
            r == self.spec_root(),
    {
        self.root
    }

    /// A tree for `size_leaves` leaves, rounded up to a power of two, whose
    /// inner nodes are computed once `processing_step` leaves wait (rounded
    /// down to a multiple of the number of threads and of the arity).
    pub fn new(size_leaves: usize, processing_step: usize) -> (r: Self)
        requires
            size_leaves <= usize::MAX / 2 + 1,
        ensures
            r.wf(),
            r.leaves().len() == 0,
            r.capacity() == pow2(r.height()),
            r.spec_root() == H::spec_zero(),
            r.capacity() >= size_leaves,
            r.capacity() < 2 * size_leaves || r.capacity() == 1,
    {
        let rate: usize = 2;
        let threads = current_num_threads();
        let cpus: usize = if threads == 0 {
            1
        } else if threads > 0x1_0000 {
            0x1_0000
        } else {
            threads
        };
        proof {
            vstd::arithmetic::div_mod::lemma_mod_decreases(processing_step as nat, (cpus * rate) as nat);
        }
        // a multiple of the number of threads and of the arity, rounded down
        let mut processing_block_size = processing_step - processing_step % (cpus * rate);
        if processing_step < cpus * rate {
            let mut chunk_size = processing_step / rate;
            if chunk_size == 0 {
                chunk_size = 1;
            }
            processing_block_size = chunk_size * rate;
        }
        let mut levels: usize = 0;
        let mut size: usize = 1;
        proof {
            lemma2_to64();
        }
        while size < size_leaves
            invariant
                size as nat == pow2(levels as nat),
                size_leaves <= usize::MAX / 2 + 1,
                levels <= 63,
                levels == 0 ==> size == 1,
                levels > 0 ==> size < 2 * size_leaves,
            decreases 64 - levels,
        {
            proof {
                lemma2_to64();
                vstd::arithmetic::power2::lemma2_to64_rest();
                lemma_pow2_adds(levels as nat, 1);
                if levels >= 63 {
                    if levels > 63 {
                        vstd::arithmetic::power2::lemma_pow2_strictly_increases(63, levels as nat);
                    }
                    assert(false);
                }
            }
            size = size * 2;
            levels = levels + 1;
        }
        if processing_block_size > size {
            processing_block_size = size;
        }
        let mut nodes: Vec<Vec<H::Data>> = Vec::new();
        let mut i: usize = 0;
        while i <= levels
            invariant
                i <= levels + 1,
                levels <= 63,
                nodes@.len() == i,
                forall|j: int| 0 <= j < i ==> #[trigger] nodes@[j]@.len() == 0,
            decreases levels + 1 - i,
        {
            nodes.push(Vec::new());
            i = i + 1;
        }
        let r = BatchedMerkleTreeMem {
            root: H::zero(),
            nodes,
            levels,
            size,
            processing_step: processing_block_size,
        };
        proof {
            assert forall|i: int| 0 <= i < r.levels implies #[trigger] r.nodes@[i + 1]@
                == pair_hashes::<H>(r.nodes@[i]@).take(r.nodes@[i + 1]@.len() as int) by {
                assert(r.nodes@[i + 1]@ =~= pair_hashes::<H>(r.nodes@[i]@).take(0));
            }
        }
        r
    }

    /// Appends the next leaf; a leaf past the capacity is dropped. Computes
    /// the inner nodes that it completes once the leaf level is full or
    /// enough leaves wait.
    pub fn push(&mut self, elem: H::Data)
        requires
            old(self).wf(),
        ensures
            final(self).wf(),
            final(self).height() == old(self).height(),
            final(self).capacity() == old(self).capacity(),
            final(self).spec_root() == old(self).spec_root(),
            final(self).leaves() == if old(self).leaves().len() < old(self).capacity() {
                old(self).leaves().push(elem)
            } else {
                old(self).leaves()
            },
    {
        if self.nodes[0].len() < self.size {
            let ghost before = self.nodes@;
            let mut first = self.nodes.remove(0);
            first.push(elem);
            self.nodes.insert(0, first);
            proof {
                assert forall|i: int| 0 <= i < self.levels implies #[trigger] self.nodes@[i + 1]@
                    == pair_hashes::<H>(self.nodes@[i]@).take(self.nodes@[i + 1]@.len() as int) by {
                    assert(self.nodes@[i + 1] == before[i + 1]);
                    if i == 0 {
                        assert(self.nodes@[0]@.take(before[0]@.len() as int) =~= before[0]@);
                        lemma_pair_hashes_prefix::<H>(
                            before[0]@,
                            self.nodes@[0]@,
                            self.nodes@[1]@.len(),
                        );
                    } else {
                        assert(self.nodes@[i] == before[i]);
                    }
                }
                assert forall|i: int| 0 <= i < self.levels implies #[trigger] self.nodes@[i + 1]@.len()
                    <= self.nodes@[i]@.len() / 2 by {
                    assert(self.nodes@[i + 1] == before[i + 1]);
                    if i > 0 {
                        assert(self.nodes@[i] == before[i]);
                    }
                }
            }
        }
        let waiting = if self.levels == 0 {
            self.nodes[0].len()
        } else {
            self.nodes[0].len() - 2 * self.nodes[1].len()
        };
        if self.nodes[0].len() == self.size || waiting >= self.processing_step {
            self.update();
        }
    }

    /// Pads the leaves with zeros up to the capacity, computes the remaining
    /// inner nodes and takes the root.
    pub fn finalize(&mut self)
        requires
            old(self).wf(),
        ensures
            final(self).wf(),
            final(self).height() == old(self).height(),
            final(self).capacity() == old(self).capacity(),
            final(self).leaves().len() == final(self).capacity(),
            final(self).leaves().take(old(self).leaves().len() as int) == old(self).leaves(),
            forall|k: int|
                old(self).leaves().len() <= k < final(self).capacity() ==> #[trigger] final(self).leaves()[k]
                    == H::spec_zero(),
            final(self).spec_root() == merkle_root::<H>(final(self).leaves(), final(self).height()),
    {
        let ghost start = self.nodes@[0]@;
        let zero = H::zero();
        while self.nodes[0].len() < self.size
            invariant
                self.wf(),
                self.levels == old(self).levels,
                self.size == old(self).size,
                start == old(self).leaves(),
                start.len() <= self.nodes@[0]@.len(),
                self.nodes@[0]@.take(start.len() as int) == start,
                zero == H::spec_zero(),
                forall|k: int|
                    start.len() <= k < self.nodes@[0]@.len() ==> #[trigger] self.nodes@[0]@[k]
                        == H::spec_zero(),
            decreases self.size - self.nodes@[0]@.len(),
        {
            let ghost before = self.nodes@[0]@;
            self.push(zero);
            proof {
                assert(self.nodes@[0]@.take(start.len() as int) =~= before.take(start.len() as int));
            }
        }
        self.update();
        let top = self.levels;
        proof {
            lemma_full_levels::<H>(self.nodes@, self.levels as nat, self.levels as nat);
            lemma_pow2_pos(0);
            assert(pow2(0) == 1) by {
                lemma2_to64();
            }
        }
        self.root = self.nodes[top][0];
        proof {
            lemma_root_of_full::<H>(self.nodes@, self.levels as nat, 0);
        }
    }

    /// Computes, level by level from the leaves up, the parents of every
    /// complete pair of nodes that has none yet, each level in one batch.
    pub fn update(&mut self)
        requires
            old(self).wf(),
        ensures
            final(self).wf(),
            final(self).height() == old(self).height(),
            final(self).capacity() == old(self).capacity(),
            final(self).spec_root() == old(self).spec_root(),
            final(self).leaves() == old(self).leaves(),
            final(self).complete(),
    {
        let mut i: usize = 0;
        while i < self.levels
            invariant
                self.wf(),
                i <= self.levels,
                self.levels == old(self).levels,
                self.size == old(self).size,
                self.root == old(self).root,
                self.nodes@[0]@ == old(self).nodes@[0]@,
                forall|j: int|
                    0 <= j < i ==> #[trigger] self.nodes@[j + 1]@.len() == self.nodes@[j]@.len()
                        / 2,
            decreases self.levels - i,
        {
            let have = self.nodes[i + 1].len();
            let below = self.nodes[i].len();
            if below - 2 * have >= 2 {
                let count = below / 2 - have;
                let mut input: Vec<H::Data> = Vec::new();
                let mut k: usize = 2 * have;
                while k < 2 * (have + count)
                    invariant
                        2 * have <= k <= 2 * (have + count),
                        2 * (have + count) <= below,
                        below == self.nodes@[i as int]@.len(),
                        i < self.nodes@.len(),
                        input@ == self.nodes@[i as int]@.subrange(2 * have as int, k as int),
                    decreases 2 * (have + count) - k,
                {
                    input.push(self.nodes[i][k]);
                    k = k + 1;
                    proof {
                        assert(input@ =~= self.nodes@[i as int]@.subrange(2 * have as int, k as int));
                    }
                }
                let parents = H::batch_evaluate(&input);
                let ghost before = self.nodes@;
                let mut level = self.nodes.remove(i + 1);
                let mut j: usize = 0;
                while j < parents.len()
                    invariant
                        j <= parents@.len(),
                        parents@.len() == count,
                        level@.len() == have + j,
                        level@.take(have as int) == before[i + 1]@,
                        forall|t: int| have <= t < have + j ==> #[trigger] level@[t] == parents@[t - have],
                    decreases parents@.len() - j,
                {
                    level.push(parents[j]);
                    j = j + 1;
                    proof {
                        assert(level@.take(have as int) =~= before[i + 1]@);
                    }
                }
                self.nodes.insert(i + 1, level);
                proof {
                    let lower = before[i as int]@;
                    let new_level = self.nodes@[i + 1]@;
                    assert(new_level =~= pair_hashes::<H>(lower).take(new_level.len() as int)) by {
                        assert forall|t: int| 0 <= t < new_level.len() implies new_level[t]
                            == pair_hashes::<H>(lower)[t] by {
                            if t < have {
                                assert(new_level[t] == before[i + 1]@[t]);
                            } else {
                                assert(new_level[t] == parents@[t - have]);
                                assert(input@[2 * (t - have)] == lower[2 * t]);
                                assert(input@[2 * (t - have) + 1] == lower[2 * t + 1]);
                            }
                        }
                    }
                    assert forall|j2: int| 0 <= j2 < self.levels implies #[trigger] self.nodes@[j2
                        + 1]@ == pair_hashes::<H>(self.nodes@[j2]@).take(
                        self.nodes@[j2 + 1]@.len() as int,
                    ) by {
                        if j2 == i + 1 {
                            assert(self.nodes@[j2 + 1] == before[j2 + 1]);
                            lemma_pair_hashes_prefix::<H>(
                                before[i + 1]@,
                                new_level,
                                self.nodes@[j2 + 1]@.len(),
                            );
                        } else if j2 != i {
                            assert(self.nodes@[j2 + 1] == before[j2 + 1]);
                            assert(self.nodes@[j2] == before[j2]);
                        }
                    }
                    assert forall|j2: int| 0 <= j2 < self.levels implies #[trigger] self.nodes@[j2
                        + 1]@.len() <= self.nodes@[j2]@.len() / 2 by {
                        if j2 == i + 1 {
                            assert(self.nodes@[j2 + 1] == before[j2 + 1]);
                        } else if j2 != i {
                            assert(self.nodes@[j2 + 1] == before[j2 + 1]);
                            assert(self.nodes@[j2] == before[j2]);
                        }
                    }
                    assert forall|j2: int| 0 <= j2 < i + 1 implies #[trigger] self.nodes@[j2
                        + 1]@.len() == self.nodes@[j2]@.len() / 2 by {
                        if j2 < i {
                            assert(self.nodes@[j2 + 1] == before[j2 + 1]);
                            assert(self.nodes@[j2] == before[j2]);
                        }
                    }
                    assert(self.nodes@[0] == before[0]);
                }
            } else {
                proof {
                    assert(self.nodes@[i + 1]@.len() == self.nodes@[i as int]@.len() / 2);
                }
            }
            i = i + 1;
        }
    }
}

/// Lengthening the children keeps the parents already computed.
proof fn lemma_pair_hashes_prefix<H: BatchFieldBasedHash>(s: Seq<H::Data>, t: Seq<H::Data>, n: nat)
    requires
        s.len() <= t.len(),
        t.take(s.len() as int) == s,
        n <= s.len() / 2,
    ensures
        pair_hashes::<H>(s).take(n as int) == pair_hashes::<H>(t).take(n as int),
{
    assert forall|j: int| 0 <= j < n implies pair_hashes::<H>(s)[j] == pair_hashes::<H>(t)[j] by {
        assert(s[2 * j] == t.take(s.len() as int)[2 * j]);
        assert(s[2 * j + 1] == t.take(s.len() as int)[2 * j + 1]);
    }
    assert(pair_hashes::<H>(s).take(n as int) =~= pair_hashes::<H>(t).take(n as int));
}

/// With the leaf level full and every level complete, level `i` holds
/// `2^(h - i)` nodes.
proof fn lemma_full_levels<H: BatchFieldBasedHash>(nodes: Seq<Vec<H::Data>>, h: nat, i: nat)
    requires
        nodes.len() == h + 1,
        i <= h,
        nodes[0]@.len() == pow2(h),
        forall|j: int| 0 <= j < h ==> #[trigger] nodes[j + 1]@.len() == nodes[j]@.len() / 2,
    ensures
        nodes[i as int]@.len() == pow2((h - i) as nat),
    decreases i,
{
    if i > 0 {
        lemma_full_levels::<H>(nodes, h, (i - 1) as nat);
        lemma_pow2_adds((h - i) as nat, 1);
        assert(pow2(1) == 2) by {
            lemma2_to64();
        }
        let j = i - 1;
        assert(nodes[j + 1]@.len() == nodes[j]@.len() / 2);
    }
}

/// The root of the full tree is the one node of the top level.
proof fn lemma_root_of_full<H: BatchFieldBasedHash>(nodes: Seq<Vec<H::Data>>, h: nat, i: nat)
    requires
        nodes.len() == h + 1,
        i <= h,
        nodes[0]@.len() == pow2(h),
        forall|j: int| 0 <= j < h ==> #[trigger] nodes[j + 1]@.len() == nodes[j]@.len() / 2,
        forall|j: int|
            0 <= j < h ==> #[trigger] nodes[j + 1]@ == pair_hashes::<H>(nodes[j]@).take(
                nodes[j + 1]@.len() as int,
            ),
    ensures
        merkle_root::<H>(nodes[i as int]@, (h - i) as nat) == nodes[h as int]@[0],
    decreases h - i,
{
    if i < h {
        lemma_root_of_full::<H>(nodes, h, i + 1);
        let s = nodes[i as int]@;
        assert(nodes[i + 1 as int]@ =~= pair_hashes::<H>(s));
    }
}

} // verus!
