//! A seeded one-to-one mapping over the digit range, held as a forward table
//! and its inverse.  The seeded construction draws its shuffle positions from
//! a fixed deterministic generator, so the same seed and length always give
//! the same table.

use crate::transform::BlockIdError;
use crate::transform::InvertableTransform;
use rand::RngExt;
use vstd::prelude::*;
use vstd::set_lib::lemma_int_range;
use vstd::set_lib::lemma_subset_equality;
use vstd::set_lib::set_int_range;

verus! {

/// The ladder of shuffle positions that the seeded generator produces for a
/// table of the given length: one draw per index `i`, each in `[i, length)`.
pub uninterp spec fn spec_seed_draws(length: u8, seed: u128) -> Seq<u8>;

/// Relies on `rand_pcg::Pcg64Mcg::new` and `rand::RngExt::random_range`:
/// `Pcg64Mcg` is a deterministic generator whose output is a function of its
/// 128-bit seed alone, and `random_range` over the non-empty range
/// `i..length` returns a value in that range.  So the vector of draws is a
/// function of `length` and `seed`, with each entry in `[i, length)`.
#[verifier::external_body]
fn seeded_draws(length: u8, seed: u128) -> (r: Vec<u8>)
    ensures
        r@ == spec_seed_draws(length, seed),
        r@.len() == length as nat,
        forall|i: int| 0 <= i < length as int ==> i <= #[trigger] r@[i] < length as int,
{
    let mut rng = rand_pcg::Pcg64Mcg::new(seed);
    (0..length).map(|i| rng.random_range(i..length)).collect()
}

/// The identity table over `0..length`.
pub open spec fn spec_identity(length: u8) -> Seq<u8> {
    Seq::new(length as nat, |i: int| i as u8)
}

/// `s` with the entries at `i` and `j` exchanged.
pub open spec fn spec_swap(s: Seq<u8>, i: int, j: u8) -> Seq<u8> {
    s.update(i, s[j as int]).update(j as int, s[i])
}

/// The table after the first `i` steps of the seeded shuffle: step `k` swaps
/// position `k` with the drawn position `draws[k]`.
pub open spec fn spec_fy_prefix(draws: Seq<u8>, length: u8, i: nat) -> Seq<u8>
    decreases i,
{
    if i == 0 {
        spec_identity(length)
    } else {
        spec_swap(spec_fy_prefix(draws, length, (i - 1) as nat), i - 1, draws[i - 1])
    }
}

/// The table that seeded construction builds: a pure function of the length
/// and the seed.
pub open spec fn spec_seeded_table(length: u8, seed: u128) -> Seq<u8> {
    spec_fy_prefix(spec_seed_draws(length, seed), length, length as nat)
}

/// Entry `i` of a prospective table is rejected: either it is not below the
/// table's length, or an earlier entry already holds the same value.
pub open spec fn table_entry_bad(t: Seq<u8>, i: int) -> bool {
    t[i] >= t.len() || exists|k: int| 0 <= k < i && t[k] == t[i]
}

/// The table is a bijection on `0..len`: every entry is in range and no two
/// entries are equal.
pub open spec fn valid_permutation(t: Seq<u8>) -> bool {
    forall|i: int| 0 <= i < t.len() ==> !table_entry_bad(t, i)
}

/// Some entry of `t` holds the value `d`.
pub open spec fn table_hits(t: Seq<u8>, d: int) -> bool {
    exists|k: int| 0 <= k < t.len() && t[k] == d
}

/// A bounded injective table over `0..len` hits every value below its
/// length.
proof fn lemma_bounded_injective_surjective(t: Seq<u8>)
    requires
        forall|i: int| 0 <= i < t.len() ==> (#[trigger] t[i]) < t.len(),
        t.no_duplicates(),
    ensures
        forall|d: int| 0 <= d < t.len() ==> #[trigger] table_hits(t, d),
{
    broadcast use vstd::seq_lib::seq_to_set_is_finite;

    let si = t.map_values(|x: u8| x as int);
    let range = set_int_range(0, t.len() as int);
    assert(si.no_duplicates());
    si.unique_seq_to_set();
    assert(si.to_set().subset_of(range)) by {
        assert forall|e: int| si.to_set().contains(e) implies range.contains(e) by {
            let k = choose|k: int| 0 <= k < si.len() && si[k] == e;
            assert(t[k] < t.len());
        }
    }
    lemma_int_range(0, t.len() as int);
    lemma_subset_equality(si.to_set(), range);
    assert forall|d: int| 0 <= d < t.len() implies #[trigger] table_hits(t, d) by {
        assert(range.contains(d));
        assert(si.to_set().contains(d));
        assert(si.contains(d));
        let k = choose|k: int| 0 <= k < si.len() && si[k] == d;
        assert(t[k] == d);
    }
}

/// Builds the seeded shuffle's table: the identity over `0..length`, then
/// one in-range swap per position.  The result is always a bijection and a
/// pure function of `length` and `seed`.
fn generate_random_permutation(length: u8, seed: u128) -> (r: Vec<u8>)
    ensures
        r@ == spec_seeded_table(length, seed),
        r@.len() == length as nat,
        valid_permutation(r@),
{
    let draws = seeded_draws(length, seed);
    let mut result: Vec<u8> = Vec::new();
    let mut c: u8 = 0;
    while c < length
        invariant
            c <= length,
            result@.len() == c as nat,
            forall|k: int| 0 <= k < c as int ==> result@[k] == k as u8,
        decreases length - c,
    {
        result.push(c);
        c += 1;
    }
    proof {
        assert(result@ =~= spec_identity(length));
    }
    let mut i: usize = 0;
    while i < result.len()
        invariant
            draws@ == spec_seed_draws(length, seed),
            draws@.len() == length as nat,
            forall|k: int| 0 <= k < length as int ==> k <= #[trigger] draws@[k] < length as int,
            result@.len() == length as nat,
            i <= length as nat,
            result@ == spec_fy_prefix(draws@, length, i as nat),
            forall|k: int| 0 <= k < result@.len() ==> (#[trigger] result@[k]) < length,
            result@.no_duplicates(),
        decreases length as int - i,
    {
        let ghost prev = result@;
        let pos = draws[i] as usize;
        let a = result[i];
        let b = result[pos];
        result.set(i, b);
        result.set(pos, a);
        i += 1;
        proof {
            assert(result@ == spec_swap(prev, i - 1, draws@[i - 1]));
            assert(result@ == spec_fy_prefix(draws@, length, i as nat));
            assert forall|x: int, y: int|
                0 <= x < result@.len() && 0 <= y < result@.len() && x != y implies result@[x]
                != result@[y] by {
                assert(prev.no_duplicates());
            }
        }
    }
    proof {
        assert(valid_permutation(result@)) by {
            assert forall|j: int| 0 <= j < result@.len() implies !table_entry_bad(result@, j) by {
                assert(forall|k: int|
                    0 <= k < j ==> result@[k] != result@[j]);
            }
        }
    }
    result
}

/// A one-to-one mapping over `0..len`, with its inverse, applied to single
/// digits.
#[derive(Clone)]
pub struct Permutation {
    pub table: Vec<u8>,
    pub inverse: Vec<u8>,
}

impl Permutation {
    /// The two tables are mutual inverses over `0..len`.
    pub open spec fn wf(&self) -> bool {
        &&& self.inverse@.len() == self.table@.len()
        &&& self.table@.len() <= 255
        &&& forall|i: int|
            0 <= i < self.table@.len() ==> (#[trigger] self.table@[i]) < self.table@.len()
        &&& forall|i: int|
            0 <= i < self.table@.len() ==> self.inverse@[#[trigger] self.table@[i] as int]
                == i as u8
        &&& forall|d: int|
            0 <= d < self.table@.len() ==> (#[trigger] self.inverse@[d]) < self.table@.len()
        &&& forall|d: int|
            0 <= d < self.table@.len() ==> self.table@[#[trigger] self.inverse@[d] as int]
                == d as u8
    }

    /// Validates an explicit forward table and derives its inverse.  Succeeds
    /// exactly when the table is a bijection on `0..len`; otherwise reports
    /// the first offending entry, as `ValueOutOfRange` when it is not below
    /// the length and as `DuplicateValue` when it repeats an earlier value.
    pub fn new(forward: Vec<u8>) -> (r: Result<Self, BlockIdError>)
        requires
            forward@.len() <= 255,
        ensures
            valid_permutation(forward@) ==> (r matches Ok(p) && p.table@ == forward@ && p.wf()),
            !valid_permutation(forward@) ==> (r matches Err(e) && exists|j: int|
                {
                    &&& 0 <= j < forward@.len()
                    &&& #[trigger] table_entry_bad(forward@, j)
                    &&& forall|k: int| 0 <= k < j ==> !table_entry_bad(forward@, k)
                    &&& e == (if forward@[j] >= forward@.len() {
                        BlockIdError::ValueOutOfRange
                    } else {
                        BlockIdError::DuplicateValue
                    })
                }),
    {
        let size_usize = forward.len();
        let size = size_usize as u8;
        let mut inverse: Vec<u8> = Vec::new();
        let mut f: usize = 0;
        while f < size_usize
            invariant
                inverse@.len() == f as nat,
                f <= size_usize,
                forall|d: int| 0 <= d < f as int ==> inverse@[d] == 255u8,
            decreases size_usize - f,
        {
            inverse.push(255u8);
            f += 1;
        }
        let mut i: usize = 0;
        while i < size_usize
            invariant
                size_usize == forward@.len(),
                size_usize <= 255,
                size == size_usize as u8,
                inverse@.len() == size_usize,
                i <= size_usize,
                forall|k: int| 0 <= k < i as int ==> !table_entry_bad(forward@, k),
                forall|k: int| 0 <= k < i as int ==> (#[trigger] forward@[k] as int) < size_usize,
                forall|k: int|
                    0 <= k < i as int ==> inverse@[#[trigger] forward@[k] as int] == k as u8,
                forall|d: int|
                    0 <= d < size_usize as int && (#[trigger] inverse@[d]) != 255u8 ==> exists|
                        k: int,
                    | 0 <= k < i as int && forward@[k] == d as u8,
                forall|d: int|
                    0 <= d < size_usize as int && (exists|k: int|
                        0 <= k < i as int && #[trigger] forward@[k] == d as u8) ==> inverse@[d]
                        != 255u8,
            decreases size_usize - i,
        {
            let v = forward[i];
            if v >= size {
                proof {
                    assert(table_entry_bad(forward@, i as int));
                }
                return Err(BlockIdError::ValueOutOfRange);
            }
            if inverse[v as usize] != 255u8 {
                proof {
                    assert(exists|k: int| 0 <= k < i as int && forward@[k] == v);
                    assert(table_entry_bad(forward@, i as int));
                }
                return Err(BlockIdError::DuplicateValue);
            }
            proof {
                assert(!table_entry_bad(forward@, i as int)) by {
                    if exists|k: int| 0 <= k < i as int && forward@[k] == forward@[i as int] {
                        assert(inverse@[v as int] != 255u8);
                    }
                }
            }
            let ghost prev_inverse = inverse@;
            inverse.set(v as usize, i as u8);
            proof {
                assert forall|k: int| 0 <= k < i as int implies forward@[k] != v by {
                    assert(!table_entry_bad(forward@, i as int));
                }
                assert forall|k: int| 0 <= k < (i + 1) as int implies inverse@[
                    #[trigger] forward@[k] as int
                ] == k as u8 by {
                    if k < i as int {
                        assert(inverse@[forward@[k] as int] == prev_inverse[forward@[k] as int]);
                    }
                }
            }
            i += 1;
        }
        proof {
            let t = forward@;
            assert(t.no_duplicates()) by {
                assert forall|x: int, y: int|
                    0 <= x < t.len() && 0 <= y < t.len() && x != y implies t[x] != t[y] by {
                    if x < y {
                        assert(!table_entry_bad(t, y));
                    } else {
                        assert(!table_entry_bad(t, x));
                    }
                }
            }
            assert forall|ii: int| 0 <= ii < t.len() implies (#[trigger] t[ii]) < t.len() by {
                assert(!table_entry_bad(t, ii));
            }
            lemma_bounded_injective_surjective(t);
            assert forall|d: int| 0 <= d < t.len() implies (inverse@[d] < t.len()
                && t[inverse@[d] as int] == d as u8) by {
                assert(table_hits(t, d));
                let k = choose|k: int| 0 <= k < t.len() && t[k] == d;
                assert(t[k] == d as u8);
                assert(inverse@[d] == k as u8);
            }
        }
        Ok(Permutation { table: forward, inverse })
    }

    /// Builds the table from the deterministic seeded shuffle.  The same
    /// length and seed always produce the same permutation: the result's
    /// table is a pure function of the two arguments.
    pub fn new_from_seed(length: u8, seed: u128) -> (r: Self)
        ensures
            r.wf(),
            r.table@ == spec_seeded_table(length, seed),
            r.table@.len() == length as nat,
    {
        let perm = generate_random_permutation(length, seed);
        match Self::new(perm) {
            Ok(p) => p,
            Err(_) => unreached(),
        }
    }

    /// Maps one digit through the table; `OutOfRange` exactly when the digit
    /// is not below the table's length.
    pub fn forward(&self, v: u8) -> (r: Result<u8, BlockIdError>)
        ensures
            (v as int) < self.table@.len() ==> r == Ok::<u8, BlockIdError>(self.table@[v as int]),
            (v as int) >= self.table@.len() ==> r == Err::<u8, BlockIdError>(
                BlockIdError::OutOfRange,
            ),
    {
        if (v as usize) < self.table.len() {
            Ok(self.table[v as usize])
        } else {
            Err(BlockIdError::OutOfRange)
        }
    }

    /// Maps one digit through the inverse table; `OutOfRange` exactly when
    /// the digit is not below the table's length.
    pub fn backward(&self, v: u8) -> (r: Result<u8, BlockIdError>)
        ensures
            (v as int) < self.inverse@.len() ==> r == Ok::<u8, BlockIdError>(
                self.inverse@[v as int],
            ),
            (v as int) >= self.inverse@.len() ==> r == Err::<u8, BlockIdError>(
                BlockIdError::OutOfRange,
            ),
    {
        if (v as usize) < self.inverse.len() {
            Ok(self.inverse[v as usize])
        } else {
            Err(BlockIdError::OutOfRange)
        }
    }
}

impl InvertableTransform for Permutation {
    type Input = u8;

    type Output = u8;

    open spec fn forward_allowed(&self, input: &u8) -> bool {
        true
    }

    open spec fn backward_allowed(&self, output: &u8) -> bool {
        true
    }

    fn forward(&self, input: u8) -> Result<u8, BlockIdError> {
        Permutation::forward(self, input)
    }

    fn backward(&self, output: u8) -> Result<u8, BlockIdError> {
        Permutation::backward(self, output)
    }
}

} // verus!
