//! Deterministic, seeded, reversible mapping between `u64` values and short
//! opaque identifiers over a caller-chosen alphabet.
//!
//! An identifier is produced by decomposing the number into digits of the
//! alphabet's radix, running a fixed number of diffusion rounds (seeded digit
//! permutation, modular cascade, cyclic rotation), and mapping each digit to
//! its symbol.  Decoding mirrors every step exactly, so decoding an encoded
//! number always gives the number back.
//!
//! Two conventions are fixed and load-bearing for interoperability: the
//! number is base-converted directly, with no offset (zero maps to the
//! all-zero digit sequence), and the seeded shuffle always draws from the
//! PCG generator `Pcg64Mcg`, so a seed produces the same permutation on
//! every run and platform.

use vstd::prelude::*;

pub mod add_mod;
pub mod alphabet;
pub mod base;
pub mod cascade;
pub mod permutation;
pub mod permute;
pub mod rotate;
pub mod transform;

pub use alphabet::Alphabet;
pub use alphabet::Symbol;
pub use base::BaseConversion;
pub use cascade::Cascade;
pub use permutation::Permutation;
pub use permute::Permute;
pub use rotate::Rotate;
pub use transform::BlockIdError;
pub use transform::InvertableTransform;

use crate::alphabet::lemma_find_index;
use crate::alphabet::spec_find;
use crate::base::lemma_be_val_left_pad;
use crate::base::lemma_to_digits_in_range;
use crate::base::lemma_to_digits_val;
use crate::base::spec_base_digits;
use crate::base::spec_be_val;
use crate::base::spec_left_pad;
use crate::base::spec_to_digits;
use crate::cascade::digits_in_range;
use crate::cascade::lemma_cascade_round_trip;
use crate::cascade::spec_cascade_backward;
use crate::cascade::spec_cascade_forward;
use crate::permutation::spec_seeded_table;
use crate::permute::below;
use crate::permute::lemma_permute_round_trip;
use crate::permute::spec_apply_table;
use crate::rotate::lemma_rotate_round_trip;
use crate::rotate::spec_rotate_left;
use crate::rotate::spec_rotate_right;
use vstd::string::StrSliceExecFns;
use vstd::string::StringExecFns;

verus! {

/// One diffusion round: permute every digit, cascade, rotate left.
pub open spec fn spec_round(s: Seq<u8>, radix: u8, table: Seq<u8>) -> Seq<u8> {
    spec_rotate_left(spec_cascade_forward(spec_apply_table(s, table), radix, 0))
}

/// `k` diffusion rounds.
pub open spec fn spec_rounds(s: Seq<u8>, radix: u8, table: Seq<u8>, k: nat) -> Seq<u8>
    decreases k,
{
    if k == 0 {
        s
    } else {
        spec_round(spec_rounds(s, radix, table, (k - 1) as nat), radix, table)
    }
}

/// One inverse round: rotate right, undo the cascade, undo the permutation.
pub open spec fn spec_unround(s: Seq<u8>, radix: u8, inverse: Seq<u8>) -> Seq<u8> {
    spec_apply_table(spec_cascade_backward(spec_rotate_right(s), radix, 0), inverse)
}

/// `k` inverse rounds, applied to the given sequence in order.
pub open spec fn spec_unrounds(s: Seq<u8>, radix: u8, inverse: Seq<u8>, k: nat) -> Seq<u8>
    decreases k,
{
    if k == 0 {
        s
    } else {
        spec_unrounds(spec_unround(s, radix, inverse), radix, inverse, (k - 1) as nat)
    }
}

/// Every digit mapped to its symbol.
pub open spec fn spec_map_symbols<T>(s: Seq<u8>, symbols: Seq<T>) -> Seq<T> {
    Seq::new(s.len(), |i: int| symbols[s[i] as int])
}

/// Every symbol mapped back to its position in the alphabet.
pub open spec fn spec_unmap_symbols<T>(v: Seq<T>, symbols: Seq<T>) -> Seq<u8> {
    Seq::new(v.len(), |i: int| spec_find(symbols, v[i]) as u8)
}

/// Every symbol of `v` occurs in the alphabet.
pub open spec fn spec_all_known<T>(v: Seq<T>, symbols: Seq<T>) -> bool {
    forall|i: int| 0 <= i < v.len() ==> spec_find(symbols, #[trigger] v[i]) >= 0
}

proof fn lemma_cascade_forward_props(s: Seq<u8>, base: u8, last: u8)
    requires
        digits_in_range(s, base),
        last < base,
    ensures
        spec_cascade_forward(s, base, last).len() == s.len(),
        digits_in_range(spec_cascade_forward(s, base, last), base),
    decreases s.len(),
{
    if s.len() > 0 {
        let d = (((s[0] + last) % (base as int)) as u8);
        assert(0 <= (s[0] + last) % (base as int) < base as int) by {
            vstd::arithmetic::div_mod::lemma_mod_division_less_than_divisor(
                s[0] + last,
                base as int,
            );
        }
        lemma_cascade_forward_props(s.drop_first(), base, d);
        assert forall|i: int|
            0 <= i < spec_cascade_forward(s, base, last).len() implies spec_cascade_forward(
            s,
            base,
            last,
        )[i] < base by {
            if i > 0 {
                assert(spec_cascade_forward(s, base, last)[i] == spec_cascade_forward(
                    s.drop_first(),
                    base,
                    d,
                )[i - 1]);
            }
        }
    }
}

proof fn lemma_round_props(s: Seq<u8>, radix: u8, p: Permutation)
    requires
        p.wf(),
        p.table@.len() == radix as nat,
        radix >= 1,
        digits_in_range(s, radix),
    ensures
        spec_round(s, radix, p.table@).len() == s.len(),
        digits_in_range(spec_round(s, radix, p.table@), radix),
{
    let mapped = spec_apply_table(s, p.table@);
    assert(digits_in_range(mapped, radix));
    lemma_cascade_forward_props(mapped, radix, 0);
    let c = spec_cascade_forward(mapped, radix, 0);
    assert forall|i: int|
        0 <= i < spec_rotate_left(c).len() implies spec_rotate_left(c)[i] < radix by {
        if c.len() > 1 {
            if i < c.len() - 1 {
                assert(spec_rotate_left(c)[i] == c[i + 1]);
            } else {
                assert(spec_rotate_left(c)[i] == c[0]);
            }
        }
    }
}

proof fn lemma_rounds_props(s: Seq<u8>, radix: u8, p: Permutation, k: nat)
    requires
        p.wf(),
        p.table@.len() == radix as nat,
        radix >= 1,
        digits_in_range(s, radix),
    ensures
        spec_rounds(s, radix, p.table@, k).len() == s.len(),
        digits_in_range(spec_rounds(s, radix, p.table@, k), radix),
    decreases k,
{
    if k > 0 {
        lemma_rounds_props(s, radix, p, (k - 1) as nat);
        lemma_round_props(spec_rounds(s, radix, p.table@, (k - 1) as nat), radix, p);
    }
}

proof fn lemma_one_round_trip(s: Seq<u8>, radix: u8, p: Permutation)
    requires
        p.wf(),
        p.table@.len() == radix as nat,
        radix >= 2,
        digits_in_range(s, radix),
    ensures
        spec_unround(spec_round(s, radix, p.table@), radix, p.inverse@) == s,
{
    let mapped = spec_apply_table(s, p.table@);
    assert(digits_in_range(mapped, radix));
    let c = spec_cascade_forward(mapped, radix, 0);
    lemma_rotate_round_trip(c);
    lemma_cascade_round_trip(mapped, radix);
    assert(below(s, p.table@.len() as int));
    lemma_permute_round_trip(p, s);
}

proof fn lemma_rounds_round_trip(s: Seq<u8>, radix: u8, p: Permutation, k: nat)
    requires
        p.wf(),
        p.table@.len() == radix as nat,
        radix >= 2,
        digits_in_range(s, radix),
    ensures
        spec_unrounds(spec_rounds(s, radix, p.table@, k), radix, p.inverse@, k) == s,
    decreases k,
{
    if k > 0 {
        let x = spec_rounds(s, radix, p.table@, (k - 1) as nat);
        lemma_rounds_props(s, radix, p, (k - 1) as nat);
        lemma_one_round_trip(x, radix, p);
        lemma_rounds_round_trip(s, radix, p, (k - 1) as nat);
    }
}

proof fn lemma_unrounds_snoc(s: Seq<u8>, radix: u8, inverse: Seq<u8>, k: nat)
    ensures
        spec_unrounds(s, radix, inverse, k + 1) == spec_unround(
            spec_unrounds(s, radix, inverse, k),
            radix,
            inverse,
        ),
    decreases k,
{
    if k == 0 {
        assert(spec_unrounds(s, radix, inverse, 1) == spec_unrounds(
            spec_unround(s, radix, inverse),
            radix,
            inverse,
            0,
        ));
    } else {
        lemma_unrounds_snoc(spec_unround(s, radix, inverse), radix, inverse, (k - 1) as nat);
    }
}

/// Law (round trip): for every well-formed mapping and every `u64`, the
/// decoding pipeline applied to the encoding pipeline's output recognises
/// every symbol and recovers exactly the encoded number.  Together with the
/// contracts of `encode` and `decode`, this says
/// `decode(encode(n)) == Ok(n)` for all `n`.
pub proof fn lemma_encode_decode_round_trip<T: Symbol>(b: BlockId<T>, n: u64)
    requires
        b.wf(),
    ensures
        spec_all_known(b.spec_encode(n), b.alphabet.symbols@),
        spec_be_val(b.spec_decode_digits(b.spec_encode(n)), b.base_convert.radix) == n,
{
    let radix = b.base_convert.radix;
    let table = b.permute.permutation.table@;
    let symbols = b.alphabet.symbols@;
    let digits = spec_base_digits(n, radix, b.base_convert.min_length);
    let core = spec_to_digits(n as nat, radix);
    lemma_to_digits_in_range(n as nat, radix);
    assert(digits_in_range(digits, radix)) by {
        assert forall|i: int| 0 <= i < digits.len() implies digits[i] < radix by {
            if core.len() < b.base_convert.min_length as nat {
                let pad = b.base_convert.min_length as int - core.len() as int;
                if i >= pad {
                    assert(digits[i] == core[i - pad]);
                } else {
                    assert(digits[i] == 0u8);
                }
            }
        }
    }
    let k = digits.len();
    let rounded = spec_rounds(digits, radix, table, k);
    lemma_rounds_props(digits, radix, b.permute.permutation, k);
    let v = spec_map_symbols(rounded, symbols);
    assert forall|i: int| 0 <= i < v.len() implies spec_find(symbols, #[trigger] v[i])
        == rounded[i] by {
        lemma_find_index(symbols, rounded[i] as int);
    }
    assert(spec_unmap_symbols(v, symbols) =~= rounded);
    lemma_rounds_round_trip(digits, radix, b.permute.permutation, k);
    assert(b.spec_decode_digits(v) == digits);
    lemma_be_val_left_pad(core, radix, b.base_convert.min_length as nat);
    lemma_to_digits_val(n as nat, radix);
}

/// Represents a specific, deterministic two-way mapping between `u64` values
/// and opaque identifiers.
///
/// For `BlockId<char>`, additional functionality is provided for mapping
/// between `u64`s and `String`s.
#[derive(Clone)]
pub struct BlockId<T: Symbol> {
    pub alphabet: Alphabet<T>,
    pub base_convert: BaseConversion,
    pub cascade: Cascade,
    pub rotate: Rotate<u8>,
    pub permute: Permute,
}

impl<T: Symbol> BlockId<T> {
    /// All stages share the alphabet's radix, and the permutation really is
    /// one.
    pub open spec fn wf(&self) -> bool {
        &&& self.alphabet.wf()
        &&& self.alphabet.symbols@.len() >= 2
        &&& self.base_convert.radix as nat == self.alphabet.symbols@.len()
        &&& self.cascade.radix == self.base_convert.radix
        &&& self.permute.permutation.wf()
        &&& self.permute.permutation.table@.len() == self.alphabet.symbols@.len()
    }

    /// What encoding `n` produces: base digits, one diffusion round per
    /// digit, then symbols.
    pub open spec fn spec_encode(&self, n: u64) -> Seq<T> {
        let digits = spec_base_digits(n, self.base_convert.radix, self.base_convert.min_length);
        spec_map_symbols(
            spec_rounds(
                digits,
                self.base_convert.radix,
                self.permute.permutation.table@,
                digits.len(),
            ),
            self.alphabet.symbols@,
        )
    }

    /// The digit sequence that decoding recovers before the final base
    /// evaluation: symbols back to digits, then one inverse round per digit.
    pub open spec fn spec_decode_digits(&self, v: Seq<T>) -> Seq<u8> {
        spec_unrounds(
            spec_unmap_symbols(v, self.alphabet.symbols@),
            self.base_convert.radix,
            self.permute.permutation.inverse@,
            v.len(),
        )
    }

    /// Construct a block ID mapping.  Mappings are deterministic based on
    /// the three parameters passed at construction: the alphabet, seed, and
    /// minimum length.
    pub fn new(alphabet: Alphabet<T>, seed: u128, min_length: u8) -> (r: Self)
        requires
            alphabet.wf(),
            alphabet.symbols@.len() >= 2,
        ensures
            r.wf(),
            r.alphabet == alphabet,
            r.base_convert.min_length == min_length,
            r.permute.permutation.table@ == spec_seeded_table(
                (alphabet.symbols@.len() as u8),
                seed,
            ),
    {
        let base = alphabet.len();
        let base_convert = BaseConversion::new_with_min_length(base, min_length);
        let cascade = Cascade::new(base);
        let rotate = Rotate::new();
        let permute = Permute::new_from_seed(base, seed);

        BlockId { alphabet, base_convert, cascade, rotate, permute }
    }

    /// Runs the whole encoding pipeline.  Never fails for a well-formed
    /// mapping: every `u64` has an identifier.
    pub fn forward(&self, v: u64) -> (r: Result<Vec<T>, BlockIdError>)
        requires
            self.wf(),
        ensures
            r matches Ok(o) && o@ == self.spec_encode(v),
    {
        let ghost radix = self.base_convert.radix;
        let ghost table = self.permute.permutation.table@;
        let mut digits = self.base_convert.forward(v);
        let ghost d0 = digits@;
        let rounds = digits.len();
        let mut i: usize = 0;
        while i < rounds
            invariant
                self.wf(),
                radix == self.base_convert.radix,
                table == self.permute.permutation.table@,
                rounds == d0.len(),
                digits_in_range(d0, radix),
                i <= rounds,
                digits@ == spec_rounds(d0, radix, table, i as nat),
                digits@.len() == d0.len(),
                digits_in_range(digits@, radix),
            decreases rounds - i,
        {
            proof {
                lemma_round_props(digits@, radix, self.permute.permutation);
            }
            let ghost before = digits@;
            let permuted = match self.permute.forward(digits) {
                Ok(x) => x,
                Err(_) => unreached(),
            };
            let cascaded = match self.cascade.forward(permuted) {
                Ok(x) => x,
                Err(_) => unreached(),
            };
            digits = self.rotate.forward(cascaded);
            i += 1;
            proof {
                assert(digits@ == spec_round(before, radix, table));
            }
        }
        let mut out: Vec<T> = Vec::new();
        let mut j: usize = 0;
        while j < digits.len()
            invariant
                self.wf(),
                digits_in_range(digits@, self.base_convert.radix),
                j <= digits@.len(),
                out@.len() == j as nat,
                forall|k: int|
                    0 <= k < j as int ==> out@[k]
                        == self.alphabet.symbols@[(#[trigger] digits@[k]) as int],
            decreases digits@.len() - j,
        {
            let d = digits[j];
            match self.alphabet.forward(d) {
                Ok(c) => {
                    out.push(c);
                },
                Err(_) => {
                    proof {
                        assert((d as int) < self.alphabet.symbols@.len());
                    }
                    unreached()
                },
            }
            j += 1;
        }
        proof {
            assert(out@ =~= spec_map_symbols(digits@, self.alphabet.symbols@));
        }
        Ok(out)
    }

    /// Encode a given `u64` into an opaque identifier.
    #[inline]
    pub fn encode(&self, v: u64) -> (r: Result<Vec<T>, BlockIdError>)
        requires
            self.wf(),
        ensures
            r matches Ok(o) && o@ == self.spec_encode(v),
    {
        self.forward(v)
    }

    /// Runs the whole decoding pipeline, the exact mirror of `forward`.
    /// Fails with `UnknownSymbol` when some symbol is not in the alphabet;
    /// fails with `Overflow` when the recovered digit sequence denotes a
    /// number too large for `u64`; returns that number otherwise.
    pub fn backward(&self, v: Vec<T>) -> (r: Result<u64, BlockIdError>)
        requires
            self.wf(),
        ensures
            !spec_all_known(v@, self.alphabet.symbols@) ==> r == Err::<u64, BlockIdError>(
                BlockIdError::UnknownSymbol,
            ),
            spec_all_known(v@, self.alphabet.symbols@) && spec_be_val(
                self.spec_decode_digits(v@),
                self.base_convert.radix,
            ) <= u64::MAX ==> r == Ok::<u64, BlockIdError>(
                spec_be_val(self.spec_decode_digits(v@), self.base_convert.radix) as u64,
            ),
            spec_all_known(v@, self.alphabet.symbols@) && spec_be_val(
                self.spec_decode_digits(v@),
                self.base_convert.radix,
            ) > u64::MAX ==> r == Err::<u64, BlockIdError>(BlockIdError::Overflow),
    {
        let ghost radix = self.base_convert.radix;
        let ghost inverse = self.permute.permutation.inverse@;
        let ghost symbols = self.alphabet.symbols@;
        let mut digits: Vec<u8> = Vec::new();
        let mut j: usize = 0;
        while j < v.len()
            invariant
                self.wf(),
                symbols == self.alphabet.symbols@,
                radix == self.base_convert.radix,
                j <= v@.len(),
                digits@.len() == j as nat,
                forall|k: int| 0 <= k < j as int ==> spec_find(symbols, #[trigger] v@[k]) >= 0,
                forall|k: int|
                    0 <= k < j as int ==> (#[trigger] digits@[k]) as int == spec_find(
                        symbols,
                        v@[k],
                    ),
                digits_in_range(digits@, radix),
            decreases v@.len() - j,
        {
            let c = v[j];
            match self.alphabet.backward(c) {
                Ok(d) => {
                    proof {
                        crate::alphabet::lemma_find_props(symbols, v@[j as int]);
                    }
                    digits.push(d);
                },
                Err(e) => {
                    proof {
                        assert(spec_find(symbols, v@[j as int]) < 0);
                        assert(!spec_all_known(v@, symbols));
                    }
                    return Err(e);
                },
            }
            j += 1;
        }
        proof {
            assert(spec_all_known(v@, symbols));
            assert(digits@ =~= spec_unmap_symbols(v@, symbols));
        }
        let ghost d0 = digits@;
        let rounds = digits.len();
        let mut i: usize = 0;
        while i < rounds
            invariant
                self.wf(),
                radix == self.base_convert.radix,
                inverse == self.permute.permutation.inverse@,
                rounds == d0.len(),
                digits_in_range(d0, radix),
                i <= rounds,
                digits@ == spec_unrounds(d0, radix, inverse, i as nat),
                digits@.len() == d0.len(),
                digits_in_range(digits@, radix),
            decreases rounds - i,
        {
            let ghost before = digits@;
            let rotated = self.rotate.backward(digits);
            proof {
                assert forall|k: int|
                    0 <= k < spec_rotate_right(before).len() implies spec_rotate_right(
                    before,
                )[k] < radix by {
                    if before.len() > 1 {
                        if k == 0 {
                            assert(spec_rotate_right(before)[0] == before.last());
                        } else {
                            assert(spec_rotate_right(before)[k] == before[k - 1]);
                        }
                    }
                }
            }
            let uncascaded = match self.cascade.backward(rotated) {
                Ok(x) => x,
                Err(_) => unreached(),
            };
            digits = match self.permute.backward(uncascaded) {
                Ok(x) => x,
                Err(_) => unreached(),
            };
            i += 1;
            proof {
                assert(digits@ == spec_unround(before, radix, inverse));
                lemma_unrounds_snoc(d0, radix, inverse, (i - 1) as nat);
            }
        }
        self.base_convert.backward(digits)
    }


    /// A short human-readable description of this mapping.
    pub fn description(&self) -> (r: String)
        requires
            self.wf(),
        ensures
            r@ == "BlockId with alphabet size "@ + spec_u8_decimal(
                (self.alphabet.symbols@.len() as u8),
            ),
    {
        let digits = u8_decimal(self.alphabet.len());
        let suffix = chars_to_string(&digits);
        let prefix = String::from_str("BlockId with alphabet size ");
        prefix.concat(suffix.as_str())
    }

    /// Decode a `u64` back out of an opaque identifier.
    #[inline]
    pub fn decode(&self, v: Vec<T>) -> (r: Result<u64, BlockIdError>)
        requires
            self.wf(),
        ensures
            !spec_all_known(v@, self.alphabet.symbols@) ==> r == Err::<u64, BlockIdError>(
                BlockIdError::UnknownSymbol,
            ),
            spec_all_known(v@, self.alphabet.symbols@) && spec_be_val(
                self.spec_decode_digits(v@),
                self.base_convert.radix,
            ) <= u64::MAX ==> r == Ok::<u64, BlockIdError>(
                spec_be_val(self.spec_decode_digits(v@), self.base_convert.radix) as u64,
            ),
            spec_all_known(v@, self.alphabet.symbols@) && spec_be_val(
                self.spec_decode_digits(v@),
                self.base_convert.radix,
            ) > u64::MAX ==> r == Err::<u64, BlockIdError>(BlockIdError::Overflow),
    {
        self.backward(v)
    }
}

impl<T: Symbol> InvertableTransform for BlockId<T> {
    type Input = u64;

    type Output = Vec<T>;

    open spec fn forward_allowed(&self, input: &u64) -> bool {
        self.wf()
    }

    open spec fn backward_allowed(&self, output: &Vec<T>) -> bool {
        self.wf()
    }

    fn forward(&self, input: u64) -> Result<Vec<T>, BlockIdError> {
        BlockId::forward(self, input)
    }

    fn backward(&self, output: Vec<T>) -> Result<u64, BlockIdError> {
        BlockId::backward(self, output)
    }
}

/// Relies on `String`'s `FromIterator<char>` implementation: collecting
/// characters in order yields the string of exactly those characters.
#[verifier::external_body]
fn chars_to_string(v: &Vec<char>) -> (r: String)
    ensures
        r@ == v@,
{
    v.iter().collect()
}

/// The decimal character of a single digit value.
pub open spec fn spec_digit_char(d: int) -> char {
    (48 + d) as char
}

/// The decimal text of a byte value, without leading zeros.
pub open spec fn spec_u8_decimal(n: u8) -> Seq<char> {
    if n >= 100 {
        seq![
            spec_digit_char(n as int / 100),
            spec_digit_char((n as int / 10) % 10),
            spec_digit_char(n as int % 10),
        ]
    } else if n >= 10 {
        seq![spec_digit_char(n as int / 10), spec_digit_char(n as int % 10)]
    } else {
        seq![spec_digit_char(n as int)]
    }
}

/// Renders a byte value in decimal.
fn u8_decimal(n: u8) -> (r: Vec<char>)
    ensures
        r@ == spec_u8_decimal(n),
{
    let mut r: Vec<char> = Vec::new();
    if n >= 100 {
        r.push((48 + n / 100) as char);
        r.push((48 + (n / 10) % 10) as char);
        r.push((48 + n % 10) as char);
        proof {
            assert(r@ =~= spec_u8_decimal(n));
        }
    } else if n >= 10 {
        r.push((48 + n / 10) as char);
        r.push((48 + n % 10) as char);
        proof {
            assert(r@ =~= spec_u8_decimal(n));
        }
    } else {
        r.push((48 + n) as char);
        proof {
            assert(r@ =~= spec_u8_decimal(n));
        }
    }
    r
}

/// For the special case of `BlockId<char>`, helper encoders/decoders that
/// use strings rather than vectors are provided.
impl BlockId<char> {
    /// Encode a `u64` into an opaque string.
    pub fn encode_string(&self, v: u64) -> (r: String)
        requires
            self.wf(),
        ensures
            r@ == self.spec_encode(v),
    {
        let symbols = match self.forward(v) {
            Ok(s) => s,
            Err(_) => unreached(),
        };
        chars_to_string(&symbols)
    }

    /// Decode a `u64` from an opaque string.  Fails with `UnknownSymbol`
    /// when some character is not in the alphabet, and with `Overflow` when
    /// the recovered digits denote a number too large for `u64`.
    pub fn decode_string(&self, v: &str) -> (r: Result<u64, BlockIdError>)
        requires
            self.wf(),
        ensures
            !spec_all_known(v@, self.alphabet.symbols@) ==> r == Err::<u64, BlockIdError>(
                BlockIdError::UnknownSymbol,
            ),
            spec_all_known(v@, self.alphabet.symbols@) && spec_be_val(
                self.spec_decode_digits(v@),
                self.base_convert.radix,
            ) <= u64::MAX ==> r == Ok::<u64, BlockIdError>(
                spec_be_val(self.spec_decode_digits(v@), self.base_convert.radix) as u64,
            ),
            spec_all_known(v@, self.alphabet.symbols@) && spec_be_val(
                self.spec_decode_digits(v@),
                self.base_convert.radix,
            ) > u64::MAX ==> r == Err::<u64, BlockIdError>(BlockIdError::Overflow),
    {
        let n = v.unicode_len();
        let mut chars: Vec<char> = Vec::new();
        let mut i: usize = 0;
        while i < n
            invariant
                n == v@.len(),
                i <= n,
                chars@ == v@.take(i as int),
            decreases n - i,
        {
            let c = v.get_char(i);
            chars.push(c);
            i += 1;
            proof {
                assert(chars@ =~= v@.take(i as int));
            }
        }
        proof {
            assert(chars@ =~= v@);
        }
        self.backward(chars)
    }
}

} // verus!
