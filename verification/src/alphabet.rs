//! A bijection between small integers ("digits") and output symbols: an
//! ordered, duplicate-free list of up to 255 symbols with positional lookup
//! in both directions.

use crate::transform::BlockIdError;
use crate::transform::InvertableTransform;
use vstd::prelude::*;

verus! {

/// A value usable as an output symbol: copyable, with an executable equality
/// test that agrees with mathematical equality.
pub trait Symbol: Sized + Copy {
    /// Decides whether two symbols are the same value.
    fn same(&self, other: &Self) -> (r: bool)
        ensures
            r <==> self == other,
    ;
}

impl Symbol for char {
    fn same(&self, other: &Self) -> bool {
        *self == *other
    }
}

impl Symbol for u8 {
    fn same(&self, other: &Self) -> bool {
        *self == *other
    }
}

impl Symbol for u16 {
    fn same(&self, other: &Self) -> bool {
        *self == *other
    }
}

impl Symbol for u32 {
    fn same(&self, other: &Self) -> bool {
        *self == *other
    }
}

impl Symbol for u64 {
    fn same(&self, other: &Self) -> bool {
        *self == *other
    }
}

/// Some symbol occurs twice in `s`.
pub open spec fn spec_has_dup<T>(s: Seq<T>) -> bool {
    exists|i: int, j: int| #![trigger s[i], s[j]] 0 <= i < j < s.len() && s[i] == s[j]
}

/// The position of the first occurrence of `x` in `s`, or `-1` when absent.
pub open spec fn spec_find<T>(s: Seq<T>, x: T) -> int
    decreases s.len(),
{
    if s.len() == 0 {
        -1
    } else if s[0] == x {
        0
    } else {
        let r = spec_find(s.drop_first(), x);
        if r < 0 {
            -1
        } else {
            r + 1
        }
    }
}

/// What `spec_find` promises: an in-range first occurrence, or absence.
pub proof fn lemma_find_props<T>(s: Seq<T>, x: T)
    ensures
        -1 <= spec_find(s, x) < s.len(),
        spec_find(s, x) >= 0 ==> s[spec_find(s, x)] == x && (forall|k: int|
            0 <= k < spec_find(s, x) ==> s[k] != x),
        spec_find(s, x) < 0 ==> (forall|k: int| 0 <= k < s.len() ==> s[k] != x),
    decreases s.len(),
{
    if s.len() > 0 && s[0] != x {
        let d = s.drop_first();
        lemma_find_props(d, x);
        assert(forall|k: int| 0 <= k < d.len() ==> #[trigger] d[k] == s[k + 1]);
        let r1 = spec_find(d, x);
        if r1 >= 0 {
            assert(spec_find(s, x) == r1 + 1);
            assert(s[r1 + 1] == d[r1]);
            assert forall|k: int| 0 <= k < r1 + 1 implies s[k] != x by {
                if k > 0 {
                    assert(d[k - 1] != x);
                }
            }
        } else {
            assert(spec_find(s, x) == -1);
            assert forall|k: int| 0 <= k < s.len() implies s[k] != x by {
                if k > 0 {
                    assert(d[k - 1] != x);
                }
            }
        }
    }
}

/// Law: in a duplicate-free list, looking a symbol up by value gives back
/// the position it was taken from.
pub proof fn lemma_find_index<T>(s: Seq<T>, i: int)
    requires
        !spec_has_dup(s),
        0 <= i < s.len(),
    ensures
        spec_find(s, s[i]) == i,
{
    lemma_find_props(s, s[i]);
    let f = spec_find(s, s[i]);
    assert(f >= 0);
    if f < i {
        assert(s[f] == s[i]);
        assert(spec_has_dup(s));
    }
}

/// Law (alphabet bijectivity): in a well-formed alphabet, looking up the
/// symbol at any in-range position gives that position back.  Out-of-range
/// positions and unknown symbols are covered by the contracts of `forward`
/// and `backward`: both fail exactly there.
pub proof fn lemma_alphabet_round_trip<T: Symbol>(a: Alphabet<T>, i: int)
    requires
        a.wf(),
        0 <= i < a.symbols@.len(),
    ensures
        spec_find(a.symbols@, a.symbols@[i]) == i,
{
    lemma_find_index(a.symbols@, i);
}

/// An ordered, duplicate-free set of symbols; position is the digit value.
#[derive(Clone)]
pub struct Alphabet<T: Symbol> {
    pub symbols: Vec<T>,
}

impl<T: Symbol> Alphabet<T> {
    /// No duplicate symbol, and few enough that a digit fits in a byte.
    pub open spec fn wf(&self) -> bool {
        self.symbols@.len() <= 255 && !spec_has_dup(self.symbols@)
    }

    /// Builds an alphabet from a list of symbols.  Fails with
    /// `AlphabetTooLarge` when more than 255 symbols are supplied, and with
    /// `DuplicateSymbol` when a symbol repeats; succeeds otherwise.
    pub fn new(alphabet: &[T]) -> (r: Result<Self, BlockIdError>)
        ensures
            alphabet@.len() > 255 ==> r == Err::<Self, BlockIdError>(BlockIdError::AlphabetTooLarge),
            alphabet@.len() <= 255 && spec_has_dup(alphabet@) ==> r == Err::<Self, BlockIdError>(
                BlockIdError::DuplicateSymbol,
            ),
            alphabet@.len() <= 255 && !spec_has_dup(alphabet@) ==> (r matches Ok(a) && a.symbols@
                == alphabet@ && a.wf()),
    {
        if alphabet.len() > 255 {
            return Err(BlockIdError::AlphabetTooLarge);
        }
        let mut symbols: Vec<T> = Vec::new();
        let mut i: usize = 0;
        while i < alphabet.len()
            invariant
                i <= alphabet@.len(),
                symbols@ == alphabet@.take(i as int),
            decreases alphabet@.len() - i,
        {
            let s = alphabet[i];
            proof {
                assert(alphabet@.take(i + 1) =~= alphabet@.take(i as int).push(alphabet@[i as int]));
            }
            symbols.push(s);
            i += 1;
        }
        proof {
            assert(symbols@ =~= alphabet@);
        }
        let mut i: usize = 1;
        while i < symbols.len()
            invariant
                symbols@ == alphabet@,
                alphabet@.len() <= 255,
                1 <= i,
                forall|x: int, y: int|
                    #![trigger symbols@[x], symbols@[y]]
                    0 <= x < y < i as int && y < symbols@.len() ==> symbols@[x] != symbols@[y],
            decreases symbols@.len() - i,
        {
            let mut j: usize = 0;
            while j < i
                invariant
                    symbols@ == alphabet@,
                    alphabet@.len() <= 255,
                    j <= i < symbols@.len(),
                    forall|x: int, y: int|
                        #![trigger symbols@[x], symbols@[y]]
                        0 <= x < y < i as int ==> symbols@[x] != symbols@[y],
                    forall|x: int| 0 <= x < j as int ==> symbols@[x] != symbols@[i as int],
                decreases i - j,
            {
                if symbols[j].same(&symbols[i]) {
                    proof {
                        assert(symbols@[j as int] == symbols@[i as int]);
                        assert(spec_has_dup(symbols@));
                    }
                    return Err(BlockIdError::DuplicateSymbol);
                }
                j += 1;
            }
            i += 1;
        }
        Ok(Alphabet { symbols })
    }

    /// How many symbols the alphabet holds; also the radix of the pipeline
    /// built on it.
    pub fn len(&self) -> (r: u8)
        requires
            self.wf(),
        ensures
            r as nat == self.symbols@.len(),
    {
        self.symbols.len() as u8
    }

    /// The symbol at a digit's position; `OutOfRange` exactly when the digit
    /// is not below the alphabet's length.
    pub fn forward(&self, index: u8) -> (r: Result<T, BlockIdError>)
        ensures
            (index as int) < self.symbols@.len() ==> r == Ok::<T, BlockIdError>(
                self.symbols@[index as int],
            ),
            (index as int) >= self.symbols@.len() ==> r == Err::<T, BlockIdError>(
                BlockIdError::OutOfRange,
            ),
    {
        if (index as usize) < self.symbols.len() {
            Ok(self.symbols[index as usize])
        } else {
            Err(BlockIdError::OutOfRange)
        }
    }

    /// The position of a symbol; `UnknownSymbol` exactly when the symbol is
    /// absent from the alphabet.
    pub fn backward(&self, value: T) -> (r: Result<u8, BlockIdError>)
        requires
            self.wf(),
        ensures
            spec_find(self.symbols@, value) >= 0 ==> r == Ok::<u8, BlockIdError>(
                spec_find(self.symbols@, value) as u8,
            ),
            spec_find(self.symbols@, value) < 0 ==> r == Err::<u8, BlockIdError>(
                BlockIdError::UnknownSymbol,
            ),
    {
        proof {
            lemma_find_props(self.symbols@, value);
        }
        let mut j: usize = 0;
        while j < self.symbols.len()
            invariant
                self.wf(),
                j <= self.symbols@.len(),
                forall|k: int| 0 <= k < j as int ==> self.symbols@[k] != value,
            decreases self.symbols@.len() - j,
        {
            if self.symbols[j].same(&value) {
                proof {
                    lemma_find_props(self.symbols@, value);
                    assert(spec_find(self.symbols@, value) == j as int) by {
                        lemma_find_index(self.symbols@, j as int);
                    }
                }
                return Ok(j as u8);
            }
            j += 1;
        }
        proof {
            lemma_find_props(self.symbols@, value);
            assert(spec_find(self.symbols@, value) < 0) by {
                if spec_find(self.symbols@, value) >= 0 {
                    assert(self.symbols@[spec_find(self.symbols@, value)] == value);
                }
            }
        }
        Err(BlockIdError::UnknownSymbol)
    }
}

/// The character code at each position of the full alphanumeric alphabet:
/// the ten decimal digits, then the lowercase letters, then the uppercase
/// letters.
pub open spec fn spec_alphanumeric_code(i: int) -> int {
    if i < 10 {
        48 + i
    } else if i < 36 {
        87 + i
    } else {
        29 + i
    }
}

/// The character at position `i` of the full alphanumeric alphabet.
fn alphanumeric_symbol(i: usize) -> (c: char)
    requires
        i < 62,
    ensures
        c as int == spec_alphanumeric_code(i as int),
{
    let code: u8 = if i < 10 {
        48 + (i as u8)
    } else if i < 36 {
        87 + (i as u8)
    } else {
        29 + (i as u8)
    };
    code as char
}

/// No two positions of the alphanumeric code table coincide.
proof fn lemma_alphanumeric_code_injective(i: int, j: int)
    requires
        0 <= i < j < 62,
    ensures
        spec_alphanumeric_code(i) != spec_alphanumeric_code(j),
{
}

fn alphanumeric_prefix(count: usize) -> (r: Alphabet<char>)
    requires
        count <= 62,
    ensures
        r.wf(),
        r.symbols@.len() == count as nat,
        forall|i: int|
            0 <= i < count as int ==> (#[trigger] r.symbols@[i] as int) == spec_alphanumeric_code(
                i,
            ),
{
    let mut v: Vec<char> = Vec::new();
    let mut i: usize = 0;
    while i < count
        invariant
            count <= 62,
            v@.len() == i as nat,
            i <= count,
            forall|k: int| 0 <= k < i as int ==> (#[trigger] v@[k] as int) == spec_alphanumeric_code(k),
        decreases count - i,
    {
        v.push(alphanumeric_symbol(i));
        i += 1;
    }
    proof {
        assert(!spec_has_dup(v@)) by {
            assert forall|x: int, y: int|
                #![trigger v@[x], v@[y]]
                0 <= x < y < v@.len() implies v@[x] != v@[y] by {
                lemma_alphanumeric_code_injective(x, y);
            }
        }
    }
    match Alphabet::new(v.as_slice()) {
        Ok(a) => a,
        Err(_) => unreached(),
    }
}

impl Alphabet<char> {
    /// The 62-symbol alphabet of decimal digits, lowercase letters and
    /// uppercase letters.
    pub fn alphanumeric() -> (r: Alphabet<char>)
        ensures
            r.wf(),
            r.symbols@.len() == 62,
            forall|i: int|
                0 <= i < 62 ==> (#[trigger] r.symbols@[i] as int) == spec_alphanumeric_code(i),
    {
        alphanumeric_prefix(62)
    }

    /// The 36-symbol alphabet of decimal digits and lowercase letters.
    pub fn lowercase_alphanumeric() -> (r: Alphabet<char>)
        ensures
            r.wf(),
            r.symbols@.len() == 36,
            forall|i: int|
                0 <= i < 36 ==> (#[trigger] r.symbols@[i] as int) == spec_alphanumeric_code(i),
    {
        alphanumeric_prefix(36)
    }

    /// The 26-symbol alphabet of lowercase letters only.
    pub fn lowercase_alpha() -> (r: Alphabet<char>)
        ensures
            r.wf(),
            r.symbols@.len() == 26,
            forall|i: int| 0 <= i < 26 ==> (#[trigger] r.symbols@[i] as int) == 97 + i,
    {
        let mut v: Vec<char> = Vec::new();
        let mut i: usize = 0;
        while i < 26
            invariant
                v@.len() == i as nat,
                i <= 26,
                forall|k: int| 0 <= k < i as int ==> (#[trigger] v@[k] as int) == 97 + k,
            decreases 26 - i,
        {
            let code: u8 = 97 + (i as u8);
            v.push(code as char);
            i += 1;
        }
        proof {
            assert(!spec_has_dup(v@)) by {
                assert forall|x: int, y: int|
                    #![trigger v@[x], v@[y]]
                    0 <= x < y < v@.len() implies v@[x] != v@[y] by {
                    assert(v@[x] as int != v@[y] as int);
                }
            }
        }
        match Alphabet::new(v.as_slice()) {
            Ok(a) => a,
            Err(_) => unreached(),
        }
    }
}

impl<T: Symbol> InvertableTransform for Alphabet<T> {
    type Input = u8;

    type Output = T;

    open spec fn forward_allowed(&self, input: &u8) -> bool {
        true
    }

    open spec fn backward_allowed(&self, output: &T) -> bool {
        self.wf()
    }

    fn forward(&self, input: u8) -> Result<T, BlockIdError> {
        Alphabet::forward(self, input)
    }

    fn backward(&self, output: T) -> Result<u8, BlockIdError> {
        Alphabet::backward(self, output)
    }
}

} // verus!
