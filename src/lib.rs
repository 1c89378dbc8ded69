use vstd::prelude::*;

verus! {

/// Membership of a codepoint in the bank `mask`: bit `i` of the word is set.
pub open spec fn bit_set(mask: u64, i: u64) -> bool {
    (mask >> i) & 1u64 == 1u64
}

/// The ASCII codepoints, 0 through 127.
pub open spec fn ascii_codes() -> Set<int> {
    Set::new(|c: int| 0 <= c < 128)
}

/// The codepoints from `lo` to `hi`, both included.
pub open spec fn char_range(lo: char, hi: char) -> Set<int> {
    Set::new(|c: int| lo as u32 as int <= c <= hi as u32 as int)
}

/// Or-ing two words sets the bits set in either.
proof fn lemma_bit_or(a: u64, b: u64, i: u64)
    by (bit_vector)
    requires
        i < 64,
    ensures
        bit_set(a | b, i) == (bit_set(a, i) || bit_set(b, i)),
{
}

/// And-ing two words keeps the bits set in both.
proof fn lemma_bit_and(a: u64, b: u64, i: u64)
    by (bit_vector)
    requires
        i < 64,
    ensures
        bit_set(a & b, i) == (bit_set(a, i) && bit_set(b, i)),
{
}

/// Negating a word flips each bit.
proof fn lemma_bit_not(a: u64, i: u64)
    by (bit_vector)
    requires
        i < 64,
    ensures
        bit_set(!a, i) == !bit_set(a, i),
{
}

/// Or-ing in bit `c` sets that bit and leaves the others.
proof fn lemma_bit_insert(a: u64, c: u64, i: u64)
    by (bit_vector)
    requires
        c < 64,
        i < 64,
    ensures
        bit_set(a | (1u64 << c), i) == (bit_set(a, i) || i == c),
{
}

/// Words that agree on their top bit agree once shifted down by 63.
proof fn lemma_top_bit(a: u64, b: u64)
    by (bit_vector)
    requires
        bit_set(a, 63) == bit_set(b, 63),
    ensures
        a >> 63u64 == b >> 63u64,
{
}

/// Extends agreement of two shifted words by one more bit.
proof fn lemma_shift_step(a: u64, b: u64, n: u64)
    by (bit_vector)
    requires
        n < 63,
        a >> ((n + 1) as u64) == b >> ((n + 1) as u64),
        bit_set(a, n) == bit_set(b, n),
    ensures
        a >> n == b >> n,
{
}

proof fn lemma_shift_zero(a: u64)
    by (bit_vector)
    ensures
        a >> 0u64 == a,
{
}

/// The bits of two words at `n` and above agree, so the words shifted by `n` agree.
proof fn lemma_high_bits_agree(a: u64, b: u64, n: u64)
    requires
        n < 64,
        forall|i: u64| i < 64 ==> #[trigger] bit_set(a, i) == bit_set(b, i),
    ensures
        a >> n == b >> n,
    decreases 63 - n,
{
    if n == 63 {
        lemma_top_bit(a, b);
    } else {
        lemma_high_bits_agree(a, b, (n + 1) as u64);
        lemma_shift_step(a, b, n);
    }
}

/// A word is determined by its bits.
proof fn lemma_bits_determine(a: u64, b: u64)
    requires
        forall|i: u64| i < 64 ==> #[trigger] bit_set(a, i) == bit_set(b, i),
    ensures
        a == b,
{
    lemma_high_bits_agree(a, b, 0);
    lemma_shift_zero(a);
    lemma_shift_zero(b);
}

/// Whether codepoint `c` lies in the inclusive range `range`.
pub open spec fn in_range(range: (char, char), c: int) -> bool {
    range.0 as u32 as int <= c <= range.1 as u32 as int
}

/// The codepoints that lie in at least one of `ranges`.
pub open spec fn ranges_cover(ranges: Seq<(char, char)>) -> Set<int> {
    Set::new(|c: int| exists|i: int| 0 <= i < ranges.len() && #[trigger] in_range(ranges[i], c))
}

/// Whether range `i` of `ranges` is the first whose upper end lies outside ASCII.
pub open spec fn first_wide_range(ranges: Seq<(char, char)>, i: int) -> bool {
    &&& 0 <= i < ranges.len()
    &&& ranges[i].1 as u32 >= 128
    &&& forall|j: int| 0 <= j < i ==> (#[trigger] ranges[j]).1 as u32 <= 127
}

/// The codepoints of the chars in `chars`.
pub open spec fn chars_codes(chars: Seq<char>) -> Set<int> {
    Set::new(|c: int| exists|i: int| 0 <= i < chars.len() && (#[trigger] chars[i]) as u32 as int == c)
}

/// Whether char `i` of `chars` is the first that lies outside ASCII.
pub open spec fn first_wide_char(chars: Seq<char>, i: int) -> bool {
    &&& 0 <= i < chars.len()
    &&& chars[i] as u32 >= 128
    &&& forall|j: int| 0 <= j < i ==> (#[trigger] chars[j]) as u32 <= 127
}

/// The high word of the lower case letters `a` to `z`.
pub const LOWER_CASE_HI: u64 = 0b0000011111111111111111111111111000000000000000000000000000000000;

/// The high word of the upper case letters `A` to `Z`.
pub const UPPER_CASE_HI: u64 = 0b0000000000000000000000000000000000000111111111111111111111111110;

/// The low word of the digits `0` to `9`.
pub const DIGITS_LO: u64 = 0b0000001111111111000000000000000000000000000000000000000000000000;

/// The error of an insertion or construction that meets a codepoint outside 0..128.
#[derive(PartialEq, Eq, Structural, Debug, Clone, Copy)]
pub struct InvalidCharacter {
    /// The offending codepoint.
    pub codepoint: u32,
}

/// A subset of the ASCII codepoints 0..128, kept as two 64-bit words.
#[derive(PartialEq, Eq, Structural, Hash, Debug, Clone, Copy)]
pub struct AsciiSet {
    /// Bit `i` is set iff codepoint `i` (0 <= i < 64) is a member.
    pub lo_mask: u64,
    /// Bit `i` is set iff codepoint `i + 64` (0 <= i < 64) is a member.
    pub hi_mask: u64,
}

impl View for AsciiSet {
    type V = Set<int>;

    /// The codepoints that belong to the set.
    open spec fn view(&self) -> Set<int> {
        Set::new(|c: int| self.has(c))
    }
}

impl AsciiSet {
    /// Whether codepoint `c` is a member; never true outside 0..128.
    pub open spec fn has(&self, c: int) -> bool {
        if 0 <= c < 64 {
            bit_set(self.lo_mask, c as u64)
        } else if 64 <= c < 128 {
            bit_set(self.hi_mask, (c - 64) as u64)
        } else {
            false
        }
    }

    /// A set of ASCII codepoints is the view of the set whose words hold its
    /// members bank by bank.
    proof fn lemma_view_by_banks(s: AsciiSet, target: Set<int>)
        requires
            target.subset_of(ascii_codes()),
            forall|i: u64| i < 64 ==> (bit_set(s.lo_mask, i) <==> target.contains(i as int)),
            forall|i: u64|
                i < 64 ==> (bit_set(s.hi_mask, i) <==> target.contains(i as int + 64)),
        ensures
            s@ == target,
    {
        assert forall|x: int| #[trigger] s@.contains(x) == target.contains(x) by {
            if 0 <= x < 64 {
                assert(bit_set(s.lo_mask, x as u64) <==> target.contains(x as u64 as int));
            } else if 64 <= x < 128 {
                let i = (x - 64) as u64;
                assert(bit_set(s.hi_mask, i) <==> target.contains(i as int + 64));
            } else {
                assert(!ascii_codes().contains(x));
            }
        }
        assert(s@ =~= target);
    }

    /// Tests the membership bit of codepoint `c`, reading the low word below 64,
    /// the high word from 64 to 127, and nothing above.
    fn contains(&self, c: u32) -> (r: bool)
        ensures
            r == self@.contains(c as int),
    {
        let mask: u64 = if c < 64 {
            self.lo_mask
        } else if c < 128 {
            self.hi_mask
        } else {
            0
        };
        let r = ((mask >> (c % 64)) & 1) == 1;
        proof {
            if c >= 128 {
                assert(((0u64 >> (c % 64)) & 1) != 1) by (bit_vector);
            }
        }
        r
    }

    /// Tests whether this set contains the char `c`.
    pub fn contains_char(&self, c: char) -> (r: bool)
        ensures
            r == self@.contains(c as u32 as int),
            c as u32 >= 128 ==> !r,
    {
        self.contains(c as u32)
    }

    /// Tests whether this set contains the byte `c`.
    pub fn contains_byte(&self, c: u8) -> (r: bool)
        ensures
            r == self@.contains(c as int),
            c >= 128 ==> !r,
    {
        self.contains(c as u32)
    }

    /// Adds the byte `c`; a byte outside the ASCII range is refused and the set is
    /// left unchanged.
    pub fn insert_byte(&mut self, c: u8) -> (r: Result<(), InvalidCharacter>)
        ensures
            c < 128 ==> r is Ok && final(self)@ == old(self)@.insert(c as int),
            c >= 128 ==> r == Err::<(), InvalidCharacter>(InvalidCharacter { codepoint: c as u32 })
                && *final(self) == *old(self),
    {
        if c >= 128 {
            return Err(InvalidCharacter { codepoint: c as u32 });
        }
        let ghost before = *self;
        if c < 64 {
            self.lo_mask = self.lo_mask | (1u64 << c);
        } else {
            self.hi_mask = self.hi_mask | (1u64 << (c % 64));
        }
        proof {
            assert forall|x: int| #[trigger] self@.contains(x) == before@.insert(c as int).contains(x) by {
                if 0 <= x < 64 {
                    if c < 64 {
                        lemma_bit_insert(before.lo_mask, c as u64, x as u64);
                    }
                } else if 64 <= x < 128 {
                    if c >= 64 {
                        lemma_bit_insert(before.hi_mask, (c % 64) as u64, (x - 64) as u64);
                    }
                }
            }
            assert(self@ =~= before@.insert(c as int));
        }
        Ok(())
    }

    /// Adds the char `c`; a non-ASCII char is refused and the set is left unchanged.
    pub fn insert_char(&mut self, c: char) -> (r: Result<(), InvalidCharacter>)
        ensures
            (c as u32) < 128 ==> r is Ok && final(self)@ == old(self)@.insert(c as u32 as int),
            (c as u32) >= 128 ==> r == Err::<(), InvalidCharacter>(
                InvalidCharacter { codepoint: c as u32 },
            ) && *final(self) == *old(self),
    {
        if c as u32 >= 128 {
            return Err(InvalidCharacter { codepoint: c as u32 });
        }
        self.insert_byte(c as u8)
    }

    /// The union, word by word.
    pub open spec fn spec_union(&self, other: &AsciiSet) -> AsciiSet {
        AsciiSet { lo_mask: self.lo_mask | other.lo_mask, hi_mask: self.hi_mask | other.hi_mask }
    }

    /// The intersection, word by word.
    pub open spec fn spec_intersection(&self, other: &AsciiSet) -> AsciiSet {
        AsciiSet { lo_mask: self.lo_mask & other.lo_mask, hi_mask: self.hi_mask & other.hi_mask }
    }

    /// The complement, word by word.
    pub open spec fn spec_complement(&self) -> AsciiSet {
        AsciiSet { lo_mask: !self.lo_mask, hi_mask: !self.hi_mask }
    }

    /// The difference: the intersection with the complement of `other`.
    pub open spec fn spec_difference(&self, other: &AsciiSet) -> AsciiSet {
        self.spec_intersection(&other.spec_complement())
    }

    /// Returns the union of this set and `other`: both words or-ed.
    #[verifier::when_used_as_spec(spec_union)]
    pub fn union(&self, other: &AsciiSet) -> (r: AsciiSet)
        ensures
            r == self.spec_union(other),
            r@ == self@.union(other@),
    {
        let r = AsciiSet {
            lo_mask: self.lo_mask | other.lo_mask,
            hi_mask: self.hi_mask | other.hi_mask,
        };
        proof {
            assert forall|x: int| #[trigger] r@.contains(x) == self@.union(other@).contains(x) by {
                if 0 <= x < 64 {
                    lemma_bit_or(self.lo_mask, other.lo_mask, x as u64);
                } else if 64 <= x < 128 {
                    lemma_bit_or(self.hi_mask, other.hi_mask, (x - 64) as u64);
                }
            }
            assert(r@ =~= self@.union(other@));
        }
        r
    }

    /// Returns the intersection of this set and `other`: both words and-ed.
    #[verifier::when_used_as_spec(spec_intersection)]
    pub fn intersection(&self, other: &AsciiSet) -> (r: AsciiSet)
        ensures
            r == self.spec_intersection(other),
            r@ == self@.intersect(other@),
    {
        let r = AsciiSet {
            lo_mask: self.lo_mask & other.lo_mask,
            hi_mask: self.hi_mask & other.hi_mask,
        };
        proof {
            assert forall|x: int| #[trigger] r@.contains(x) == self@.intersect(other@).contains(x) by {
                if 0 <= x < 64 {
                    lemma_bit_and(self.lo_mask, other.lo_mask, x as u64);
                } else if 64 <= x < 128 {
                    lemma_bit_and(self.hi_mask, other.hi_mask, (x - 64) as u64);
                }
            }
            assert(r@ =~= self@.intersect(other@));
        }
        r
    }

    /// Returns the set of chars in `self` but not in `other`.
    #[verifier::when_used_as_spec(spec_difference)]
    pub fn difference(&self, other: &AsciiSet) -> (r: AsciiSet)
        ensures
            r == self.spec_difference(other),
            r@ == self@.difference(other@),
    {
        let r = self.intersection(&other.complement());
        assert(r@ =~= self@.difference(other@));
        r
    }

    /// Returns the set of all ASCII chars not in `self`. Both words are negated
    /// whole: every bit stands for a codepoint, so none is left over.
    #[verifier::when_used_as_spec(spec_complement)]
    pub fn complement(&self) -> (r: AsciiSet)
        ensures
            r == self.spec_complement(),
            r@ == ascii_codes().difference(self@),
    {
        let r = AsciiSet { lo_mask: !self.lo_mask, hi_mask: !self.hi_mask };
        proof {
            assert forall|x: int| #[trigger] r@.contains(x) == ascii_codes().difference(self@).contains(x) by {
                if 0 <= x < 64 {
                    lemma_bit_not(self.lo_mask, x as u64);
                } else if 64 <= x < 128 {
                    lemma_bit_not(self.hi_mask, (x - 64) as u64);
                }
            }
            assert(r@ =~= ascii_codes().difference(self@));
        }
        r
    }

    /// Returns the set of all lower case letters.
    pub fn lower_case_letters() -> (r: AsciiSet)
        ensures
            r@ == char_range('a', 'z'),
            r.lo_mask == 0 && r.hi_mask == LOWER_CASE_HI,
    {
        let r = AsciiSet { lo_mask: 0, hi_mask: LOWER_CASE_HI };
        proof {
            assert(forall|i: u64| i < 64 ==> !bit_set(0u64, i)) by (bit_vector);
            assert(forall|i: u64| i < 64 ==> (bit_set(LOWER_CASE_HI, i) <==> 33 <= i <= 58))
                by (bit_vector);
            AsciiSet::lemma_view_by_banks(r, char_range('a', 'z'));
        }
        r
    }

    /// Returns the set of all upper case letters.
    pub fn upper_case_letters() -> (r: AsciiSet)
        ensures
            r@ == char_range('A', 'Z'),
            r.lo_mask == 0 && r.hi_mask == UPPER_CASE_HI,
    {
        let r = AsciiSet { lo_mask: 0, hi_mask: UPPER_CASE_HI };
        proof {
            assert(forall|i: u64| i < 64 ==> !bit_set(0u64, i)) by (bit_vector);
            assert(forall|i: u64| i < 64 ==> (bit_set(UPPER_CASE_HI, i) <==> 1 <= i <= 26))
                by (bit_vector);
            AsciiSet::lemma_view_by_banks(r, char_range('A', 'Z'));
        }
        r
    }

    /// Returns the set of all letters.
    pub fn letters() -> (r: AsciiSet)
        ensures
            r@ == char_range('A', 'Z').union(char_range('a', 'z')),
            r.lo_mask == 0 && r.hi_mask == LOWER_CASE_HI | UPPER_CASE_HI,
    {
        let r = AsciiSet::lower_case_letters().union(&AsciiSet::upper_case_letters());
        assert(r@ =~= char_range('A', 'Z').union(char_range('a', 'z')));
        assert(0u64 | 0u64 == 0) by (bit_vector);
        r
    }

    /// Returns the set of all digits.
    pub fn digits() -> (r: AsciiSet)
        ensures
            r@ == char_range('0', '9'),
            r.lo_mask == DIGITS_LO && r.hi_mask == 0,
    {
        let r = AsciiSet { lo_mask: DIGITS_LO, hi_mask: 0 };
        proof {
            assert(forall|i: u64| i < 64 ==> !bit_set(0u64, i)) by (bit_vector);
            assert(forall|i: u64| i < 64 ==> (bit_set(DIGITS_LO, i) <==> 48 <= i <= 57))
                by (bit_vector);
            AsciiSet::lemma_view_by_banks(r, char_range('0', '9'));
        }
        r
    }

    /// Builds the union of the inclusive ranges `ranges`, taken in order.
    ///
    /// Only the upper end of each range is checked: the first range whose upper end
    /// lies outside ASCII is refused, with that end as the error. A range whose
    /// lower end exceeds its upper end adds nothing.
    pub fn from_ranges(ranges: &[(char, char)]) -> (r: Result<AsciiSet, InvalidCharacter>)
        ensures
            r is Ok <==> forall|i: int| 0 <= i < ranges@.len() ==> (#[trigger] ranges@[i]).1 as u32 <= 127,
            r is Ok ==> r->Ok_0@ == ranges_cover(ranges@),
            r is Err ==> exists|i: int|
                first_wide_range(ranges@, i) && r->Err_0 == (InvalidCharacter {
                    codepoint: ranges@[i].1 as u32,
                }),
    {
        let mut ret = AsciiSet::new();
        let mut i: usize = 0;
        while i < ranges.len()
            invariant
                i <= ranges@.len(),
                forall|j: int| 0 <= j < i ==> (#[trigger] ranges@[j]).1 as u32 <= 127,
                ret@ == ranges_cover(ranges@.take(i as int)),
            decreases ranges@.len() - i,
        {
            let lo = ranges[i].0 as u32;
            let hi = ranges[i].1 as u32;
            if hi >= 128 {
                assert(first_wide_range(ranges@, i as int));
                return Err(InvalidCharacter { codepoint: hi });
            }
            let ghost done = ret@;
            let mut c: u32 = lo;
            while c <= hi
                invariant
                    hi <= 127,
                    lo <= c,
                    lo <= hi ==> c <= hi + 1,
                    hi < lo ==> c == lo,
                    ret@ == done.union(Set::new(|x: int| lo <= x < c)),
                decreases hi + 1 - c,
            {
                let inserted = ret.insert_byte(c as u8);
                assert(inserted is Ok);
                assert(ret@ =~= done.union(Set::new(|x: int| lo <= x < c + 1)));
                c = c + 1;
            }
            proof {
                let prefix = ranges@.take(i as int);
                let next = ranges@.take(i as int + 1);
                assert forall|x: int| #[trigger] ret@.contains(x) == ranges_cover(next).contains(x) by {
                    assert(ret@.contains(x) == (done.contains(x) || in_range(ranges@[i as int], x)));
                    if in_range(ranges@[i as int], x) {
                        assert(in_range(next[i as int], x));
                    }
                    if ranges_cover(prefix).contains(x) {
                        let k = choose|k: int| 0 <= k < prefix.len() && #[trigger] in_range(prefix[k], x);
                        assert(in_range(next[k], x));
                    }
                    if ranges_cover(next).contains(x) {
                        let k = choose|k: int| 0 <= k < next.len() && #[trigger] in_range(next[k], x);
                        if k < i {
                            assert(in_range(prefix[k], x));
                        }
                    }
                }
                assert(ret@ =~= ranges_cover(next));
            }
            i = i + 1;
        }
        assert(ranges@.take(i as int) =~= ranges@);
        Ok(ret)
    }

    /// Builds the set of the codepoints for which `f` holds, asking `f` once for each
    /// ASCII char in ascending order.
    pub fn from_fn<F: Fn(char) -> bool>(f: F) -> (r: AsciiSet)
        requires
            forall|b: u8| b < 128 ==> #[trigger] f.requires((b as char,)),
        ensures
            r@.subset_of(ascii_codes()),
            forall|b: u8|
                #![trigger r@.contains(b as int)]
                #![trigger f.ensures((b as char,), true)]
                #![trigger f.ensures((b as char,), false)]
                b < 128 ==> {
                    &&& r@.contains(b as int) ==> f.ensures((b as char,), true)
                    &&& !r@.contains(b as int) ==> f.ensures((b as char,), false)
                },
    {
        let mut ret = AsciiSet::new();
        let mut b: u8 = 0;
        while b < 128
            invariant
                b <= 128,
                forall|x: u8| x < 128 ==> #[trigger] f.requires((x as char,)),
                ret@.subset_of(Set::new(|x: int| 0 <= x < b)),
                forall|x: u8|
                    #![trigger ret@.contains(x as int)]
                    #![trigger f.ensures((x as char,), true)]
                    #![trigger f.ensures((x as char,), false)]
                    x < b ==> {
                        &&& ret@.contains(x as int) ==> f.ensures((x as char,), true)
                        &&& !ret@.contains(x as int) ==> f.ensures((x as char,), false)
                    },
            decreases 128 - b,
        {
            let ghost before = ret@;
            let keep = f(b as char);
            if keep {
                let inserted = ret.insert_byte(b);
                assert(inserted is Ok);
            }
            proof {
                assert forall|x: u8| x <= b implies {
                    &&& ret@.contains(x as int) ==> f.ensures((x as char,), true)
                    &&& !ret@.contains(x as int) ==> f.ensures((x as char,), false)
                } by {
                    if x < b {
                        assert(ret@.contains(x as int) == before.contains(x as int));
                    }
                }
            }
            b = b + 1;
        }
        ret
    }

    /// Builds the set of the chars in `chars`. The first char outside ASCII is
    /// refused, and is the error.
    pub fn from_chars(chars: &[char]) -> (r: Result<AsciiSet, InvalidCharacter>)
        ensures
            r is Ok <==> forall|i: int| 0 <= i < chars@.len() ==> (#[trigger] chars@[i]) as u32 <= 127,
            r is Ok ==> r->Ok_0@ == chars_codes(chars@),
            r is Err ==> exists|i: int|
                first_wide_char(chars@, i) && r->Err_0 == (InvalidCharacter {
                    codepoint: chars@[i] as u32,
                }),
    {
        let mut ret = AsciiSet::new();
        let mut i: usize = 0;
        while i < chars.len()
            invariant
                i <= chars@.len(),
                forall|j: int| 0 <= j < i ==> (#[trigger] chars@[j]) as u32 <= 127,
                ret@ == chars_codes(chars@.take(i as int)),
            decreases chars@.len() - i,
        {
            let ghost done = ret@;
            let c = chars[i];
            match ret.insert_char(c) {
                Ok(()) => {},
                Err(e) => {
                    assert(first_wide_char(chars@, i as int));
                    return Err(e);
                },
            }
            proof {
                let next = chars@.take(i as int + 1);
                let prefix = chars@.take(i as int);
                assert forall|x: int| #[trigger] ret@.contains(x) == chars_codes(next).contains(x) by {
                    assert(next[i as int] == c);
                    if chars_codes(prefix).contains(x) {
                        let k = choose|k: int| 0 <= k < prefix.len() && (#[trigger] prefix[k]) as u32 as int == x;
                        assert(next[k] == prefix[k]);
                    }
                    if chars_codes(next).contains(x) {
                        let k = choose|k: int| 0 <= k < next.len() && (#[trigger] next[k]) as u32 as int == x;
                        if k < i {
                            assert(next[k] == prefix[k]);
                        }
                    }
                }
                assert(ret@ =~= chars_codes(next));
            }
            i = i + 1;
        }
        assert(chars@.take(i as int) =~= chars@);
        Ok(ret)
    }

    /// Creates a new, empty set.
    pub fn new() -> (r: AsciiSet)
        ensures
            r@ == Set::<int>::empty(),
            r.lo_mask == 0 && r.hi_mask == 0,
    {
        let r = AsciiSet { lo_mask: 0, hi_mask: 0 };
        proof {
            assert forall|i: u64| i < 64 implies !bit_set(0u64, i) by {
                assert(i < 64 ==> (0u64 >> i) & 1u64 != 1u64) by (bit_vector);
            }
            assert(r@ =~= Set::<int>::empty());
        }
        r
    }
}

/// Two sets with the same members are the same value: no bit of either word lies
/// outside the codepoints it stands for.
pub proof fn lemma_view_determines(a: AsciiSet, b: AsciiSet)
    requires
        a@ == b@,
    ensures
        a == b,
{
    assert forall|i: u64| i < 64 implies #[trigger] bit_set(a.lo_mask, i) == bit_set(b.lo_mask, i) by {
        assert(a@.contains(i as int) == b@.contains(i as int));
        assert(a@.contains(i as int) == bit_set(a.lo_mask, i));
        assert(b@.contains(i as int) == bit_set(b.lo_mask, i));
    }
    assert forall|i: u64| i < 64 implies #[trigger] bit_set(a.hi_mask, i) == bit_set(b.hi_mask, i) by {
        assert(a@.contains(i as int + 64) == b@.contains(i as int + 64));
        assert(a@.contains(i as int + 64) == bit_set(a.hi_mask, i));
        assert(b@.contains(i as int + 64) == bit_set(b.hi_mask, i));
    }
    lemma_bits_determine(a.lo_mask, b.lo_mask);
    lemma_bits_determine(a.hi_mask, b.hi_mask);
}

/// The Boolean-algebra identities on single words.
proof fn lemma_word_laws(a: u64, b: u64, c: u64)
    by (bit_vector)
    ensures
        a | b == b | a,
        a & b == b & a,
        (a | b) | c == a | (b | c),
        (a & b) & c == a & (b & c),
        a & (b | c) == (a & b) | (a & c),
        a | (b & c) == (a | b) & (a | c),
        !!a == a,
        !(a | b) == !a & !b,
        !(a & b) == !a | !b,
{
}

/// Union is commutative.
pub proof fn lemma_union_commutative(a: AsciiSet, b: AsciiSet)
    ensures
        a.union(&b) == b.union(&a),
{
    lemma_word_laws(a.lo_mask, b.lo_mask, 0);
    lemma_word_laws(a.hi_mask, b.hi_mask, 0);
}

/// Intersection is commutative.
pub proof fn lemma_intersection_commutative(a: AsciiSet, b: AsciiSet)
    ensures
        a.intersection(&b) == b.intersection(&a),
{
    lemma_word_laws(a.lo_mask, b.lo_mask, 0);
    lemma_word_laws(a.hi_mask, b.hi_mask, 0);
}

/// Union is associative.
pub proof fn lemma_union_associative(a: AsciiSet, b: AsciiSet, c: AsciiSet)
    ensures
        a.union(&b).union(&c) == a.union(&b.union(&c)),
{
    lemma_word_laws(a.lo_mask, b.lo_mask, c.lo_mask);
    lemma_word_laws(a.hi_mask, b.hi_mask, c.hi_mask);
}

/// Intersection is associative.
pub proof fn lemma_intersection_associative(a: AsciiSet, b: AsciiSet, c: AsciiSet)
    ensures
        a.intersection(&b).intersection(&c) == a.intersection(&b.intersection(&c)),
{
    lemma_word_laws(a.lo_mask, b.lo_mask, c.lo_mask);
    lemma_word_laws(a.hi_mask, b.hi_mask, c.hi_mask);
}

/// Intersection distributes over union, and union over intersection.
pub proof fn lemma_distributive(a: AsciiSet, b: AsciiSet, c: AsciiSet)
    ensures
        a.intersection(&b.union(&c)) == a.intersection(&b).union(&a.intersection(&c)),
        a.union(&b.intersection(&c)) == a.union(&b).intersection(&a.union(&c)),
{
    lemma_word_laws(a.lo_mask, b.lo_mask, c.lo_mask);
    lemma_word_laws(a.hi_mask, b.hi_mask, c.hi_mask);
}

/// Taking the complement twice gives back the set, bit for bit.
pub proof fn lemma_complement_involutive(a: AsciiSet)
    ensures
        a.complement().complement() == a,
{
    lemma_word_laws(a.lo_mask, 0, 0);
    lemma_word_laws(a.hi_mask, 0, 0);
}

/// De Morgan's laws: the complement of a union is the intersection of the
/// complements, and the complement of an intersection the union of them.
pub proof fn lemma_de_morgan(a: AsciiSet, b: AsciiSet)
    ensures
        a.union(&b).complement() == a.complement().intersection(&b.complement()),
        a.intersection(&b).complement() == a.complement().union(&b.complement()),
{
    lemma_word_laws(a.lo_mask, b.lo_mask, 0);
    lemma_word_laws(a.hi_mask, b.hi_mask, 0);
}

/// The difference is the intersection with the complement.
pub proof fn lemma_difference_is_intersection_with_complement(a: AsciiSet, b: AsciiSet)
    ensures
        a.difference(&b) == a.intersection(&b.complement()),
{
}

} // verus!
