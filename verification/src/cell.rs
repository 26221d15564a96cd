//! One grid position's candidate set, kept as a 9-bit mask: bit `v`
//! (for `1 <= v <= 9`) is set exactly when digit `v` is still possible.

use vstd::prelude::*;
use vstd::string::StringExecFns;

verus! {

/// The mask of a cell about which nothing is known: all nine digits.
pub const FULL_MASK: u16 = 0x3FE;

/// The value of bit `k` of `m`, as a mathematical integer (0 or 1).
pub open spec fn mask_bit(m: u16, k: u16) -> int {
    ((m >> k) & 1) as int
}

/// Digit `v` is a candidate of the mask `m`.
pub open spec fn has_digit(m: u16, v: u8) -> bool {
    1 <= v <= 9 && (m >> (v as u16)) & 1 == 1
}

/// How many digits the mask `m` holds: the cell's entropy.
pub open spec fn candidate_count(m: u16) -> int {
    mask_bit(m, 1) + mask_bit(m, 2) + mask_bit(m, 3) + mask_bit(m, 4) + mask_bit(m, 5)
        + mask_bit(m, 6) + mask_bit(m, 7) + mask_bit(m, 8) + mask_bit(m, 9)
}

/// A well-formed cell mask: no bits outside the digit positions 1..=9,
/// and never empty.
pub open spec fn mask_wf(m: u16) -> bool {
    m & 0xFC01 == 0 && m != 0
}

/// The cell is determined: digit `v` is its only candidate.
pub open spec fn fixed_to(m: u16, v: u8) -> bool {
    candidate_count(m) == 1 && has_digit(m, v)
}

/// Every bit contributes at most one to the count, so a mask holds
/// between zero and nine digits.
pub proof fn lemma_count_bounds(m: u16)
    by (bit_vector)
    ensures
        0 <= candidate_count(m) <= 9,
{
}

/// The full mask is well formed and holds exactly the nine digits.
pub proof fn lemma_full_mask()
    by (bit_vector)
    ensures
        candidate_count(0x3FE) == 9,
        mask_wf(0x3FE),
        forall|v: u8| 1 <= v <= 9 ==> #[trigger] has_digit(0x3FE, v),
{
}

/// A one-bit mask is well formed and holds exactly its digit.
pub proof fn lemma_single_mask(n: u8)
    by (bit_vector)
    requires
        1 <= n <= 9,
    ensures
        candidate_count(1u16 << (n as u16)) == 1,
        mask_wf(1u16 << (n as u16)),
        forall|v: u8| #[trigger] has_digit(1u16 << (n as u16), v) <==> v == n,
{
}

/// A mask that holds some digit is not zero and counts at least one.
pub proof fn lemma_has_count(m: u16, v: u8)
    by (bit_vector)
    requires
        has_digit(m, v),
    ensures
        candidate_count(m) >= 1,
        m != 0,
{
}

/// A well-formed mask holds at least one digit.
pub proof fn lemma_wf_count(m: u16)
    by (bit_vector)
    requires
        mask_wf(m),
    ensures
        candidate_count(m) >= 1,
{
}

/// Clearing bit `n` removes exactly the digit `n`, and lowers the count
/// by one exactly when `n` was held.
pub proof fn lemma_clear_bit(m: u16, n: u8)
    by (bit_vector)
    requires
        1 <= n <= 9,
    ensures
        forall|v: u8| #[trigger] has_digit(m & !(1u16 << (n as u16)), v) <==> has_digit(m, v) && v != n,
        candidate_count(m & !(1u16 << (n as u16))) == candidate_count(m) - mask_bit(
            m,
            n as u16,
        ),
        has_digit(m, n) ==> mask_bit(m, n as u16) == 1,
        !has_digit(m, n) ==> mask_bit(m, n as u16) == 0,
        m & 0xFC01 == 0 ==> (m & !(1u16 << (n as u16))) & 0xFC01 == 0,
{
}

/// Setting bit `n` adds exactly the digit `n`, and raises the count by
/// one exactly when `n` was absent.
pub proof fn lemma_set_bit(m: u16, n: u8)
    by (bit_vector)
    requires
        1 <= n <= 9,
    ensures
        forall|v: u8| #[trigger] has_digit(m | (1u16 << (n as u16)), v) <==> has_digit(m, v) || v == n,
        candidate_count(m | (1u16 << (n as u16))) == candidate_count(m) + 1 - mask_bit(
            m,
            n as u16,
        ),
        has_digit(m | (1u16 << (n as u16)), n),
        m & 0xFC01 == 0 ==> (m | (1u16 << (n as u16))) & 0xFC01 == 0,
{
}

/// A mask with a count of at least one is not zero.
pub proof fn lemma_count_pos(m: u16)
    by (bit_vector)
    ensures
        candidate_count(m) >= 1 ==> m != 0,
{
}

/// A well-formed singleton mask is determined by its digit.
pub proof fn lemma_fixed_mask(m: u16, v: u8)
    by (bit_vector)
    requires
        m & 0xFC01 == 0,
        candidate_count(m) == 1,
        has_digit(m, v),
    ensures
        m == 1u16 << (v as u16),
{
}

/// A determined mask holds some digit.
pub proof fn lemma_determined_digit(m: u16)
    requires
        candidate_count(m) == 1,
    ensures
        exists|v: u8| fixed_to(m, v),
{
    lemma_term_bounds(m);
    if (m >> 1) & 1 == 1 {
        assert(fixed_to(m, 1u8));
    } else if (m >> 2) & 1 == 1 {
        assert(fixed_to(m, 2u8));
    } else if (m >> 3) & 1 == 1 {
        assert(fixed_to(m, 3u8));
    } else if (m >> 4) & 1 == 1 {
        assert(fixed_to(m, 4u8));
    } else if (m >> 5) & 1 == 1 {
        assert(fixed_to(m, 5u8));
    } else if (m >> 6) & 1 == 1 {
        assert(fixed_to(m, 6u8));
    } else if (m >> 7) & 1 == 1 {
        assert(fixed_to(m, 7u8));
    } else if (m >> 8) & 1 == 1 {
        assert(fixed_to(m, 8u8));
    } else if (m >> 9) & 1 == 1 {
        assert(fixed_to(m, 9u8));
    } else {
        assert(candidate_count(m) == 0);
        assert(false);
    }
}

/// A singleton mask holds one digit only.
pub proof fn lemma_fixed_unique(m: u16, a: u8, b: u8)
    by (bit_vector)
    requires
        candidate_count(m) == 1,
        has_digit(m, a),
        has_digit(m, b),
    ensures
        a == b,
{
}

/// The nine bit extractions of the count are each zero or one.
proof fn lemma_term_bounds(m: u16)
    by (bit_vector)
    ensures
        (m >> 1) & 1 <= 1,
        (m >> 2) & 1 <= 1,
        (m >> 3) & 1 <= 1,
        (m >> 4) & 1 <= 1,
        (m >> 5) & 1 <= 1,
        (m >> 6) & 1 <= 1,
        (m >> 7) & 1 <= 1,
        (m >> 8) & 1 <= 1,
        (m >> 9) & 1 <= 1,
{
}

/// The glyph a candidate grid shows for digit `d` of mask `m`: the
/// digit itself while it is still possible, a dot once it is excluded.
pub open spec fn glyph(m: u16, d: u8) -> char {
    if has_digit(m, d) {
        crate::text::digit_char(d as int)
    } else {
        '\u{b7}'
    }
}

/// The 3x3 debugging view of a mask: its nine digit positions, each
/// followed by a space, three to a line.
pub open spec fn candidates_grid(m: u16) -> Seq<char> {
    seq![
        glyph(m, 1),
        ' ',
        glyph(m, 2),
        ' ',
        glyph(m, 3),
        ' ',
        '\n',
        glyph(m, 4),
        ' ',
        glyph(m, 5),
        ' ',
        glyph(m, 6),
        ' ',
        '\n',
        glyph(m, 7),
        ' ',
        glyph(m, 8),
        ' ',
        glyph(m, 9),
        ' ',
        '\n',
    ]
}

/// One grid position: the set of digits it could still take.
#[derive(Clone, Copy, Debug, PartialEq, Eq, Structural)]
pub struct GridCell {
    mask: u16,
}

impl View for GridCell {
    type V = u16;

    closed spec fn view(&self) -> u16 {
        self.mask
    }
}

impl GridCell {
    /// A cell with all nine candidates.
    pub fn new() -> (r: GridCell)
        ensures
            r@ == FULL_MASK,
            mask_wf(r@),
            candidate_count(r@) == 9,
            forall|v: u8| 1 <= v <= 9 ==> #[trigger] has_digit(r@, v),
    {
        proof {
            lemma_full_mask();
        }
        GridCell { mask: FULL_MASK }
    }

    /// A cell already collapsed to the single digit `n`.
    pub fn new_collapsed(n: u8) -> (r: GridCell)
        requires
            1 <= n <= 9,
        ensures
            r@ == 1u16 << (n as u16),
            fixed_to(r@, n),
            mask_wf(r@),
            forall|v: u8| #[trigger] has_digit(r@, v) <==> v == n,
    {
        proof {
            lemma_single_mask(n);
        }
        let sh: u16 = n as u16;
        GridCell { mask: 1u16 << sh }
    }

    /// A cell holding exactly the digits listed in `values`.
    pub fn from(values: Vec<u8>) -> (r: GridCell)
        requires
            values@.len() >= 1,
            forall|k: int| 0 <= k < values@.len() ==> 1 <= #[trigger] values@[k] <= 9,
        ensures
            forall|v: u8| #[trigger] has_digit(r@, v) <==> values@.contains(v),
            mask_wf(r@),
    {
        let mut mask: u16 = 0;
        let mut i: usize = 0;
        proof {
            assert(forall|v: u8| !(#[trigger] has_digit(0u16, v))) by (bit_vector);
            assert(0u16 & 0xFC01 == 0) by (bit_vector);
        }
        while i < values.len()
            invariant
                0 <= i <= values@.len(),
                forall|k: int| 0 <= k < values@.len() ==> 1 <= #[trigger] values@[k] <= 9,
                forall|v: u8|
                    #[trigger] has_digit(mask, v) <==> (exists|k: int|
                        0 <= k < i && values@[k] == v),
                mask & 0xFC01 == 0,
            decreases values@.len() - i,
        {
            let n = values[i];
            proof {
                lemma_set_bit(mask, n);
            }
            let sh: u16 = n as u16;
            mask = mask | (1u16 << sh);
            i = i + 1;
            proof {
                assert forall|v: u8| #[trigger] has_digit(mask, v) implies (exists|k: int|
                    0 <= k < i && values@[k] == v) by {
                    if v == n {
                        assert(values@[i as int - 1] == v);
                    } else {
                        let k = choose|k: int| 0 <= k < i - 1 && values@[k] == v;
                        assert(0 <= k < i && values@[k] == v);
                    }
                }
                assert forall|v: u8|
                    (exists|k: int| 0 <= k < i && values@[k] == v) implies #[trigger] has_digit(
                    mask,
                    v,
                ) by {
                    let k = choose|k: int| 0 <= k < i && values@[k] == v;
                    if k == i - 1 {
                        assert(v == n);
                    } else {
                        assert(exists|k2: int| 0 <= k2 < i - 1 && values@[k2] == v);
                    }
                }
            }
        }
        proof {
            assert(values@.contains(values@[0]));
            lemma_has_count(mask, values@[0]);
        }
        GridCell { mask }
    }

    /// Re-inserts digit `n` into the candidate set; reports whether the
    /// set changed, that is, whether `n` was absent before.
    pub fn allow(&mut self, n: u8) -> (r: bool)
        requires
            1 <= n <= 9,
            mask_wf(old(self)@),
        ensures
            r == !has_digit(old(self)@, n),
            mask_wf(final(self)@),
            forall|v: u8| #[trigger] has_digit(final(self)@, v) <==> has_digit(old(self)@, v) || v == n,
            candidate_count(final(self)@) == candidate_count(old(self)@) + (
            if has_digit(old(self)@, n) {
                0int
            } else {
                1int
            }),
    {
        proof {
            lemma_set_bit(self.mask, n);
            lemma_clear_bit(self.mask, n);
            lemma_has_count(self.mask | (1u16 << (n as u16)), n);
        }
        let sh: u16 = n as u16;
        let had = (self.mask >> sh) & 1 == 1;
        self.mask = self.mask | (1u16 << sh);
        !had
    }

    /// Removes digit `n` from the candidate set.
    ///
    /// On a cell already fixed to `n` this is a contradiction: the
    /// result is `Err` carrying the fixed digit, and nothing changes.
    /// On a cell fixed to another digit it is a harmless no-op,
    /// `Ok(false)`. Otherwise the digit is removed and the result is
    /// `Ok(true)` exactly when the set changed. A determined cell is
    /// never altered, and the set never becomes empty.
    pub fn deny(&mut self, n: u8) -> (r: Result<bool, u8>)
        requires
            1 <= n <= 9,
            mask_wf(old(self)@),
        ensures
            mask_wf(final(self)@),
            forall|v: u8| #[trigger] has_digit(final(self)@, v) ==> has_digit(old(self)@, v),
            candidate_count(old(self)@) == 1 ==> final(self)@ == old(self)@,
            fixed_to(old(self)@, n) ==> r == Err::<bool, u8>(n),
            candidate_count(old(self)@) == 1 && !has_digit(old(self)@, n) ==> r == Ok::<
                bool,
                u8,
            >(false),
            candidate_count(old(self)@) >= 2 ==> {
                &&& final(self)@ == (old(self)@ & !(1u16 << (n as u16)))
                &&& r == Ok::<bool, u8>(has_digit(old(self)@, n))
                &&& (forall|v: u8|
                    #[trigger] has_digit(final(self)@, v) <==> has_digit(old(self)@, v) && v != n)
                &&& candidate_count(final(self)@) == candidate_count(old(self)@) - (
                if has_digit(old(self)@, n) {
                    1int
                } else {
                    0int
                })
            },
    {
        proof {
            lemma_wf_count(self.mask);
            lemma_clear_bit(self.mask, n);
            lemma_count_pos(self.mask & !(1u16 << (n as u16)));
        }
        let e = self.entropy();
        let sh: u16 = n as u16;
        if e == 1 {
            if (self.mask >> sh) & 1 == 1 {
                Err(n)
            } else {
                Ok(false)
            }
        } else {
            let had = (self.mask >> sh) & 1 == 1;
            self.mask = self.mask & !(1u16 << sh);
            Ok(had)
        }
    }

    /// How many candidates remain: the cell's entropy.
    pub fn entropy(&self) -> (r: u8)
        ensures
            r as int == candidate_count(self@),
    {
        proof {
            lemma_term_bounds(self.mask);
        }
        let m = self.mask;
        let e: u16 = ((m >> 1) & 1) + ((m >> 2) & 1) + ((m >> 3) & 1) + ((m >> 4) & 1) + ((m >> 5)
            & 1) + ((m >> 6) & 1) + ((m >> 7) & 1) + ((m >> 8) & 1) + ((m >> 9) & 1);
        e as u8
    }

    /// Appends the glyph for digit `d`, followed by a space.
    fn push_glyph(&self, s: &mut String, d: u8)
        requires
            1 <= d <= 9,
        ensures
            final(s)@ == old(s)@ + seq![glyph(self@, d), ' '],
    {
        let sh: u16 = d as u16;
        if (self.mask >> sh) & 1 == 1 {
            crate::text::push_digit(s, d);
            proof {
                reveal_strlit(" ");
                assert(" "@ =~= seq![' ']);
            }
            s.append(" ");
            proof {
                assert(s@ =~= old(s)@ + seq![glyph(self@, d), ' ']);
            }
        } else {
            proof {
                reveal_strlit("\u{b7} ");
                assert("\u{b7} "@ =~= seq![glyph(self@, d), ' ']);
            }
            s.append("\u{b7} ");
        }
    }

    /// Renders the cell's remaining candidates as a 3x3 grid, for
    /// debugging: each digit still possible shows itself, each excluded
    /// digit a dot.
    pub fn render_candidates(&self) -> (r: String)
        ensures
            r@ == candidates_grid(self@),
    {
        let mut s = String::new();
        proof {
            reveal_strlit("\n");
            assert("\n"@ =~= seq!['\n']);
        }
        self.push_glyph(&mut s, 1);
        self.push_glyph(&mut s, 2);
        self.push_glyph(&mut s, 3);
        s.append("\n");
        self.push_glyph(&mut s, 4);
        self.push_glyph(&mut s, 5);
        self.push_glyph(&mut s, 6);
        s.append("\n");
        self.push_glyph(&mut s, 7);
        self.push_glyph(&mut s, 8);
        self.push_glyph(&mut s, 9);
        s.append("\n");
        proof {
            assert(s@ =~= candidates_grid(self@));
        }
        s
    }

    /// The unique remaining digit of a determined cell, or `None` while
    /// the cell still holds several candidates.
    pub fn determined_value(&self) -> (r: Option<u8>)
        ensures
            (candidate_count(self@) == 1) <==> (r is Some),
            match r {
                Some(v) => fixed_to(self@, v),
                None => candidate_count(self@) != 1,
            },
    {
        proof {
            lemma_term_bounds(self.mask);
        }
        let e = self.entropy();
        if e != 1 {
            None
        } else {
            let m = self.mask;
            if (m >> 1) & 1 == 1 {
                Some(1)
            } else if (m >> 2) & 1 == 1 {
                Some(2)
            } else if (m >> 3) & 1 == 1 {
                Some(3)
            } else if (m >> 4) & 1 == 1 {
                Some(4)
            } else if (m >> 5) & 1 == 1 {
                Some(5)
            } else if (m >> 6) & 1 == 1 {
                Some(6)
            } else if (m >> 7) & 1 == 1 {
                Some(7)
            } else if (m >> 8) & 1 == 1 {
                Some(8)
            } else {
                proof {
                    assert((m >> 9) & 1 == 1);
                }
                Some(9)
            }
        }
    }
}

} // verus!
