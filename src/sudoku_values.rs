use vstd::prelude::*;
use vstd::string::*;

verus! {

/// Nine membership bits over the digits 1 to 9: bit `i` stands for digit `i + 1`.
///
/// A cell uses it as its candidate set (the digit is still possible there); a row,
/// column or subgrid uses it as its presence set (the digit is already placed there).
#[derive(Clone, Copy)]
pub struct SudokuValues {
    pub values: [bool; 9],
}

/// The decimal text of a number from 0 to 9.
pub open spec fn digit_text(v: int) -> Seq<char> {
    if v == 0 {
        "0"@
    } else if v == 1 {
        "1"@
    } else if v == 2 {
        "2"@
    } else if v == 3 {
        "3"@
    } else if v == 4 {
        "4"@
    } else if v == 5 {
        "5"@
    } else if v == 6 {
        "6"@
    } else if v == 7 {
        "7"@
    } else if v == 8 {
        "8"@
    } else {
        "9"@
    }
}

/// The decimal text of a number from 0 to 9.
pub fn digit_str(v: usize) -> (r: &'static str)
    requires
        v <= 9,
    ensures
        r@ == digit_text(v as int),
{
    if v == 0 {
        "0"
    } else if v == 1 {
        "1"
    } else if v == 2 {
        "2"
    } else if v == 3 {
        "3"
    } else if v == 4 {
        "4"
    } else if v == 5 {
        "5"
    } else if v == 6 {
        "6"
    } else if v == 7 {
        "7"
    } else if v == 8 {
        "8"
    } else {
        "9"
    }
}

impl SudokuValues {
    /// The digits of the first `n` set bits, each followed by `", "`.
    pub open spec fn list_text_upto(&self, n: int) -> Seq<char>
        decreases n,
    {
        if n <= 0 {
            Seq::empty()
        } else {
            self.list_text_upto(n - 1) + if self.has(n - 1) { digit_text(n) + ", "@ } else { Seq::empty() }
        }
    }

    /// The set as text: `Cell Data: [` and the digits of its set bits, each followed by
    /// `", "`, then `]`.
    pub open spec fn text(&self) -> Seq<char> {
        "Cell Data: ["@ + self.list_text_upto(9) + "]"@
    }

    /// Renders the set as `text` describes.
    pub fn to_text(&self) -> (r: String)
        ensures
            r@ == self.text(),
    {
        let mut s = String::new();
        s.append("Cell Data: [");
        for i in 0..9usize
            invariant
                s@ == "Cell Data: ["@ + self.list_text_upto(i as int),
        {
            if self.values[i] {
                s.append(digit_str(i + 1));
                s.append(", ");
            }
            assert(s@ =~= "Cell Data: ["@ + self.list_text_upto(i + 1));
        }
        s.append("]");
        s
    }

    /// Whether bit `i` is set.
    pub open spec fn has(&self, i: int) -> bool {
        self.values@[i]
    }

    /// How many of the first `n` bits are set.
    pub open spec fn count_upto(&self, n: int) -> nat
        decreases n,
    {
        if n <= 0 {
            0
        } else {
            self.count_upto(n - 1) + if self.has(n - 1) { 1nat } else { 0nat }
        }
    }

    /// How many of the nine bits are set.
    pub open spec fn count(&self) -> nat {
        self.count_upto(9)
    }

    /// A set with all nine bits equal to `init_val`: all open for a fresh cell
    /// (`true`), all absent for a fresh unit (`false`).
    pub fn new(init_val: bool) -> (r: Self)
        ensures
            forall|i: int| 0 <= i < 9 ==> r.has(i) == init_val,
    {
        SudokuValues { values: [init_val; 9] }
    }

    /// Reads bit `i`.
    pub fn get(&self, i: usize) -> (r: bool)
        requires
            i < 9,
        ensures
            r == self.has(i as int),
    {
        self.values[i]
    }

    /// Writes bit `i`, leaving the others as they were.
    pub fn set(&mut self, i: usize, b: bool)
        requires
            i < 9,
        ensures
            final(self).values@ == old(self).values@.update(i as int, b),
    {
        self.values[i] = b;
    }
}

/// A set with no bit set counts none.
pub proof fn lemma_count_none(s: SudokuValues, n: int)
    requires
        0 <= n <= 9,
        forall|e: int| 0 <= e < 9 ==> !#[trigger] s.has(e),
    ensures
        s.count_upto(n) == 0,
    decreases n,
{
    if n > 0 {
        lemma_count_none(s, n - 1);
    }
}

/// Two set bits below `n` make the count at least two, one makes it at least one.
pub proof fn lemma_count_at_least(s: SudokuValues, a: int, b: int, n: int)
    requires
        0 <= a < n <= 9,
        s.has(a),
    ensures
        s.count_upto(n) >= 1,
        a < b < n && s.has(b) ==> s.count_upto(n) >= 2,
    decreases n,
{
    lemma_count_upto_mono(s, a + 1, n);
    if a < b < n && s.has(b) {
        lemma_count_upto_mono(s, b + 1, n);
        lemma_count_upto_mono(s, a + 1, b);
    }
}

/// Counting set bits over a longer prefix never gives less.
pub proof fn lemma_count_upto_mono(s: SudokuValues, n: int, m: int)
    requires
        0 <= n <= m,
    ensures
        s.count_upto(n) <= s.count_upto(m),
    decreases m - n,
{
    if n < m {
        lemma_count_upto_mono(s, n, m - 1);
    }
}

} // verus!
