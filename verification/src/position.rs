//! The position tracker: maps positions in the source to 1-based
//! (line, column) pairs for diagnostics. The index of line starts is built
//! once per input and is read-only thereafter.

use vstd::prelude::*;

verus! {

/// Number of line breaks in `s[0..i]`.
pub open spec fn count_newlines(s: Seq<char>, i: int) -> int
    decreases i
        when 0 <= i <= s.len()
{
    if i <= 0 {
        0
    } else {
        count_newlines(s, i - 1) + if s[i - 1] == '\n' {
            1int
        } else {
            0int
        }
    }
}

/// Start of the line containing position `i`: the greatest position at most
/// `i` that is `0` or follows a line break.
pub open spec fn line_start(s: Seq<char>, i: int) -> int
    decreases i
        when 0 <= i <= s.len()
{
    if i <= 0 {
        0
    } else if s[i - 1] == '\n' {
        i
    } else {
        line_start(s, i - 1)
    }
}

/// The 1-based line and column of position `i` in `s`.
pub open spec fn line_col_at(s: Seq<char>, i: int) -> (int, int) {
    (1 + count_newlines(s, i), i - line_start(s, i) + 1)
}

pub proof fn lemma_count_newlines_mono(s: Seq<char>, a: int, b: int)
    requires
        0 <= a <= b <= s.len(),
    ensures
        count_newlines(s, a) <= count_newlines(s, b) <= count_newlines(s, a) + (b - a),
    decreases b - a,
{
    if a < b {
        lemma_count_newlines_mono(s, a, b - 1);
    }
}

/// Positions separated by no line break lie on one line.
pub proof fn lemma_count_newlines_stable(s: Seq<char>, a: int, b: int)
    requires
        0 <= a <= b <= s.len(),
        forall|k: int| a <= k < b ==> #[trigger] s[k] != '\n',
    ensures
        count_newlines(s, a) == count_newlines(s, b),
    decreases b - a,
{
    if a < b {
        lemma_count_newlines_stable(s, a, b - 1);
    }
}

pub proof fn lemma_line_start_props(s: Seq<char>, i: int)
    requires
        0 <= i <= s.len(),
    ensures
        0 <= line_start(s, i) <= i,
        line_start(s, i) == 0 || s[line_start(s, i) - 1] == '\n',
        forall|k: int| line_start(s, i) <= k < i ==> #[trigger] s[k] != '\n',
    decreases i,
{
    if i > 0 && s[i - 1] != '\n' {
        lemma_line_start_props(s, i - 1);
    }
}

/// The index of line start positions of one source text.
pub struct LineIndex {
    pub heads: Vec<usize>,
}

impl LineIndex {
    /// The index lists, in order, every line start of `s`: position 0 and
    /// each position following a line break, each knowing its line number.
    pub open spec fn wf(&self, s: Seq<char>) -> bool {
        &&& self.heads@.len() >= 1
        &&& self.heads@[0] == 0
        &&& forall|l: int|
            0 <= l < self.heads@.len() ==> 0 <= #[trigger] self.heads@[l] <= s.len()
        &&& forall|l: int|
            1 <= l < self.heads@.len() ==> 1 <= #[trigger] self.heads@[l] && s[self.heads@[l]
                - 1] == '\n'
        &&& forall|l: int|
            0 <= l < self.heads@.len() ==> count_newlines(s, #[trigger] self.heads@[l] as int)
                == l
        &&& forall|k: int|
            0 <= k < s.len() && #[trigger] s[k] == '\n' ==> exists|l: int|
                0 <= l < self.heads@.len() && #[trigger] self.heads@[l] == k + 1
    }

    /// Line starts come in strictly increasing order.
    pub proof fn lemma_sorted(&self, s: Seq<char>, l1: int, l2: int)
        requires
            self.wf(s),
            0 <= l1 < l2 < self.heads@.len(),
        ensures
            self.heads@[l1] < self.heads@[l2],
    {
        if self.heads@[l2] <= self.heads@[l1] {
            lemma_count_newlines_mono(s, self.heads@[l2] as int, self.heads@[l1] as int);
        }
    }

    /// Builds the index of line starts of `src`.
    pub fn new(src: &Vec<char>) -> (r: LineIndex)
        ensures
            r.wf(src@),
    {
        let ghost s = src@;
        let mut heads: Vec<usize> = Vec::new();
        heads.push(0);
        let mut k: usize = 0;
        while k < src.len()
            invariant
                0 <= k <= s.len(),
                src@ == s,
                heads@.len() >= 1,
                heads@[0] == 0,
                forall|l: int| 0 <= l < heads@.len() ==> 0 <= #[trigger] heads@[l] <= k,
                forall|l: int|
                    1 <= l < heads@.len() ==> 1 <= #[trigger] heads@[l] && s[heads@[l] - 1]
                        == '\n',
                forall|l: int|
                    0 <= l < heads@.len() ==> count_newlines(s, #[trigger] heads@[l] as int)
                        == l,
                count_newlines(s, k as int) == heads@.len() - 1,
                forall|kk: int|
                    0 <= kk < k && #[trigger] s[kk] == '\n' ==> exists|l: int|
                        0 <= l < heads@.len() && #[trigger] heads@[l] == kk + 1,
            decreases s.len() - k,
        {
            let ghost prev = heads@;
            if src[k] == '\n' {
                heads.push(k + 1);
            }
            proof {
                assert forall|kk: int| 0 <= kk < k + 1 && #[trigger] s[kk] == '\n' implies exists|
                    l: int,
                |
                    0 <= l < heads@.len() && #[trigger] heads@[l] == kk + 1 by {
                    if kk == k {
                        assert(heads@[heads@.len() - 1] == kk + 1);
                    } else {
                        let lw = choose|l: int| 0 <= l < prev.len() && #[trigger] prev[l] == kk
                            + 1;
                        assert(heads@[lw] == kk + 1);
                    }
                }
            }
            k = k + 1;
        }
        LineIndex { heads }
    }

    /// The 1-based line and column of position `i`, exactly
    /// [`line_col_at`].
    pub fn get(&self, Ghost(s): Ghost<Seq<char>>, i: usize) -> (r: (usize, usize))
        requires
            self.wf(s),
            i <= s.len(),
            i < usize::MAX,
        ensures
            r.0 as int == line_col_at(s, i as int).0,
            r.1 as int == line_col_at(s, i as int).1,
    {
        let ghost ls = line_start(s, i as int);
        proof {
            lemma_line_start_props(s, i as int);
        }
        let mut l: usize = 0;
        while l < self.heads.len() - 1 && self.heads[l + 1] <= i
            invariant
                0 <= l < self.heads@.len(),
                self.wf(s),
                i <= s.len(),
                self.heads@[l as int] <= i,
            decreases self.heads@.len() - l,
        {
            l = l + 1;
        }
        let h = self.heads[l];
        proof {
            // The found head is the line start of `i`: it is a line start at
            // most `i`, and the line start of `i` is itself in the index, at
            // a position no earlier.
            if ls != h as int {
                if (h as int) < ls {
                    // `ls` is a line start, hence in the index, past `l`;
                    // but every head past `l` exceeds `i`.
                    assert(ls > 0 && s[ls - 1] == '\n');
                    let lw = choose|lw: int|
                        0 <= lw < self.heads@.len() && #[trigger] self.heads@[lw] == (ls - 1)
                            + 1;
                    assert(self.heads@[lw] == ls);
                    if lw <= l {
                        if lw < l {
                            self.lemma_sorted(s, lw, l as int);
                        }
                        assert(false);
                    }
                    assert(l + 1 <= lw < self.heads@.len());
                    assert(self.heads@[l + 1] > i);
                    if lw > l + 1 {
                        self.lemma_sorted(s, l + 1, lw);
                    }
                    assert(self.heads@[lw] > i);
                    assert(false);
                } else {
                    // `h` would be a later line start before `i`, yet no
                    // line break lies between `ls` and `i`.
                    assert(ls < h as int <= i);
                    assert(l > 0);
                    assert(s[h - 1] == '\n');
                    assert(ls <= h as int - 1 < i as int);
                    assert(false);
                }
            }
            assert(h as int == ls);
            lemma_count_newlines_stable(s, ls, i as int);
            assert(count_newlines(s, i as int) == count_newlines(s, h as int) == l as int);
        }
        (l + 1, i - h + 1)
    }
}

} // verus!
