//! A solver library for the "Letter Boxed" word puzzle: letters sit on the
//! sides of a polygon, and a solution is an ordered chain of words that uses
//! every letter, never takes two consecutive letters from one side, and
//! stays within a word budget. This crate holds the verified core: the
//! board model with its solution validator, the per-puzzle filtered
//! dictionary, and three solving strategies whose returned solutions
//! provably pass the validator.

use vstd::prelude::*;

pub mod dictionary;
pub mod solvers;

use vstd::string::StrSliceExecFns;
use vstd::string::StringExecFns;

verus! {

/// Errors a puzzle can report: rejected input text, or a solution that
/// breaks one of the board's rules (with a human-readable reason).
#[derive(Debug)]
pub enum LBPuzzleError<'a> {
    InputError(&'a str),
    BadSolutionError(String),
}

/// The standard Letter Boxed puzzle from NYT: a square with 3 letters per side.
pub type NYTBoxPuzzle = LBPuzzle<4, 3>;

/// A puzzle definition: `S` sides with `L` letters each, and the maximum
/// number of words a solution may use. It holds no answer, only the board.
pub struct LBPuzzle<const S: usize, const L: usize> {
    max_words: usize,
    sides: Vec<Vec<char>>,
}

impl<const S: usize, const L: usize> LBPuzzle<S, L> {
    /// Shape of a well-formed board: `S` sides of `L` letters, with small
    /// enough dimensions that letter indices fit in an `i32`.
    #[verifier::type_invariant]
    pub closed spec fn wf(&self) -> bool {
        &&& 1 <= S as int
        &&& 1 <= L as int
        &&& (S as int) * (L as int) <= i32::MAX as int
        &&& self.sides@.len() == S as int
        &&& forall|i: int| 0 <= i < S as int ==> (#[trigger] self.sides@[i])@.len() == L as int
    }

    /// The board's letters, one inner sequence per side.
    pub closed spec fn sides_view(&self) -> Seq<Seq<char>> {
        self.sides.deep_view()
    }

    /// The configured maximum number of words in a solution.
    pub closed spec fn spec_max_words(&self) -> usize {
        self.max_words
    }

    /// Total number of letter positions on the board.
    pub open spec fn spec_n_letters() -> int {
        (S as int) * (L as int)
    }

    /// The letter at flat position `p` (side-major order).
    pub open spec fn letter_at(&self, p: int) -> char {
        self.sides_view()[p / L as int][p % L as int]
    }

    /// All board letters as one flat sequence, in side-major order.
    pub open spec fn all_letters_view(&self) -> Seq<char> {
        Seq::new(Self::spec_n_letters() as nat, |p: int| self.letter_at(p))
    }

    /// `c` appears on some side other than `prev_side` (with `prev_side`
    /// outside `0..S` meaning "no previous side": any side counts).
    pub open spec fn on_other_side(&self, prev_side: int, c: char) -> bool {
        exists|s: int|
            0 <= s < S as int && s != prev_side && (#[trigger] self.sides_view()[s]).contains(c)
    }

    pub fn new(max_words: usize, sides: Vec<Vec<char>>) -> (r: Self)
        requires
            1 <= S as int,
            1 <= L as int,
            (S as int) * (L as int) <= i32::MAX as int,
            sides@.len() == S as int,
            forall|i: int| 0 <= i < S as int ==> (#[trigger] sides@[i])@.len() == L as int,
        ensures
            r.sides_view() == sides.deep_view(),
            r.spec_max_words() == max_words,
    {
        LBPuzzle { max_words, sides }
    }

    /// A copy of the board's sides.
    pub fn sides(&self) -> (r: Vec<Vec<char>>)
        ensures
            r.deep_view() == self.sides_view(),
    {
        proof {
            use_type_invariant(self);
        }
        let mut out: Vec<Vec<char>> = Vec::new();
        let mut i: usize = 0;
        while i < self.sides.len()
            invariant
                i <= self.sides@.len(),
                out@.len() == i as int,
                forall|k: int| 0 <= k < i as int ==> (#[trigger] out@[k])@ == self.sides@[k]@,
            decreases self.sides@.len() - i,
        {
            let mut row: Vec<char> = Vec::new();
            let mut j: usize = 0;
            while j < self.sides[i].len()
                invariant
                    i < self.sides@.len(),
                    j <= self.sides@[i as int]@.len(),
                    row@ == self.sides@[i as int]@.take(j as int),
                decreases self.sides@[i as int]@.len() - j,
            {
                row.push(self.sides[i][j]);
                proof {
                    assert(row@ =~= self.sides@[i as int]@.take(j as int + 1));
                }
                j += 1;
            }
            proof {
                assert(row@ =~= self.sides@[i as int]@);
            }
            out.push(row);
            i += 1;
        }
        proof {
            assert(out.deep_view() =~= self.sides_view());
        }
        out
    }

    /// The maximum number of words a solution may use.
    pub fn max_words(&self) -> (r: usize)
        ensures
            r == self.spec_max_words(),
    {
        self.max_words
    }

    /// The number of letter positions on the board (counting repeats).
    pub fn n_letters() -> (r: usize)
        requires
            (S as int) * (L as int) <= usize::MAX as int,
        ensures
            r as int == Self::spec_n_letters(),
    {
        S * L
    }

    /// All letters of the puzzle as one string, in side-major order.
    pub fn all_letters(&self) -> (r: String)
        ensures
            r@ == self.all_letters_view(),
    {
        proof {
            use_type_invariant(self);
        }
        let mut flat: Vec<char> = Vec::new();
        let mut i: usize = 0;
        while i < self.sides.len()
            invariant
                self.wf(),
                i <= S as int,
                flat@.len() == i as int * L as int,
                forall|p: int|
                    0 <= p < flat@.len() ==> #[trigger] flat@[p] == self.sides_view()[p / L as int][p
                        % L as int],
            decreases S as int - i,
        {
            let row = &self.sides[i];
            let mut j: usize = 0;
            while j < row.len()
                invariant
                    self.wf(),
                    i < S as int,
                    row == &self.sides[i as int],
                    j <= L as int,
                    flat@.len() == i as int * L as int + j as int,
                    forall|p: int|
                        0 <= p < flat@.len() ==> #[trigger] flat@[p] == self.sides_view()[p
                            / L as int][p % L as int],
                decreases L as int - j,
            {
                flat.push(row[j]);
                proof {
                    let p = i as int * L as int + j as int;
                    assert(p / L as int == i as int && p % L as int == j as int) by (nonlinear_arith)
                        requires
                            0 <= i as int,
                            0 <= j as int,
                            (j as int) < (L as int),
                            p == i as int * L as int + j as int,
                    ;
                }
                j += 1;
            }
            i += 1;
            proof {
                assert(flat@.len() == i as int * L as int) by (nonlinear_arith)
                    requires
                        flat@.len() == (i as int - 1) * L as int + L as int,
                ;
            }
        }
        proof {
            assert(flat@ =~= self.all_letters_view());
        }
        chars_to_string(&flat)
    }

    /// The side that flat position `idx` lies on, or `None` if `idx` is
    /// outside the board.
    pub fn idx_to_side(&self, idx: i32) -> (r: Option<i32>)
        ensures
            (0 <= idx as int && (idx as int) < Self::spec_n_letters()) ==> r == Some(
                #[verifier::truncate] ((idx as int / L as int) as i32),
            ),
            !(0 <= idx as int && (idx as int) < Self::spec_n_letters()) ==> r is None,
    {
        proof {
            use_type_invariant(self);
        }
        let n: usize = S * L;
        proof {
            assert((L as int) <= (S as int) * (L as int)) by (nonlinear_arith)
                requires
                    1 <= S as int,
                    0 <= L as int,
            ;
        }
        if idx >= 0 && (idx as usize) < n {
            Some(idx / (L as i32))
        } else {
            None
        }
    }

    /// True if the letter at flat position `idx` is on side `side`; an
    /// out-of-range `idx` acts as the pseudo-side `-1`.
    pub fn is_idx_on_side(&self, idx: i32, side: i32) -> (r: bool)
        ensures
            r == (side as int == self.spec_side_of(idx as int)),
    {
        let s = self.idx_to_side(idx);
        let prev: i32 = match s {
            Some(v) => v,
            None => -1,
        };
        prev == side
    }

    /// The side of flat position `idx`, or `-1` if `idx` is out of range.
    pub open spec fn spec_side_of(&self, idx: int) -> int {
        if 0 <= idx && idx < Self::spec_n_letters() {
            idx / L as int
        } else {
            -1
        }
    }

    /// All letters that may legally follow the letter at position `prev_idx`:
    /// the letters on every side other than that letter's side (all letters
    /// if `prev_idx` is out of range, i.e. at the start of a word).
    pub fn valid_letters(&self, prev_idx: i32) -> (r: Vec<char>)
        ensures
            forall|c: char| r@.contains(c) <==> self.on_other_side(self.spec_side_of(prev_idx as int), c),
            r@.no_duplicates(),
    {
        proof {
            use_type_invariant(self);
        }
        let ghost prev: int = self.spec_side_of(prev_idx as int);
        let mut out: Vec<char> = Vec::new();
        let mut i: usize = 0;
        while i < self.sides.len()
            invariant
                self.wf(),
                i <= S as int,
                prev == self.spec_side_of(prev_idx as int),
                out@.no_duplicates(),
                forall|c: char|
                    #[trigger] out@.contains(c) <==> exists|s: int|
                        0 <= s < i as int && s != prev && (#[trigger] self.sides_view()[s]).contains(
                            c,
                        ),
            decreases S as int - i,
        {
            proof {
                assert((S as int) <= (S as int) * (L as int)) by (nonlinear_arith)
                    requires
                        1 <= L as int,
                        0 <= S as int,
                ;
            }
            if !self.is_idx_on_side(prev_idx, i as i32) {
                let row = &self.sides[i];
                let mut j: usize = 0;
                while j < row.len()
                    invariant
                        self.wf(),
                        i < S as int,
                        row == &self.sides[i as int],
                        i as int != prev,
                        prev == self.spec_side_of(prev_idx as int),
                        j <= L as int,
                        out@.no_duplicates(),
                        forall|c: char|
                            #[trigger] out@.contains(c) <==> (exists|s: int|
                                0 <= s < i as int && s != prev && (
                                #[trigger] self.sides_view()[s]).contains(c)) || (exists|k: int|
                                0 <= k < j as int && self.sides_view()[i as int][k] == c),
                    decreases L as int - j,
                {
                    let c = row[j];
                    let ghost old_out = out@;
                    if !contains_char(&out, c) {
                        out.push(c);
                    }
                    proof {
                        broadcast use vstd::seq_lib::lemma_seq_contains_after_push;

                        assert(self.sides_view()[i as int][j as int] == c);
                        assert forall|cc: char| #[trigger] out@.contains(cc) implies (
                        old_out.contains(cc) || cc == c) by {}
                        assert forall|cc: char| (old_out.contains(cc) || cc == c) implies
                            out@.contains(cc) by {}
                    }
                    j += 1;
                }
                proof {
                    assert forall|c: char| (exists|k: int|
                        0 <= k < L as int && self.sides_view()[i as int][k] == c) implies (
                    #[trigger] self.sides_view()[i as int]).contains(c) by {}
                    assert forall|c: char|
                        #[trigger] self.sides_view()[i as int].contains(c) implies (exists|k: int|
                        0 <= k < L as int && self.sides_view()[i as int][k] == c) by {}
                    assert forall|c: char| #[trigger] out@.contains(c) implies exists|s: int|
                        0 <= s < i as int + 1 && s != prev && (
                        #[trigger] self.sides_view()[s]).contains(c) by {}
                    assert forall|c: char|
                        (exists|s: int|
                            0 <= s < i as int + 1 && s != prev && (
                            #[trigger] self.sides_view()[s]).contains(c)) implies out@.contains(
                        c,
                    ) by {
                        let s = choose|s: int|
                            0 <= s < i as int + 1 && s != prev && (
                            #[trigger] self.sides_view()[s]).contains(c);
                        if s == i as int {
                            let k = choose|k: int|
                                0 <= k < L as int && self.sides_view()[i as int][k] == c;
                            assert(out@.contains(c));
                        }
                    }
                }
            } else {
                proof {
                    assert(i as int == prev);
                    assert forall|c: char|
                        (exists|s: int|
                            0 <= s < i as int + 1 && s != prev && (
                            #[trigger] self.sides_view()[s]).contains(c)) implies out@.contains(
                        c,
                    ) by {
                        let s = choose|s: int|
                            0 <= s < i as int + 1 && s != prev && (
                            #[trigger] self.sides_view()[s]).contains(c);
                        assert(0 <= s < i as int);
                    }
                }
            }
            i += 1;
        }
        out
    }
}

impl<const S: usize, const L: usize> LBPuzzle<S, L> {
    /// First side index at or after `s0`, other than `prev`, whose letters
    /// hold `c`; `S` if there is none.
    pub closed spec fn first_side_from(&self, c: char, prev: int, s0: int) -> int
        decreases S as int - s0
        when 0 <= s0 <= S as int
    {
        if s0 >= S as int {
            S as int
        } else if s0 != prev && self.sides_view()[s0].contains(c) {
            s0
        } else {
            self.first_side_from(c, prev, s0 + 1)
        }
    }

    /// The side the validation walk assigns to letter `i` of `cs`: the first
    /// side other than letter `i - 1`'s side that holds `cs[i]`. `-1` stands
    /// for "before the first letter", and `S` for a walk that got stuck at or
    /// before `i`.
    pub closed spec fn walk_side_at(&self, cs: Seq<char>, i: int) -> int
        decreases i + 1
        when -1 <= i
    {
        if i < 0 {
            -1
        } else {
            let p = self.walk_side_at(cs, i - 1);
            if p == S as int {
                S as int
            } else {
                self.first_side_from(cs[i], p, 0)
            }
        }
    }

    /// The walk places every letter of `cs` before position `n`.
    pub open spec fn walk_ok_upto(&self, cs: Seq<char>, n: int) -> bool {
        forall|k: int| 0 <= k < n ==> #[trigger] self.walk_side_at(cs, k) != S as int
    }

    /// The walk places every letter of `cs`.
    pub open spec fn walk_ok(&self, cs: Seq<char>) -> bool {
        self.walk_ok_upto(cs, cs.len() as int)
    }

    /// Board position `(s, jj)` is marked by one of the first `n` steps of
    /// the walk over `cs`.
    pub open spec fn visited_upto(&self, cs: Seq<char>, n: int, s: int, jj: int) -> bool {
        exists|k: int|
            0 <= k < n && #[trigger] self.walk_side_at(cs, k) == s && first_pos_in(
                self.sides_view()[s],
                cs[k],
                0,
            ) == jj
    }

    /// The walk over `cs` marks every board position.
    pub open spec fn full_coverage(&self, cs: Seq<char>) -> bool {
        forall|s: int, jj: int|
            0 <= s < S as int && 0 <= jj < L as int ==> #[trigger] self.visited_upto(
                cs,
                cs.len() as int,
                s,
                jj,
            )
    }

    /// A solution is valid when every word has at least three letters, the
    /// words chain end-to-start, the walk over the merged letters never gets
    /// stuck, and it marks every board position.
    pub open spec fn solution_valid(&self, ws: Seq<Seq<char>>) -> bool {
        &&& all_words_long(ws)
        &&& words_chain(ws)
        &&& self.walk_ok(merged_letters(ws))
        &&& self.full_coverage(merged_letters(ws))
    }
}

/// Every word has at least three letters.
pub open spec fn all_words_long(ws: Seq<Seq<char>>) -> bool {
    forall|i: int| 0 <= i < ws.len() ==> (#[trigger] ws[i]).len() >= 3
}

/// Each word starts with the letter the previous word ended with.
pub open spec fn words_chain(ws: Seq<Seq<char>>) -> bool {
    forall|i: int| 1 <= i < ws.len() ==> (#[trigger] ws[i])[0] == ws[i - 1].last()
}

/// The words merged into one letter sequence, dropping each later word's
/// first letter (it repeats the previous word's last letter).
pub closed spec fn merged_letters(ws: Seq<Seq<char>>) -> Seq<char>
    decreases ws.len(),
{
    if ws.len() == 0 {
        Seq::empty()
    } else if ws.len() == 1 {
        ws[0]
    } else {
        merged_letters(ws.drop_last()) + ws.last().skip(1)
    }
}

/// First position in `row` at or after `j` holding `c`; `row.len()` if none.
pub closed spec fn first_pos_in(row: Seq<char>, c: char, j: int) -> int
    decreases row.len() - j
    when 0 <= j <= row.len()
{
    if j >= row.len() {
        row.len() as int
    } else if row[j] == c {
        j
    } else {
        first_pos_in(row, c, j + 1)
    }
}

/// A scan that finds `c` first at `j` agrees with `first_pos_in`.
pub proof fn lemma_first_pos_found(row: Seq<char>, c: char, j: int)
    requires
        0 <= j < row.len(),
        row[j] == c,
        forall|k: int| 0 <= k < j ==> row[k] != c,
    ensures
        first_pos_in(row, c, 0) == j,
{
    lemma_first_pos_step(row, c, 0, j);
}

/// A scan that never finds `c` agrees with `first_pos_in`.
pub proof fn lemma_first_pos_missing(row: Seq<char>, c: char)
    requires
        forall|k: int| 0 <= k < row.len() ==> row[k] != c,
    ensures
        first_pos_in(row, c, 0) == row.len(),
{
    lemma_first_pos_step(row, c, 0, row.len() as int);
}

/// `first_pos_in` skips over positions known not to hold `c`.
pub proof fn lemma_first_pos_step(row: Seq<char>, c: char, j: int, stop: int)
    requires
        0 <= j <= stop <= row.len(),
        forall|k: int| j <= k < stop ==> row[k] != c,
    ensures
        first_pos_in(row, c, j) == first_pos_in(row, c, stop),
    decreases stop - j,
{
    if j < stop {
        lemma_first_pos_step(row, c, j + 1, stop);
    }
}

/// `first_pos_in` never lands past a known occurrence of `c`.
pub proof fn lemma_first_pos_le(row: Seq<char>, c: char, j: int, k: int)
    requires
        0 <= j <= k < row.len(),
        row[k] == c,
    ensures
        first_pos_in(row, c, j) <= k,
    decreases k - j,
{
    if j < k && row[j] != c {
        lemma_first_pos_le(row, c, j + 1, k);
    }
}

/// First position of `c` in `row`, if any.
pub fn index_of_char(row: &Vec<char>, c: char) -> (r: Option<usize>)
    ensures
        match r {
            Some(j) => j as int == first_pos_in(row@, c, 0) && (j as int) < row@.len()
                && row@[j as int] == c,
            None => first_pos_in(row@, c, 0) == row@.len(),
        },
{
    let mut k: usize = 0;
    while k < row.len()
        invariant
            k <= row@.len(),
            forall|k2: int| 0 <= k2 < k as int ==> row@[k2] != c,
        decreases row@.len() - k,
    {
        if row[k] == c {
            proof {
                lemma_first_pos_found(row@, c, k as int);
            }
            return Some(k);
        }
        k += 1;
    }
    proof {
        lemma_first_pos_missing(row@, c);
    }
    None
}

impl<const S: usize, const L: usize> LBPuzzle<S, L> {
    /// A well-formed board has `S` sides of `L` letters each.
    pub proof fn lemma_wf_rows(&self)
        requires
            self.wf(),
        ensures
            self.sides_view().len() == S as int,
            forall|s: int| 0 <= s < S as int ==> (#[trigger] self.sides_view()[s]).len() == L as int,
    {
        assert forall|s: int|
            0 <= s < S as int implies (#[trigger] self.sides_view()[s]).len() == L as int by {
            self.lemma_side_row(s);
        }
    }

    /// Indexing the deep view of the sides equals viewing the indexed row.
    proof fn lemma_side_row(&self, s: int)
        requires
            0 <= s < self.sides@.len(),
        ensures
            self.sides_view()[s] == self.sides@[s]@,
    {
        assert(self.sides_view()[s] =~= self.sides@[s]@);
    }

    /// Walk step: the first side other than `prev_side` holding `c`, with the
    /// position of `c` on it, or `None` if no such side exists.
    fn find_walk_side(&self, c: char, prev_side: i32) -> (r: Option<(usize, usize)>)
        ensures
            match r {
                Some(sj) => {
                    &&& sj.0 as int == self.first_side_from(c, prev_side as int, 0)
                    &&& (sj.0 as int) < S as int
                    &&& sj.1 as int == first_pos_in(self.sides_view()[sj.0 as int], c, 0)
                    &&& (sj.1 as int) < L as int
                },
                None => self.first_side_from(c, prev_side as int, 0) == S as int,
            },
    {
        proof {
            use_type_invariant(self);
        }
        let ghost prev = prev_side as int;
        let mut s: usize = 0;
        while s < self.sides.len()
            invariant
                self.wf(),
                s <= S as int,
                prev == prev_side as int,
                self.first_side_from(c, prev, 0) == self.first_side_from(c, prev, s as int),
            decreases S as int - s,
        {
            proof {
                assert((S as int) <= (S as int) * (L as int)) by (nonlinear_arith)
                    requires
                        1 <= L as int,
                        0 <= S as int,
                ;
            }
            if s as i32 != prev_side {
                match index_of_char(&self.sides[s], c) {
                    Some(j) => {
                        proof {
                            self.lemma_side_row(s as int);
                            assert(self.sides_view()[s as int][j as int] == c);
                            assert(self.sides_view()[s as int].contains(c));
                            assert(self.first_side_from(c, prev, s as int) == s as int);
                        }
                        return Some((s, j));
                    },
                    None => {
                        proof {
                            self.lemma_side_row(s as int);
                            assert(!self.sides_view()[s as int].contains(c)) by {
                                if self.sides_view()[s as int].contains(c) {
                                    let k = choose|k: int|
                                        0 <= k < self.sides_view()[s as int].len()
                                            && self.sides_view()[s as int][k] == c;
                                    lemma_first_pos_le(self.sides_view()[s as int], c, 0, k);
                                }
                            }
                        }
                    },
                }
            }
            proof {
                assert(self.first_side_from(c, prev, s as int) == self.first_side_from(
                    c,
                    prev,
                    s as int + 1,
                ));
            }
            s += 1;
        }
        None
    }
}

/// The whitespace characters that separate the sides in a puzzle string.
/// Only ASCII whitespace counts as a separator here; exotic Unicode spacing
/// inside a puzzle string is treated as letters and rejected by the shape
/// checks.
pub open spec fn is_space(c: char) -> bool {
    c == ' ' || c == '\t' || c == '\n' || c == '\r'
}

/// The maximal runs of non-whitespace characters of `s`, in order.
pub closed spec fn tokens_of(s: Seq<char>) -> Seq<Seq<char>>
    decreases s.len(),
{
    if s.len() == 0 {
        Seq::empty()
    } else {
        let t = tokens_of(s.drop_last());
        let c = s.last();
        if is_space(c) {
            t
        } else if s.len() >= 2 && !is_space(s[s.len() - 2]) {
            t.update(t.len() - 1, t.last().push(c))
        } else {
            t.push(seq![c])
        }
    }
}

/// Split `cs` into its maximal runs of non-whitespace characters.
fn tokenize(cs: &Vec<char>) -> (r: Vec<Vec<char>>)
    ensures
        r.deep_view() == tokens_of(cs@),
{
    let mut out: Vec<Vec<char>> = Vec::new();
    let mut cur: Vec<char> = Vec::new();
    let mut i: usize = 0;
    while i < cs.len()
        invariant
            i <= cs@.len(),
            (i == 0 || is_space(cs@[i as int - 1])) ==> (out.deep_view() == tokens_of(
                cs@.take(i as int),
            ) && cur@ == Seq::<char>::empty()),
            (i > 0 && !is_space(cs@[i as int - 1])) ==> (cur@.len() >= 1 && tokens_of(
                cs@.take(i as int),
            ) == out.deep_view().push(cur@)),
        decreases cs@.len() - i,
    {
        let c = cs[i];
        let ghost prefix = cs@.take(i as int);
        let ghost old_out = out.deep_view();
        let ghost old_cur = cur@;
        proof {
            assert(cs@.take(i as int + 1).drop_last() =~= prefix);
            assert(cs@.take(i as int + 1).last() == cs@[i as int]);
        }
        if c == ' ' || c == '\t' || c == '\n' || c == '\r' {
            if cur.len() > 0 {
                out.push(cur);
                cur = Vec::new();
                proof {
                    assert(out.deep_view() =~~= old_out.push(old_cur));
                }
            }
            proof {
                assert(tokens_of(cs@.take(i as int + 1)) == tokens_of(prefix));
            }
        } else {
            cur.push(c);
            proof {
                if i > 0 && !is_space(cs@[i as int - 1]) {
                    let t = tokens_of(prefix);
                    assert(tokens_of(cs@.take(i as int + 1)) == t.update(
                        t.len() - 1,
                        t.last().push(c),
                    ));
                    assert(t == old_out.push(old_cur));
                    assert(t.last() == old_cur);
                    assert(t.update(t.len() - 1, old_cur.push(c)) =~= old_out.push(
                        old_cur.push(c),
                    ));
                } else {
                    assert(tokens_of(cs@.take(i as int + 1)) == tokens_of(prefix).push(seq![c]));
                    assert(cur@ =~= seq![c]);
                }
            }
        }
        i += 1;
    }
    proof {
        assert(cs@.take(cs@.len() as int) =~= cs@);
    }
    if cur.len() > 0 {
        let ghost old_out = out.deep_view();
        let ghost old_cur = cur@;
        out.push(cur);
        proof {
            assert(out.deep_view() =~~= old_out.push(old_cur));
        }
    }
    out
}

impl<const S: usize, const L: usize> LBPuzzle<S, L> {
    /// Build a puzzle from a whitespace-separated string of sides: exactly
    /// `S` groups of exactly `L` letters each, else an input error. Board
    /// shapes whose letter count cannot be indexed by an `i32` are rejected
    /// up front (a machine limit, not a puzzle rule).
    pub fn from_str(max_words: usize, sides_str: &str) -> (r: Result<
        Self,
        LBPuzzleError<'static>,
    >)
        ensures
            ({
                let toks = tokens_of(sides_str@);
                let dims_ok = 1 <= S as int && 1 <= L as int && (S as int) * (L as int)
                    <= i32::MAX as int;
                &&& (!dims_ok ==> (r matches Err(e) && e matches LBPuzzleError::InputError(m) && m@
                    == "unsupported board dimensions"@))
                &&& (dims_ok && toks.len() != S as int ==> (r matches Err(e) && e matches
                    LBPuzzleError::InputError(m) && m@ == "Wrong number of sides."@))
                &&& (dims_ok && toks.len() == S as int && !(forall|k: int|
                    0 <= k < S as int ==> (#[trigger] toks[k]).len() == L as int) ==> (r matches
                    Err(e) && e matches LBPuzzleError::InputError(m) && m@ == "wrong letters"@))
                &&& (dims_ok && toks.len() == S as int && (forall|k: int|
                    0 <= k < S as int ==> (#[trigger] toks[k]).len() == L as int) ==> (r matches
                    Ok(p) && p.sides_view() == toks && p.spec_max_words() == max_words))
            }),
    {
        if S == 0 || L == 0 {
            return Err(LBPuzzleError::InputError("unsupported board dimensions"));
        }
        match S.checked_mul(L) {
            None => {
                return Err(LBPuzzleError::InputError("unsupported board dimensions"));
            },
            Some(n) => {
                if n > i32::MAX as usize {
                    return Err(LBPuzzleError::InputError("unsupported board dimensions"));
                }
            },
        }
        let cs = chars_of(sides_str);
        let toks = tokenize(&cs);
        if toks.len() != S {
            proof {
                assert(toks.deep_view().len() == toks@.len());
            }
            return Err(LBPuzzleError::InputError("Wrong number of sides."));
        }
        proof {
            assert(toks.deep_view().len() == toks@.len());
        }
        let mut k: usize = 0;
        while k < toks.len()
            invariant
                1 <= S as int && 1 <= L as int,
                (S as int) * (L as int) <= i32::MAX as int,
                toks.deep_view() == tokens_of(sides_str@),
                toks@.len() == S as int,
                k <= S as int,
                forall|k2: int| 0 <= k2 < k as int ==> (#[trigger] toks@[k2])@.len() == L as int,
            decreases S as int - k,
        {
            proof {
                assert(toks.deep_view()[k as int] =~= toks@[k as int]@);
            }
            if toks[k].len() != L {
                return Err(LBPuzzleError::InputError("wrong letters"));
            }
            k += 1;
        }
        proof {
            assert forall|k2: int| 0 <= k2 < S as int implies (#[trigger] tokens_of(
                sides_str@,
            )[k2]).len() == L as int by {
                assert(toks.deep_view()[k2] =~= toks@[k2]@);
            }
        }
        let p = LBPuzzle::new(max_words, toks);
        Ok(p)
    }
}

/// Indexing the deep view of a word list equals viewing the indexed word.
pub proof fn lemma_word_view(v: &Vec<String>, i: int)
    requires
        0 <= i < v@.len(),
    ensures
        v.deep_view()[i] == v@[i]@,
        v.deep_view().len() == v@.len(),
{
}

impl<const S: usize, const L: usize> LBPuzzle<S, L> {
    /// Check a proposed solution against the board's rules, in order: every
    /// word at least three letters long; each word starting with the previous
    /// word's last letter; the merged letter sequence walkable around the
    /// board, never using one side twice in a row; and every board position
    /// visited by that walk.
    pub fn validate_solution(&self, solution: &Vec<String>) -> (r: Result<
        (),
        LBPuzzleError<'static>,
    >)
        ensures
            ({
                let ws = solution.deep_view();
                let cs = merged_letters(ws);
                &&& (r matches Ok(u) ==> self.solution_valid(ws))
                &&& (self.solution_valid(ws) ==> r is Ok)
                &&& (!all_words_long(ws) ==> (r matches Err(e) && e matches
                    LBPuzzleError::BadSolutionError(m) && exists|i: int|
                    0 <= i < ws.len() && (#[trigger] ws[i]).len() < 3 && (forall|k: int|
                        0 <= k < i ==> ws[k].len() >= 3) && m@ == ws[i] + " is <3 letters long"@))
                &&& (all_words_long(ws) && !words_chain(ws) ==> (r matches Err(e) && e matches
                    LBPuzzleError::BadSolutionError(m) && m@ == "Start & end letters don't match"@))
                &&& (all_words_long(ws) && words_chain(ws) && !self.walk_ok(cs) ==> (r matches Err(e)
                    && e matches LBPuzzleError::BadSolutionError(m) && exists|i: int|
                    0 <= i < cs.len() && self.walk_ok_upto(cs, i) && #[trigger] self.walk_side_at(
                        cs,
                        i,
                    ) == S as int && m@ == "Failed to find letter "@ + seq![cs[i]]))
                &&& (all_words_long(ws) && words_chain(ws) && self.walk_ok(cs)
                    && !self.full_coverage(cs) ==> (r matches Err(e) && e matches
                    LBPuzzleError::BadSolutionError(m) && m@ == "Not all letters were used."@))
            }),
    {
        proof {
            use_type_invariant(self);
        }
        let ghost ws = solution.deep_view();
        proof {
            assert(ws.len() == solution@.len());
        }
        // Rule 1: every word has at least three letters.
        let mut i: usize = 0;
        while i < solution.len()
            invariant
                ws == solution.deep_view(),
                ws.len() == solution@.len(),
                i <= ws.len(),
                forall|k: int| 0 <= k < i as int ==> (#[trigger] ws[k]).len() >= 3,
            decreases ws.len() - i,
        {
            proof {
                lemma_word_view(solution, i as int);
            }
            if solution[i].as_str().unicode_len() < 3 {
                let mut m = solution[i].clone();
                m.append(" is <3 letters long");
                proof {
                    assert(ws[i as int].len() < 3 && m@ == ws[i as int] + " is <3 letters long"@);
                }
                return Err(LBPuzzleError::BadSolutionError(m));
            }
            i += 1;
        }
        proof {
            assert(all_words_long(ws));
        }
        // Rule 2: words chain end-to-start; merge the letters while checking.
        let mut cs_vec: Vec<char> = Vec::new();
        if solution.len() > 0 {
            proof {
                lemma_word_view(solution, 0);
            }
            cs_vec = chars_of(solution[0].as_str());
            proof {
                assert(ws.take(1)[0] == ws[0]);
                assert(cs_vec@ == merged_letters(ws.take(1)));
            }
        }
        let mut i: usize = 1;
        while i < solution.len()
            invariant
                self.wf(),
                ws == solution.deep_view(),
                ws.len() == solution@.len(),
                all_words_long(ws),
                1 <= i,
                i <= ws.len() || ws.len() == 0,
                ws.len() == 0 ==> cs_vec@ == Seq::<char>::empty(),
                ws.len() > 0 ==> cs_vec@ == merged_letters(ws.take(i as int)),
                ws.len() > 0 ==> cs_vec@.len() >= 1 && cs_vec@.last() == ws[i as int - 1].last(),
                forall|k: int| 1 <= k < i as int ==> (#[trigger] ws[k])[0] == ws[k - 1].last(),
            decreases ws.len() - i,
        {
            proof {
                lemma_word_view(solution, i as int);
            }
            let w = chars_of(solution[i].as_str());
            if w[0] != cs_vec[cs_vec.len() - 1] {
                proof {
                    assert(ws[i as int][0] != ws[i as int - 1].last());
                    assert(!words_chain(ws));
                }
                return Err(
                    LBPuzzleError::BadSolutionError(
                        String::from_str("Start & end letters don't match"),
                    ),
                );
            }
            let ghost cs_before = cs_vec@;
            let mut j: usize = 1;
            while j < w.len()
                invariant
                    1 <= j <= w@.len(),
                    cs_vec@ == cs_before + w@.subrange(1, j as int),
                decreases w@.len() - j,
            {
                cs_vec.push(w[j]);
                proof {
                    assert(cs_vec@ =~= cs_before + w@.subrange(1, j as int + 1));
                }
                j += 1;
            }
            proof {
                assert(ws.take(i as int + 1).drop_last() =~= ws.take(i as int));
                assert(ws.take(i as int + 1).last() == ws[i as int]);
                assert(w@.subrange(1, w@.len() as int) =~= ws[i as int].skip(1));
                assert(cs_vec@ == merged_letters(ws.take(i as int + 1)));
                assert(cs_vec@.last() == ws[i as int].last());
            }
            i += 1;
        }
        let ghost cs = merged_letters(ws);
        proof {
            if ws.len() > 0 {
                assert(ws.take(ws.len() as int) =~= ws);
            } else {
                assert(cs =~= Seq::<char>::empty());
            }
            assert(cs_vec@ == cs);
            assert(words_chain(ws));
        }
        // Rule 3: walk the merged letters around the board, marking the
        // position used for each letter.
        let n_total: usize = S * L;
        let mut visited: Vec<bool> = vec![false; n_total];
        let mut prev_side: i32 = -1;
        let mut k: usize = 0;
        proof {
            assert forall|s: int, jj: int|
                0 <= s < S as int && 0 <= jj < L as int implies visited@[s * L as int + jj]
                == #[trigger] self.visited_upto(cs, 0, s, jj) by {
                assert(0 <= s * L as int + jj < S as int * L as int) by (nonlinear_arith)
                    requires
                        0 <= s,
                        s < S as int,
                        0 <= jj,
                        jj < L as int,
                ;
                assert(!self.visited_upto(cs, 0, s, jj));
            }
        }
        while k < cs_vec.len()
            invariant
                self.wf(),
                ws == solution.deep_view(),
                cs == merged_letters(ws),
                all_words_long(ws),
                words_chain(ws),
                cs_vec@ == cs,
                n_total as int == S as int * L as int,
                visited@.len() == n_total,
                k <= cs.len(),
                prev_side as int == self.walk_side_at(cs, k as int - 1),
                -1 <= prev_side as int && (prev_side as int) < S as int,
                self.walk_ok_upto(cs, k as int),
                forall|s: int, jj: int|
                    0 <= s < S as int && 0 <= jj < L as int ==> visited@[s * L as int + jj]
                        == #[trigger] self.visited_upto(cs, k as int, s, jj),
            decreases cs.len() - k,
        {
            let c = cs_vec[k];
            match self.find_walk_side(c, prev_side) {
                None => {
                    proof {
                        assert(self.walk_side_at(cs, k as int) == S as int);
                        assert(self.walk_ok_upto(cs, k as int));
                    }
                    let mut cv: Vec<char> = Vec::new();
                    cv.push(c);
                    let cstr = chars_to_string(&cv);
                    let mut m = String::from_str("Failed to find letter ");
                    m.append(cstr.as_str());
                    proof {
                        assert(m@ == "Failed to find letter "@ + seq![cs[k as int]]);
                        assert(!self.walk_ok(cs));
                    }
                    return Err(LBPuzzleError::BadSolutionError(m));
                },
                Some((s, j)) => {
                    proof {
                        assert(self.walk_side_at(cs, k as int) == s as int);
                        assert((s as int) * (L as int) + (j as int) < (S as int) * (L as int))
                            by (nonlinear_arith)
                            requires
                                0 <= s as int,
                                (s as int) < S as int,
                                0 <= j as int,
                                (j as int) < L as int,
                        ;
                        assert((S as int) <= (S as int) * (L as int)) by (nonlinear_arith)
                            requires
                                1 <= L as int,
                                0 <= S as int,
                        ;
                    }
                    let p = s * L + j;
                    let ghost old_visited = visited@;
                    visited[p] = true;
                    prev_side = s as i32;
                    proof {
                        assert forall|s2: int, jj2: int|
                            0 <= s2 < S as int && 0 <= jj2 < L as int implies visited@[s2 * L as int
                            + jj2] == #[trigger] self.visited_upto(cs, k as int + 1, s2, jj2) by {
                            assert(0 <= s2 * L as int + jj2 < S as int * L as int)
                                by (nonlinear_arith)
                                requires
                                    0 <= s2,
                                    s2 < S as int,
                                    0 <= jj2,
                                    jj2 < L as int,
                            ;
                            assert((s2 * L as int + jj2 == s as int * L as int + j as int) <==> (s2
                                == s as int && jj2 == j as int)) by (nonlinear_arith)
                                requires
                                    0 <= s2,
                                    0 <= jj2,
                                    jj2 < L as int,
                                    0 <= s as int,
                                    0 <= j as int,
                                    (j as int) < L as int,
                            ;
                            if s2 == s as int && jj2 == j as int {
                                assert(self.visited_upto(cs, k as int + 1, s2, jj2));
                            } else {
                                if self.visited_upto(cs, k as int + 1, s2, jj2) {
                                    let k2 = choose|k2: int|
                                        0 <= k2 < k as int + 1 && #[trigger] self.walk_side_at(
                                            cs,
                                            k2,
                                        ) == s2 && first_pos_in(self.sides_view()[s2], cs[k2], 0)
                                            == jj2;
                                    assert(k2 < k as int ==> self.visited_upto(
                                        cs,
                                        k as int,
                                        s2,
                                        jj2,
                                    ));
                                }
                                if self.visited_upto(cs, k as int, s2, jj2) {
                                    assert(self.visited_upto(cs, k as int + 1, s2, jj2));
                                }
                            }
                        }
                    }
                },
            }
            k += 1;
        }
        proof {
            assert(self.walk_ok(cs));
        }
        // Rule 4: every board position must have been visited.
        let mut p: usize = 0;
        while p < n_total
            invariant
                self.wf(),
                ws == solution.deep_view(),
                cs == merged_letters(ws),
                all_words_long(ws),
                words_chain(ws),
                self.walk_ok(cs),
                n_total as int == S as int * L as int,
                visited@.len() == n_total,
                p <= n_total,
                forall|s: int, jj: int|
                    0 <= s < S as int && 0 <= jj < L as int ==> visited@[s * L as int + jj]
                        == #[trigger] self.visited_upto(cs, cs.len() as int, s, jj),
                forall|q: int| 0 <= q < p as int ==> visited@[q],
            decreases n_total - p,
        {
            if !visited[p] {
                proof {
                    let s = p as int / L as int;
                    let jj = p as int % L as int;
                    assert(0 <= s < S as int && 0 <= jj < L as int && s * L as int + jj == p as int)
                        by (nonlinear_arith)
                        requires
                            0 <= p as int,
                            (p as int) < (S as int) * (L as int),
                            1 <= L as int,
                            s == p as int / L as int,
                            jj == p as int % L as int,
                    ;
                    assert(!self.visited_upto(cs, cs.len() as int, s, jj));
                    assert(!self.full_coverage(cs));
                }
                return Err(
                    LBPuzzleError::BadSolutionError(String::from_str("Not all letters were used.")),
                );
            }
            p += 1;
        }
        proof {
            assert forall|s: int, jj: int|
                0 <= s < S as int && 0 <= jj < L as int implies #[trigger] self.visited_upto(
                cs,
                cs.len() as int,
                s,
                jj,
            ) by {
                assert(0 <= s * L as int + jj < (S as int) * (L as int)) by (nonlinear_arith)
                    requires
                        0 <= s,
                        s < S as int,
                        0 <= jj,
                        jj < L as int,
                ;
                assert(visited@[s * L as int + jj]);
            }
            assert(self.full_coverage(cs));
        }
        Ok(())
    }
}

/// True if `v` holds `c`.
pub fn contains_char(v: &Vec<char>, c: char) -> (r: bool)
    ensures
        r == v@.contains(c),
{
    let mut i: usize = 0;
    while i < v.len()
        invariant
            i <= v@.len(),
            forall|k: int| 0 <= k < i as int ==> v@[k] != c,
        decreases v@.len() - i,
    {
        if v[i] == c {
            return true;
        }
        i += 1;
    }
    false
}

/// The characters of `s`, in order, as a vector.
pub fn chars_of(s: &str) -> (r: Vec<char>)
    ensures
        r@ == s@,
{
    let n = s.unicode_len();
    let mut out: Vec<char> = Vec::new();
    let mut i: usize = 0;
    while i < n
        invariant
            n == s@.len(),
            i <= n,
            out@ == s@.take(i as int),
        decreases n - i,
    {
        out.push(s.get_char(i));
        proof {
            assert(out@ =~= s@.take(i as int + 1));
        }
        i += 1;
    }
    proof {
        assert(out@ =~= s@);
    }
    out
}

/// Relies on `Iterator::collect` for `String`: collecting characters yields
/// the string holding exactly those characters in order.
#[verifier::external_body]
pub(crate) fn chars_to_string(v: &Vec<char>) -> (r: String)
    ensures
        r@ == v@,
{
    v.iter().collect()
}

} // verus!
