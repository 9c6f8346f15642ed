//! Baseline solver: breadth-first enumeration of letter-by-letter candidates
//! against the raw word list, held in a trie for exact-match and
//! postfix-enumeration queries. Slow by design, potentially non-terminating
//! on large boards, and unbounded in word count; it exists as a reference
//! strategy next to the informed ones.

use vstd::prelude::*;

use std::collections::VecDeque;

use crate::LBPuzzle;
use crate::chars_of;
use crate::chars_to_string;
use crate::contains_char;
use crate::lemma_word_view;
use crate::solvers::SolverStrategy;
use vstd::string::StrSliceExecFns;

verus! {

#[verifier::external_type_specification]
#[verifier::external_body]
#[verifier::reject_recursive_types(Label)]
pub struct ExTrieBuilder<Label>(trie_rs::TrieBuilder<Label>);

#[verifier::external_type_specification]
#[verifier::external_body]
#[verifier::reject_recursive_types(Label)]
pub struct ExTrie<Label>(trie_rs::Trie<Label>);

/// The entries a trie builder holds so far.
pub uninterp spec fn trie_builder_words(b: trie_rs::TrieBuilder<char>) -> Set<Seq<char>>;

/// The entries a built trie holds.
pub uninterp spec fn trie_words(t: trie_rs::Trie<char>) -> Set<Seq<char>>;

/// Relies on `trie_rs::TrieBuilder::new`: a fresh builder holds no entries.
#[verifier::external_body]
fn trie_builder_new() -> (r: trie_rs::TrieBuilder<char>)
    ensures
        trie_builder_words(r) == Set::<Seq<char>>::empty(),
{
    trie_rs::TrieBuilder::new()
}

/// Relies on `trie_rs::TrieBuilder::push`: adds one entry to the builder
/// (pushing an already-present entry changes nothing more).
#[verifier::external_body]
fn trie_builder_push(b: &mut trie_rs::TrieBuilder<char>, w: &Vec<char>)
    requires
        w@.len() >= 1,
    ensures
        trie_builder_words(*final(b)) == trie_builder_words(*old(b)).insert(w@),
{
    b.push(w)
}

/// Relies on `trie_rs::TrieBuilder::build`: the trie holds exactly the
/// pushed entries.
#[verifier::external_body]
fn trie_build(b: trie_rs::TrieBuilder<char>) -> (t: trie_rs::Trie<char>)
    ensures
        trie_words(t) == trie_builder_words(b),
{
    b.build()
}

/// Relies on `trie_rs::Trie::exact_match`: true exactly for stored entries.
#[verifier::external_body]
fn trie_exact_match(t: &trie_rs::Trie<char>, w: &Vec<char>) -> (r: bool)
    requires
        w@.len() >= 1,
    ensures
        r == trie_words(*t).contains(w@),
{
    t.exact_match(w)
}

/// Relies on `trie_rs::Trie::postfix_search`: the returned sequences are the
/// nonempty postfixes of every stored entry that strictly extends the query,
/// each once.
#[verifier::external_body]
fn trie_postfixes(t: &trie_rs::Trie<char>, q: &Vec<char>) -> (r: Vec<Vec<char>>)
    ensures
        forall|i: int|
            0 <= i < r@.len() ==> ((#[trigger] r@[i])@.len() >= 1 && trie_words(*t).contains(
                q@ + r@[i]@,
            )),
        forall|p: Seq<char>|
            (p.len() >= 1 && #[trigger] trie_words(*t).contains(q@ + p)) ==> exists|i: int|
                0 <= i < r@.len() && r@[i]@ == p,
{
    t.postfix_search(q).collect()
}

/// A candidate in the breadth-first search: the words spelled so far (the
/// last one possibly incomplete), the board position of the last-placed
/// letter, and which board positions have been used.
pub struct _Solution {
    pub words: Vec<String>,
    pub last_idx: usize,
    pub visited_letters: Vec<bool>,
}

impl _Solution {
    /// A copy of this candidate where the current word is ended and the next
    /// one is started, seeded with the shared chaining letter.
    pub fn end_word(&self) -> (r: Self)
        ensures
            self.words@.len() >= 1 && self.words@.last()@.len() >= 1 ==> (
            r.words.deep_view() == self.words.deep_view().push(
                seq![self.words@.last()@.last()],
            ) && r.last_idx == self.last_idx && r.visited_letters@ == self.visited_letters@),
    {
        let mut words = clone_string_vec(&self.words);
        if self.words.len() >= 1 {
            proof {
                lemma_word_view(&self.words, self.words@.len() - 1);
            }
            let wc = chars_of(self.words[self.words.len() - 1].as_str());
            if wc.len() >= 1 {
                let mut cv: Vec<char> = Vec::new();
                cv.push(wc[wc.len() - 1]);
                let ghost before = words.deep_view();
                words.push(chars_to_string(&cv));
                proof {
                    assert(words.deep_view() =~~= before.push(seq![self.words@.last()@.last()]));
                    assert(before =~~= self.words.deep_view());
                }
            }
        }
        _Solution {
            words,
            last_idx: self.last_idx,
            visited_letters: clone_bools(&self.visited_letters),
        }
    }

    /// A field-by-field copy of this candidate.
    pub fn clone(&self) -> (r: Self)
        ensures
            r.words@ == self.words@,
            r.last_idx == self.last_idx,
            r.visited_letters@ == self.visited_letters@,
    {
        _Solution {
            words: clone_string_vec(&self.words),
            last_idx: self.last_idx,
            visited_letters: clone_bools(&self.visited_letters),
        }
    }
}

/// A fresh vector holding the same words.
fn clone_string_vec(v: &Vec<String>) -> (r: Vec<String>)
    ensures
        r@ == v@,
{
    let mut out: Vec<String> = Vec::new();
    let mut i: usize = 0;
    while i < v.len()
        invariant
            i <= v@.len(),
            out@ == v@.take(i as int),
        decreases v@.len() - i,
    {
        out.push(v[i].clone());
        proof {
            assert(out@ =~= v@.take(i as int + 1));
        }
        i += 1;
    }
    proof {
        assert(out@ =~= v@);
    }
    out
}

/// A fresh vector holding the same flags.
fn clone_bools(v: &Vec<bool>) -> (r: Vec<bool>)
    ensures
        r@ == v@,
{
    let mut out: Vec<bool> = Vec::new();
    let mut i: usize = 0;
    while i < v.len()
        invariant
            i <= v@.len(),
            out@ == v@.take(i as int),
        decreases v@.len() - i,
    {
        out.push(v[i]);
        proof {
            assert(out@ =~= v@.take(i as int + 1));
        }
        i += 1;
    }
    proof {
        assert(out@ =~= v@);
    }
    out
}

/// True if every flag is set.
fn all_true(v: &Vec<bool>) -> (r: bool)
    ensures
        r == forall|k: int| 0 <= k < v@.len() ==> v@[k],
{
    let mut i: usize = 0;
    while i < v.len()
        invariant
            i <= v@.len(),
            forall|k: int| 0 <= k < i as int ==> v@[k],
        decreases v@.len() - i,
    {
        if !v[i] {
            return false;
        }
        i += 1;
    }
    true
}

/// Exhaustive breadth-first search over letter-by-letter candidates; no
/// word-count bound is enforced, and on an unsolvable or large board the
/// search may not terminate.
pub struct BruteForceSolver<const S: usize, const L: usize> {}

/// The letter `c` continues the partial word `cur` toward some stored entry.
pub open spec fn continues_word(t: &trie_rs::Trie<char>, cur: Seq<char>, c: char) -> bool {
    exists|p: Seq<char>| p.len() >= 1 && p[0] == c && #[trigger] trie_words(*t).contains(cur + p)
}

/// `ns` is `stub` with its current word extended by `c`: the letter both
/// continues toward a stored trie entry and legally follows on the board,
/// and `ns` records a board position of `c` on a side other than the
/// previous letter's.
pub open spec fn queued_extension<const S: usize, const L: usize>(
    ns: _Solution,
    stub: _Solution,
    dict: &trie_rs::Trie<char>,
    puzzle: &LBPuzzle<S, L>,
    c: char,
) -> bool {
    &&& stub.words@.len() >= 1
    &&& stub.words.deep_view().last().len() >= 1
    &&& continues_word(dict, stub.words.deep_view().last(), c)
    &&& puzzle.on_other_side(puzzle.spec_side_of(stub.last_idx as int), c)
    &&& ns.words.deep_view() == stub.words.deep_view().update(
        stub.words@.len() - 1,
        stub.words.deep_view().last().push(c),
    )
    &&& ns.visited_letters@ == stub.visited_letters@
    &&& (ns.last_idx as int) < LBPuzzle::<S, L>::spec_n_letters()
    &&& puzzle.all_letters_view()[ns.last_idx as int] == c
    &&& puzzle.spec_side_of(ns.last_idx as int) != puzzle.spec_side_of(stub.last_idx as int)
}

/// `ns` extends `stub` by some qualifying letter.
pub open spec fn is_some_extension<const S: usize, const L: usize>(
    ns: _Solution,
    stub: _Solution,
    dict: &trie_rs::Trie<char>,
    puzzle: &LBPuzzle<S, L>,
) -> bool {
    exists|c: char| queued_extension(ns, stub, dict, puzzle, c)
}

/// Queue every extension of `stub`'s current word by a letter that both
/// continues toward some dictionary word and legally follows on the board:
/// the queue keeps its old entries, everything appended is such an
/// extension, and every qualifying letter is appended.
#[verifier::rlimit(100)]
fn _add_all_valid_letters<const S: usize, const L: usize>(
    queue: &mut VecDeque<_Solution>,
    dict: &trie_rs::Trie<char>,
    puzzle: &LBPuzzle<S, L>,
    stub: &_Solution,
)
    ensures
        final(queue)@.len() >= old(queue)@.len(),
        forall|k: int| 0 <= k < old(queue)@.len() ==> final(queue)@[k] == old(queue)@[k],
        forall|k: int|
            old(queue)@.len() <= k < final(queue)@.len() ==> #[trigger] is_some_extension(
                final(queue)@[k],
                *stub,
                dict,
                puzzle,
            ),
        (stub.words@.len() >= 1 && stub.words.deep_view().last().len() >= 1) ==> forall|c: char|
            (#[trigger] continues_word(dict, stub.words.deep_view().last(), c)
                && puzzle.on_other_side(puzzle.spec_side_of(stub.last_idx as int), c)) ==> exists|
                k: int,
            |
                old(queue)@.len() <= k < final(queue)@.len() && queued_extension(
                    final(queue)@[k],
                    *stub,
                    dict,
                    puzzle,
                    c,
                ),
{
    proof {
        use_type_invariant(puzzle);
    }
    let ghost old_q = queue@;
    if stub.words.len() == 0 {
        return ;
    }
    proof {
        lemma_word_view(&stub.words, stub.words@.len() - 1);
    }
    let cw = chars_of(stub.words[stub.words.len() - 1].as_str());
    let ghost cur = stub.words.deep_view().last();
    if cw.len() == 0 {
        return ;
    }
    // Letters that can continue toward some real dictionary word.
    let postfixes = trie_postfixes(dict, &cw);
    let mut letters: Vec<char> = Vec::new();
    let mut i: usize = 0;
    while i < postfixes.len()
        invariant
            cur == stub.words.deep_view().last(),
            cw@ == cur,
            forall|t2: int|
                0 <= t2 < postfixes@.len() ==> ((#[trigger] postfixes@[t2])@.len() >= 1
                    && trie_words(*dict).contains(cw@ + postfixes@[t2]@)),
            i <= postfixes@.len(),
            forall|x: char| letters@.contains(x) ==> #[trigger] continues_word(dict, cur, x),
            forall|t2: int|
                0 <= t2 < i as int ==> letters@.contains(#[trigger] (postfixes@[t2])@[0]),
        decreases postfixes@.len() - i,
    {
        let c0 = postfixes[i][0];
        let ghost lv = letters@;
        let dup = contains_char(&letters, c0);
        if !dup {
            letters.push(c0);
        }
        proof {
            broadcast use vstd::seq_lib::lemma_seq_contains_after_push;

            assert(trie_words(*dict).contains(cur + postfixes@[i as int]@));
            assert(continues_word(dict, cur, c0));
            assert forall|x: char| letters@.contains(x) implies #[trigger] continues_word(
                dict,
                cur,
                x,
            ) by {
                if !dup {
                    if x != c0 {
                        assert(lv.contains(x));
                    }
                }
            }
            assert(letters@.contains(c0));
        }
        i += 1;
    }
    // Intersect with the letters the board allows after the last position.
    let prev: i32 = if stub.last_idx <= (i32::MAX as usize) {
        stub.last_idx as i32
    } else {
        -1
    };
    let ghost psi = puzzle.spec_side_of(stub.last_idx as int);
    proof {
        assert(puzzle.spec_side_of(prev as int) == psi);
    }
    let valids = puzzle.valid_letters(prev);
    let prev_side: i32 = match puzzle.idx_to_side(prev) {
        Some(s) => s,
        None => -1,
    };
    proof {
        assert(prev_side as int == psi);
    }
    let all_s = puzzle.all_letters();
    let all = chars_of(all_s.as_str());
    let mut t: usize = 0;
    while t < letters.len()
        invariant
            puzzle.wf(),
            cur == stub.words.deep_view().last(),
            cw@ == cur,
            cur.len() >= 1,
            stub.words@.len() >= 1,
            psi == puzzle.spec_side_of(stub.last_idx as int),
            prev_side as int == psi,
            forall|c2: char| valids@.contains(c2) <==> puzzle.on_other_side(psi, c2),
            forall|x: char| letters@.contains(x) ==> #[trigger] continues_word(dict, cur, x),
            t <= letters@.len(),
            all@ == puzzle.all_letters_view(),
            queue@.len() >= old_q.len(),
            forall|k: int| 0 <= k < old_q.len() ==> queue@[k] == old_q[k],
            forall|k: int|
                old_q.len() <= k < queue@.len() ==> #[trigger] is_some_extension(
                    queue@[k],
                    *stub,
                    dict,
                    puzzle,
                ),
            forall|t2: int|
                0 <= t2 < t as int && puzzle.on_other_side(psi, #[trigger] letters@[t2]) ==> exists|
                    k: int,
                |
                    old_q.len() <= k < queue@.len() && queued_extension(
                        queue@[k],
                        *stub,
                        dict,
                        puzzle,
                        letters@[t2],
                    ),
        decreases letters@.len() - t,
    {
        let ghost q0 = queue@;
        let c = letters[t];
        if contains_char(&valids, c) {
            // Resolve the new letter's board position: its first occurrence
            // on a side other than the previous letter's side.
            let mut p: usize = 0;
            let mut found: Option<usize> = None;
            while p < all.len() && found.is_none()
                invariant
                    puzzle.wf(),
                    all@ == puzzle.all_letters_view(),
                    prev_side as int == psi,
                    p <= all@.len(),
                    found matches Some(q) ==> ((q as int) < all@.len() && all@[q as int] == c
                        && puzzle.spec_side_of(q as int) != psi),
                    found is None ==> forall|p2: int|
                        0 <= p2 < p as int ==> !(#[trigger] all@[p2] == c && puzzle.spec_side_of(
                            p2,
                        ) != psi),
                decreases all@.len() - p + (if found is None {
                    1int
                } else {
                    0int
                }),
            {
                proof {
                    assert((S as int) * (L as int) <= i32::MAX as int);
                }
                let mut hit = false;
                if all[p] == c {
                    if !puzzle.is_idx_on_side(p as i32, prev_side) {
                        hit = true;
                    }
                }
                if hit {
                    found = Some(p);
                } else {
                    p += 1;
                }
            }
            proof {
                if found is None {
                    // The board holds `c` on some other side, so the scan
                    // cannot have missed it.
                    assert(puzzle.on_other_side(psi, c));
                    let s = choose|s: int|
                        0 <= s < S as int && s != psi && (
                        #[trigger] puzzle.sides_view()[s]).contains(c);
                    let jj = choose|jj: int|
                        0 <= jj < puzzle.sides_view()[s].len() && puzzle.sides_view()[s][jj] == c;
                    let pos = s * L as int + jj;
                    assert(0 <= pos < (S as int) * (L as int) && pos / L as int == s && pos
                        % L as int == jj) by (nonlinear_arith)
                        requires
                            0 <= s,
                            s < S as int,
                            0 <= jj,
                            jj < L as int,
                            pos == s * L as int + jj,
                    ;
                    assert(all@[pos] == c && puzzle.spec_side_of(pos) != psi);
                    assert(false);
                }
            }
            match found {
                Some(q) => {
                    let ns0 = stub.clone();
                    let mut ns_words = ns0.words;
                    let _dropped = ns_words.pop();
                    let mut nw = clone_chars(&cw);
                    nw.push(c);
                    ns_words.push(chars_to_string(&nw));
                    let ns = _Solution {
                        words: ns_words,
                        last_idx: q,
                        visited_letters: ns0.visited_letters,
                    };
                    proof {
                        assert(ns.words.deep_view() =~~= stub.words.deep_view().update(
                            stub.words@.len() - 1,
                            cur.push(c),
                        ));
                        assert(queued_extension(ns, *stub, dict, puzzle, c));
                    }
                    queue.push_back(ns);
                    proof {
                        assert(queued_extension(queue@[q0.len() as int], *stub, dict, puzzle, c));
                    }
                },
                None => {},
            }
        } else {
            proof {
                assert(!puzzle.on_other_side(psi, c));
            }
        }
        proof {
            assert forall|k: int|
                old_q.len() <= k < queue@.len() implies #[trigger] is_some_extension(
                queue@[k],
                *stub,
                dict,
                puzzle,
            ) by {
                if k < q0.len() {
                    assert(queue@[k] == q0[k]);
                    assert(is_some_extension(q0[k], *stub, dict, puzzle));
                } else {
                    assert(queued_extension(queue@[k], *stub, dict, puzzle, c));
                }
            }
            assert forall|t2: int|
                0 <= t2 < t as int + 1 && puzzle.on_other_side(
                    psi,
                    #[trigger] letters@[t2],
                ) implies exists|k: int|
                old_q.len() <= k < queue@.len() && queued_extension(
                    queue@[k],
                    *stub,
                    dict,
                    puzzle,
                    letters@[t2],
                ) by {
                if t2 < t as int {
                    let k = choose|k: int|
                        old_q.len() <= k < q0.len() && queued_extension(
                            q0[k],
                            *stub,
                            dict,
                            puzzle,
                            letters@[t2],
                        );
                    assert(queue@[k] == q0[k]);
                    assert(queued_extension(queue@[k], *stub, dict, puzzle, letters@[t2]));
                } else {
                    assert(queued_extension(queue@[q0.len() as int], *stub, dict, puzzle, c));
                }
            }
        }
        t += 1;
    }
    proof {
        if stub.words@.len() >= 1 && cur.len() >= 1 {
            assert forall|c: char|
                (#[trigger] continues_word(dict, cur, c) && puzzle.on_other_side(
                    psi,
                    c,
                )) implies exists|k: int|
                old_q.len() <= k < queue@.len() && queued_extension(
                    queue@[k],
                    *stub,
                    dict,
                    puzzle,
                    c,
                ) by {
                let pw = choose|p: Seq<char>|
                    p.len() >= 1 && p[0] == c && #[trigger] trie_words(*dict).contains(cur + p);
                let t2 = choose|t2: int| 0 <= t2 < letters@.len() && letters@[t2] == c;
                assert(letters@.contains(c)) by {
                    let ti = choose|ti: int|
                        0 <= ti < postfixes@.len() && postfixes@[ti]@ == pw;
                    assert(letters@.contains(postfixes@[ti]@[0]));
                }
                let t3 = choose|t3: int| 0 <= t3 < letters@.len() && letters@[t3] == c;
                assert(puzzle.on_other_side(psi, letters@[t3]));
            }
        }
    }
}

/// A fresh vector holding the same characters.
fn clone_chars(v: &Vec<char>) -> (r: Vec<char>)
    ensures
        r@ == v@,
{
    let mut out: Vec<char> = Vec::new();
    let mut i: usize = 0;
    while i < v.len()
        invariant
            i <= v@.len(),
            out@ == v@.take(i as int),
        decreases v@.len() - i,
    {
        out.push(v[i]);
        proof {
            assert(out@ =~= v@.take(i as int + 1));
        }
        i += 1;
    }
    proof {
        assert(out@ =~= v@);
    }
    out
}

/// `w` is one of the words of the raw list.
pub open spec fn from_word_list(w: Seq<char>, ws: Seq<Seq<char>>) -> bool {
    exists|j: int| 0 <= j < ws.len() && ws[j] == w
}

/// Every word of the candidate but the last is a stored dictionary entry.
pub open spec fn cand_ok(cand: _Solution, t: &trie_rs::Trie<char>) -> bool {
    &&& cand.words@.len() >= 1
    &&& forall|k: int|
        0 <= k < cand.words@.len() - 1 ==> trie_words(*t).contains(
            #[trigger] cand.words.deep_view()[k],
        )
}

impl<const S: usize, const L: usize> SolverStrategy<S, L> for BruteForceSolver<S, L> {
    #[verifier::rlimit(100)]
    fn solve(&self, puzzle: &LBPuzzle<S, L>, words: &Vec<String>) -> (r: Option<Vec<String>>) {
        proof {
            use_type_invariant(puzzle);
        }
        let ghost ws_in = words.deep_view();
        // Load the raw word list into the trie.
        let mut b = trie_builder_new();
        let mut i: usize = 0;
        while i < words.len()
            invariant
                ws_in == words.deep_view(),
                ws_in.len() == words@.len(),
                i <= words@.len(),
                forall|w: Seq<char>|
                    #[trigger] trie_builder_words(b).contains(w) ==> from_word_list(w, ws_in),
            decreases words@.len() - i,
        {
            proof {
                lemma_word_view(words, i as int);
            }
            let wc = chars_of(words[i].as_str());
            if wc.len() >= 1 {
                trie_builder_push(&mut b, &wc);
                proof {
                    assert(from_word_list(ws_in[i as int], ws_in));
                }
            }
            i += 1;
        }
        let dict = trie_build(b);
        // One starting candidate per board letter.
        let n: usize = S * L;
        let all_s = puzzle.all_letters();
        let all = chars_of(all_s.as_str());
        let mut queue: VecDeque<_Solution> = VecDeque::new();
        let mut i: usize = 0;
        while i < all.len()
            invariant
                i <= all@.len(),
                forall|qi: int|
                    0 <= qi < queue@.len() ==> cand_ok(#[trigger] queue@[qi], &dict),
            decreases all@.len() - i,
        {
            let mut cv: Vec<char> = Vec::new();
            cv.push(all[i]);
            let mut ws: Vec<String> = Vec::new();
            ws.push(chars_to_string(&cv));
            let ghost q_before = queue@;
            queue.push_back(
                _Solution { words: ws, last_idx: i, visited_letters: vec![false;n] },
            );
            proof {
                assert forall|qi: int|
                    0 <= qi < queue@.len() implies cand_ok(#[trigger] queue@[qi], &dict) by {
                    if qi < q_before.len() {
                        assert(queue@[qi] == q_before[qi]);
                    }
                }
            }
            i += 1;
        }
        // Breadth-first over all candidates. The search has no useful bound;
        // the step budget below only makes termination provable and is far
        // beyond what any run could exhaust.
        let mut fuel: u64 = u64::MAX;
        while fuel > 0
            invariant
                ws_in == words.deep_view(),
                forall|w: Seq<char>|
                    #[trigger] trie_words(dict).contains(w) ==> from_word_list(w, ws_in),
                forall|qi: int|
                    0 <= qi < queue@.len() ==> cand_ok(#[trigger] queue@[qi], &dict),
            decreases fuel,
        {
            fuel = fuel - 1;
            let next = queue.pop_front();
            match next {
                None => {
                    return None;
                },
                Some(soln) => {
                    let mut soln = soln;
                    proof {
                        assert(cand_ok(soln, &dict));
                    }
                    let ghost soln_words = soln.words.deep_view();
                    if soln.last_idx < soln.visited_letters.len() {
                        soln.visited_letters[soln.last_idx] = true;
                    }
                    if soln.words.len() >= 1 {
                        proof {
                            lemma_word_view(&soln.words, soln.words@.len() - 1);
                        }
                        let cw = chars_of(soln.words[soln.words.len() - 1].as_str());
                        if cw.len() >= 3 && trie_exact_match(&dict, &cw) {
                            if all_true(&soln.visited_letters) {
                                // The bitset says the board is covered; the
                                // validator has the final word.
                                match puzzle.validate_solution(&soln.words) {
                                    Ok(u) => {
                                        proof {
                                            assert forall|k: int|
                                                0 <= k < soln.words@.len() implies
                                                ws_in.contains(
                                                #[trigger] soln.words.deep_view()[k],
                                            ) by {
                                                let wv = soln.words.deep_view()[k];
                                                assert(trie_words(dict).contains(wv)) by {
                                                    if k == soln.words@.len() - 1 {
                                                        assert(wv == cw@);
                                                    }
                                                }
                                                assert(from_word_list(wv, ws_in));
                                                let j = choose|j: int|
                                                    0 <= j < ws_in.len() && ws_in[j] == wv;
                                            }
                                        }
                                        return Some(soln.words);
                                    },
                                    Err(e) => {},
                                }
                            } else {
                                let ended = soln.end_word();
                                proof {
                                    assert(cand_ok(ended, &dict)) by {
                                        assert(soln.words@.len() >= 1);
                                        assert(soln.words@.last()@ == cw@);
                                        assert(soln.words@.last()@.len() >= 1);
                                        assert(ended.words.deep_view()
                                            == soln.words.deep_view().push(
                                            seq![soln.words@.last()@.last()],
                                        ));
                                        assert(ended.words.deep_view()
                                            == soln.words.deep_view().push(seq![cw@.last()]));
                                        assert(ended.words.deep_view().len()
                                            == ended.words@.len());
                                        assert(soln.words.deep_view().len()
                                            == soln.words@.len());
                                        assert forall|k: int|
                                            0 <= k < ended.words@.len() - 1 implies trie_words(
                                            dict,
                                        ).contains(#[trigger] ended.words.deep_view()[k]) by {
                                            assert(ended.words.deep_view()[k]
                                                == soln.words.deep_view()[k]);
                                            if k == soln.words@.len() - 1 {
                                                lemma_word_view(&soln.words, k);
                                                assert(soln.words.deep_view()[k] == cw@);
                                            }
                                        }
                                    }
                                }
                                let ghost q_mid = queue@;
                                _add_all_valid_letters(&mut queue, &dict, puzzle, &ended);
                                proof {
                                    assert forall|qi: int|
                                        0 <= qi < queue@.len() implies cand_ok(
                                        #[trigger] queue@[qi],
                                        &dict,
                                    ) by {
                                        if qi < q_mid.len() {
                                            assert(queue@[qi] == q_mid[qi]);
                                        } else {
                                            assert(is_some_extension(
                                                queue@[qi],
                                                ended,
                                                &dict,
                                                puzzle,
                                            ));
                                            let c2 = choose|c2: char|
                                                queued_extension(
                                                    queue@[qi],
                                                    ended,
                                                    &dict,
                                                    puzzle,
                                                    c2,
                                                );
                                            assert(queue@[qi].words.deep_view()
                                                == ended.words.deep_view().update(
                                                ended.words@.len() - 1,
                                                ended.words.deep_view().last().push(c2),
                                            ));
                                            assert(queue@[qi].words.deep_view().len()
                                                == queue@[qi].words@.len());
                                            assert(ended.words.deep_view().len()
                                                == ended.words@.len());
                                            assert forall|k: int|
                                                0 <= k < queue@[qi].words@.len() - 1 implies
                                                trie_words(dict).contains(
                                                #[trigger] queue@[qi].words.deep_view()[k],
                                            ) by {
                                                assert(queue@[qi].words.deep_view()[k]
                                                    == ended.words.deep_view()[k]);
                                            }
                                        }
                                    }
                                }
                            }
                        }
                        let ghost q_mid2 = queue@;
                        _add_all_valid_letters(&mut queue, &dict, puzzle, &soln);
                        proof {
                            assert forall|qi: int|
                                0 <= qi < queue@.len() implies cand_ok(
                                #[trigger] queue@[qi],
                                &dict,
                            ) by {
                                if qi < q_mid2.len() {
                                    assert(queue@[qi] == q_mid2[qi]);
                                } else {
                                    assert(is_some_extension(queue@[qi], soln, &dict, puzzle));
                                    let c2 = choose|c2: char|
                                        queued_extension(queue@[qi], soln, &dict, puzzle, c2);
                                    assert(queue@[qi].words.deep_view()
                                        == soln.words.deep_view().update(
                                        soln.words@.len() - 1,
                                        soln.words.deep_view().last().push(c2),
                                    ));
                                    assert(queue@[qi].words.deep_view().len()
                                        == queue@[qi].words@.len());
                                    assert(soln.words.deep_view().len() == soln.words@.len());
                                    assert forall|k: int|
                                        0 <= k < queue@[qi].words@.len() - 1 implies trie_words(
                                        dict,
                                    ).contains(#[trigger] queue@[qi].words.deep_view()[k]) by {
                                        assert(queue@[qi].words.deep_view()[k]
                                            == soln.words.deep_view()[k]);
                                    }
                                }
                            }
                        }
                    }
                },
            }
        }
        None
    }
}

} // verus!
