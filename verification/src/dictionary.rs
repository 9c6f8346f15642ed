//! The per-puzzle dictionary: a raw word list filtered down to the words
//! that are legal on one specific board, grouped by first letter, sorted
//! longest-first within each group, and indexed by a stable global index.

use vstd::prelude::*;

use crate::LBPuzzle;
use crate::chars_of;
use crate::contains_char;
use crate::first_pos_in;
use crate::index_of_char;
use crate::lemma_first_pos_le;
use crate::lemma_first_pos_found;
use crate::lemma_word_view;
use vstd::string::StrSliceExecFns;

verus! {

/// The letter-by-letter filter walk over a word, starting at letter `i` with
/// the board index of the previous letter (`-1` at the start of the word).
/// Each letter must lie on a side other than the previous letter's side; the
/// previous index then becomes the letter's first occurrence on the board.
pub closed spec fn word_ok_from<const S: usize, const L: usize>(
    p: &LBPuzzle<S, L>,
    w: Seq<char>,
    i: int,
    prev_idx: int,
) -> bool
    decreases w.len() - i
    when i >= 0
{
    if i >= w.len() {
        true
    } else {
        let c = w[i];
        if p.on_other_side(p.spec_side_of(prev_idx), c) {
            word_ok_from(p, w, i + 1, first_pos_in(p.all_letters_view(), c, 0))
        } else {
            false
        }
    }
}

/// A word survives the dictionary filter: at least three letters, and the
/// filter walk accepts every letter.
pub open spec fn word_retained<const S: usize, const L: usize>(
    p: &LBPuzzle<S, L>,
    w: Seq<char>,
) -> bool {
    w.len() >= 3 && word_ok_from(p, w, 0, -1)
}

/// The words of `ws` that survive the filter, in order.
pub closed spec fn retained_list<const S: usize, const L: usize>(
    p: &LBPuzzle<S, L>,
    ws: Seq<Seq<char>>,
) -> Seq<Seq<char>>
    decreases ws.len(),
{
    if ws.len() == 0 {
        Seq::empty()
    } else {
        let pre = retained_list(p, ws.drop_last());
        if word_retained(p, ws.last()) {
            pre.push(ws.last())
        } else {
            pre
        }
    }
}

/// No more words survive the filter than went in.
pub proof fn lemma_retained_le<const S: usize, const L: usize>(
    p: &LBPuzzle<S, L>,
    ws: Seq<Seq<char>>,
)
    ensures
        retained_list(p, ws).len() <= ws.len(),
    decreases ws.len(),
{
    if ws.len() > 0 {
        lemma_retained_le(p, ws.drop_last());
    }
}

/// The filter is strict as soon as one word breaks a rule: a rejected word
/// makes the retained list strictly shorter than the raw list.
pub proof fn lemma_retained_strict<const S: usize, const L: usize>(
    p: &LBPuzzle<S, L>,
    ws: Seq<Seq<char>>,
    i: int,
)
    requires
        0 <= i < ws.len(),
        !word_retained(p, ws[i]),
    ensures
        retained_list(p, ws).len() < ws.len(),
    decreases ws.len(),
{
    if ws.len() > 0 {
        lemma_retained_le(p, ws.drop_last());
        if i == ws.len() - 1 {
            assert(ws.last() == ws[i]);
        } else {
            assert(ws.drop_last()[i] == ws[i]);
            lemma_retained_strict(p, ws.drop_last(), i);
        }
    }
}

/// Every retained word survives the filter, and came from the input list.
pub proof fn lemma_retained_elements<const S: usize, const L: usize>(
    p: &LBPuzzle<S, L>,
    ws: Seq<Seq<char>>,
)
    ensures
        forall|i: int|
            0 <= i < retained_list(p, ws).len() ==> word_retained(
                p,
                #[trigger] retained_list(p, ws)[i],
            ) && ws.contains(retained_list(p, ws)[i]),
    decreases ws.len(),
{
    if ws.len() > 0 {
        lemma_retained_elements(p, ws.drop_last());
        assert forall|x: Seq<char>| ws.drop_last().contains(x) implies ws.contains(x) by {
            let j = choose|j: int| 0 <= j < ws.drop_last().len() && ws.drop_last()[j] == x;
            assert(ws[j] == x);
        }
        assert(ws[ws.len() - 1] == ws.last());
        assert(ws.contains(ws.last()));
        let r = retained_list(p, ws);
        let pre = retained_list(p, ws.drop_last());
        assert forall|i: int|
            0 <= i < r.len() implies word_retained(p, #[trigger] r[i]) && ws.contains(r[i]) by {
            if word_retained(p, ws.last()) {
                assert(r == pre.push(ws.last()));
                if i < pre.len() {
                    assert(r[i] == pre[i]);
                } else {
                    assert(r[i] == ws.last());
                }
            } else {
                assert(r == pre);
                assert(r[i] == pre[i]);
            }
        }
    }
}

/// Check one word against the board's filter rules.
pub fn word_is_legal<const S: usize, const L: usize>(p: &LBPuzzle<S, L>, w: &Vec<char>) -> (r:
    bool)
    ensures
        r == word_retained(p, w@),
{
    proof {
        use_type_invariant(p);
    }
    if w.len() < 3 {
        return false;
    }
    let all_s = p.all_letters();
    let all = chars_of(all_s.as_str());
    let mut prev_idx: i32 = -1;
    let mut i: usize = 0;
    while i < w.len()
        invariant
            p.wf(),
            all@ == p.all_letters_view(),
            i <= w@.len(),
            -1 <= prev_idx as int && (prev_idx as int) < LBPuzzle::<S, L>::spec_n_letters(),
            word_ok_from(p, w@, 0, -1) == word_ok_from(p, w@, i as int, prev_idx as int),
        decreases w@.len() - i,
    {
        let c = w[i];
        let valids = p.valid_letters(prev_idx);
        if !contains_char(&valids, c) {
            proof {
                assert(!word_ok_from(p, w@, i as int, prev_idx as int));
            }
            return false;
        }
        match index_of_char(&all, c) {
            Some(idx) => {
                proof {
                    assert(word_ok_from(p, w@, i as int, prev_idx as int) == word_ok_from(
                        p,
                        w@,
                        i as int + 1,
                        first_pos_in(p.all_letters_view(), c, 0),
                    ));
                }
                prev_idx = idx as i32;
            },
            None => {
                // Unreachable: the letter was just found in the valid set,
                // so it sits on some side and occurs in the flat letter list.
                proof {
                    let prev = p.spec_side_of(prev_idx as int);
                    let s = choose|s: int|
                        0 <= s < S as int && s != prev && (#[trigger] p.sides_view()[s]).contains(
                            c,
                        );
                    let k = choose|k: int|
                        0 <= k < p.sides_view()[s].len() && p.sides_view()[s][k] == c;
                    let pos = s * L as int + k;
                    assert(0 <= pos < (S as int) * (L as int) && pos / L as int == s && pos
                        % L as int == k) by (nonlinear_arith)
                        requires
                            0 <= s,
                            s < S as int,
                            0 <= k,
                            k < L as int,
                            pos == s * L as int + k,
                    ;
                    assert(p.all_letters_view()[pos] == c);
                    lemma_first_pos_le(p.all_letters_view(), c, 0, pos);
                    assert(false);
                }
                return false;
            },
        }
        i += 1;
    }
    true
}

} // verus!

verus! {

/// First letters of the retained words, in order of first appearance.
pub closed spec fn first_letters(r: Seq<Seq<char>>) -> Seq<char>
    decreases r.len(),
{
    if r.len() == 0 {
        Seq::empty()
    } else {
        let pre = first_letters(r.drop_last());
        let c = r.last()[0];
        if pre.contains(c) {
            pre
        } else {
            pre.push(c)
        }
    }
}

/// The words of `r` whose first letter is `c`, in order.
pub closed spec fn group_list(r: Seq<Seq<char>>, c: char) -> Seq<Seq<char>>
    decreases r.len(),
{
    if r.len() == 0 {
        Seq::empty()
    } else {
        let pre = group_list(r.drop_last(), c);
        if r.last()[0] == c {
            pre.push(r.last())
        } else {
            pre
        }
    }
}

/// Insert `w` into a list sorted by descending length, after every word at
/// least as long as `w`.
pub closed spec fn insert_by_len(g: Seq<Seq<char>>, w: Seq<char>) -> Seq<Seq<char>>
    decreases g.len(),
{
    if g.len() == 0 {
        seq![w]
    } else if g[0].len() >= w.len() {
        seq![g[0]] + insert_by_len(g.skip(1), w)
    } else {
        seq![w] + g
    }
}

/// Stable sort by descending word length (longest first).
pub closed spec fn sort_by_len(g: Seq<Seq<char>>) -> Seq<Seq<char>>
    decreases g.len(),
{
    if g.len() == 0 {
        Seq::empty()
    } else {
        insert_by_len(sort_by_len(g.drop_last()), g.last())
    }
}

/// The sorted letter groups of `r`, flattened in the letter order of `ls`.
pub closed spec fn concat_groups(r: Seq<Seq<char>>, ls: Seq<char>) -> Seq<Seq<char>>
    decreases ls.len(),
{
    if ls.len() == 0 {
        Seq::empty()
    } else {
        concat_groups(r, ls.drop_last()) + sort_by_len(group_list(r, ls.last()))
    }
}

/// The full dictionary contents for puzzle `p` and raw word list `ws`:
/// retained words, grouped by first letter, longest first within each group.
pub open spec fn dict_flat_model<const S: usize, const L: usize>(
    p: &LBPuzzle<S, L>,
    ws: Seq<Seq<char>>,
) -> Seq<Seq<char>> {
    concat_groups(retained_list(p, ws), first_letters(retained_list(p, ws)))
}

/// How often `c` occurs in `ls`.
pub closed spec fn count_occ(ls: Seq<char>, c: char) -> int
    decreases ls.len(),
{
    if ls.len() == 0 {
        0
    } else {
        count_occ(ls.drop_last(), c) + if ls.last() == c {
            1int
        } else {
            0int
        }
    }
}

proof fn lemma_count_occ_zero(ls: Seq<char>, c: char)
    requires
        !ls.contains(c),
    ensures
        count_occ(ls, c) == 0,
    decreases ls.len(),
{
    if ls.len() > 0 {
        assert(forall|i: int| 0 <= i < ls.drop_last().len() ==> ls.drop_last()[i] == ls[i]);
        assert(!ls.drop_last().contains(c)) by {
            if ls.drop_last().contains(c) {
                let i = choose|i: int| 0 <= i < ls.drop_last().len() && ls.drop_last()[i] == c;
                assert(ls[i] == c);
            }
        }
        assert(ls.last() != c) by {
            assert(ls[ls.len() - 1] == ls.last());
        }
        lemma_count_occ_zero(ls.drop_last(), c);
    }
}

proof fn lemma_count_occ_one(ls: Seq<char>, c: char)
    requires
        ls.no_duplicates(),
        ls.contains(c),
    ensures
        count_occ(ls, c) == 1,
    decreases ls.len(),
{
    let pre = ls.drop_last();
    assert(forall|i: int| 0 <= i < pre.len() ==> pre[i] == ls[i]);
    assert(pre.no_duplicates());
    if ls.last() == c {
        assert(!pre.contains(c)) by {
            if pre.contains(c) {
                let i = choose|i: int| 0 <= i < pre.len() && pre[i] == c;
                assert(ls[i] == c && ls[ls.len() - 1] == c && i != ls.len() - 1);
            }
        }
        lemma_count_occ_zero(pre, c);
    } else {
        assert(pre.contains(c)) by {
            let i = choose|i: int| 0 <= i < ls.len() && ls[i] == c;
            assert(ls[ls.len() - 1] == ls.last());
            assert(i != ls.len() - 1);
            assert(pre[i] == c);
        }
        lemma_count_occ_one(pre, c);
    }
}

/// Inserting adds exactly one word.
pub proof fn lemma_insert_by_len_len(g: Seq<Seq<char>>, w: Seq<char>)
    ensures
        insert_by_len(g, w).len() == g.len() + 1,
    decreases g.len(),
{
    if g.len() > 0 && g[0].len() >= w.len() {
        lemma_insert_by_len_len(g.skip(1), w);
    }
}

/// Sorting keeps the number of words.
pub proof fn lemma_sort_by_len_len(g: Seq<Seq<char>>)
    ensures
        sort_by_len(g).len() == g.len(),
    decreases g.len(),
{
    if g.len() > 0 {
        lemma_sort_by_len_len(g.drop_last());
        lemma_insert_by_len_len(sort_by_len(g.drop_last()), g.last());
    }
}

/// The first-appearance letters are pairwise distinct.
pub proof fn lemma_first_letters_distinct(r: Seq<Seq<char>>)
    ensures
        first_letters(r).no_duplicates(),
    decreases r.len(),
{
    if r.len() > 0 {
        lemma_first_letters_distinct(r.drop_last());
        let pre = first_letters(r.drop_last());
        let c = r.last()[0];
        if !pre.contains(c) {
            assert(forall|i: int| 0 <= i < pre.len() ==> pre[i] == pre.push(c)[i]);
            assert(pre.push(c)[pre.len() as int] == c);
        }
    }
}

/// A letter with a nonempty group appears among the first letters.
pub proof fn lemma_group_letter_known(r: Seq<Seq<char>>, c: char)
    requires
        group_list(r, c).len() > 0,
    ensures
        first_letters(r).contains(c),
    decreases r.len(),
{
    if r.len() > 0 {
        let pre_fl = first_letters(r.drop_last());
        if r.last()[0] == c {
            if pre_fl.contains(c) {
            } else {
                assert(first_letters(r) == pre_fl.push(c));
                assert(first_letters(r)[pre_fl.len() as int] == c);
            }
        } else {
            lemma_group_letter_known(r.drop_last(), c);
            if !pre_fl.contains(r.last()[0]) {
                let i = choose|i: int| 0 <= i < pre_fl.len() && pre_fl[i] == c;
                assert(first_letters(r)[i] == c);
            }
        }
    }
}

/// Appending one word to `r` changes each group only at that word's letter.
proof fn lemma_group_push(r: Seq<Seq<char>>, w: Seq<char>, c: char)
    ensures
        group_list(r.push(w), c) == if w[0] == c {
            group_list(r, c).push(w)
        } else {
            group_list(r, c)
        },
{
    assert(r.push(w).drop_last() =~= r);
    assert(r.push(w).last() == w);
}

/// Appending one word to `r` extends the first letters only when its letter
/// is new.
proof fn lemma_first_letters_push(r: Seq<Seq<char>>, w: Seq<char>)
    ensures
        first_letters(r.push(w)) == if first_letters(r).contains(w[0]) {
            first_letters(r)
        } else {
            first_letters(r).push(w[0])
        },
{
    assert(r.push(w).drop_last() =~= r);
    assert(r.push(w).last() == w);
}

/// Appending one word to `r` grows the flattened groups by the number of
/// times its letter occurs in `ls`.
proof fn lemma_concat_push_word(r: Seq<Seq<char>>, w: Seq<char>, ls: Seq<char>)
    ensures
        concat_groups(r.push(w), ls).len() == concat_groups(r, ls).len() + count_occ(ls, w[0]),
    decreases ls.len(),
{
    if ls.len() > 0 {
        lemma_concat_push_word(r, w, ls.drop_last());
        lemma_group_push(r, w, ls.last());
        let g_old = group_list(r, ls.last());
        let g_new = group_list(r.push(w), ls.last());
        lemma_sort_by_len_len(g_old);
        lemma_sort_by_len_len(g_new);
    }
}

/// The flattened groups hold exactly as many words as `r`.
pub proof fn lemma_concat_groups_len(r: Seq<Seq<char>>)
    ensures
        concat_groups(r, first_letters(r)).len() == r.len(),
    decreases r.len(),
{
    if r.len() > 0 {
        let r0 = r.drop_last();
        let w = r.last();
        let c0 = w[0];
        lemma_concat_groups_len(r0);
        lemma_first_letters_distinct(r0);
        assert(r0.push(w) =~= r);
        let ls0 = first_letters(r0);
        lemma_first_letters_push(r0, w);
        if ls0.contains(c0) {
            assert(first_letters(r) == ls0);
            lemma_count_occ_one(ls0, c0);
            lemma_concat_push_word(r0, w, ls0);
        } else {
            assert(first_letters(r) == ls0.push(c0));
            lemma_count_occ_zero(ls0, c0);
            lemma_concat_push_word(r0, w, ls0);
            assert(ls0.push(c0).drop_last() =~= ls0);
            assert(ls0.push(c0).last() == c0);
            assert(concat_groups(r, ls0.push(c0)) == concat_groups(r, ls0) + sort_by_len(
                group_list(r, c0),
            ));
            lemma_group_push(r0, w, c0);
            assert(group_list(r0, c0).len() == 0) by {
                if group_list(r0, c0).len() > 0 {
                    lemma_group_letter_known(r0, c0);
                }
            }
            assert(group_list(r0, c0) =~= Seq::<Seq<char>>::empty());
            lemma_sort_by_len_len(group_list(r, c0));
        }
    }
}

/// The words of an insertion are the original words plus the inserted one.
proof fn lemma_insert_elems(g: Seq<Seq<char>>, w: Seq<char>)
    ensures
        forall|x: Seq<char>|
            #[trigger] insert_by_len(g, w).contains(x) <==> (g.contains(x) || x == w),
    decreases g.len(),
{
    broadcast use vstd::seq_lib::group_seq_properties;

    if g.len() == 0 {
        assert(insert_by_len(g, w) =~= seq![w]);
        assert(forall|x: Seq<char>| #[trigger] seq![w].contains(x) <==> x == w);
    } else if g[0].len() >= w.len() {
        lemma_insert_elems(g.skip(1), w);
        let tail = insert_by_len(g.skip(1), w);
        let ins = insert_by_len(g, w);
        assert(ins == seq![g[0]] + tail);
        assert forall|x: Seq<char>| #[trigger] ins.contains(x) implies (g.contains(x) || x == w) by {
            let i = choose|i: int| 0 <= i < ins.len() && ins[i] == x;
            if i == 0 {
                assert(g[0] == x);
            } else {
                assert(tail[i - 1] == x);
                assert(tail.contains(x));
                if g.skip(1).contains(x) {
                    let j = choose|j: int| 0 <= j < g.skip(1).len() && g.skip(1)[j] == x;
                    assert(g[j + 1] == x);
                }
            }
        }
        assert forall|x: Seq<char>| (g.contains(x) || x == w) implies #[trigger] ins.contains(
            x,
        ) by {
            if x == w || g.skip(1).contains(x) {
                assert(tail.contains(x));
                let j = choose|j: int| 0 <= j < tail.len() && tail[j] == x;
                assert(ins[j + 1] == x);
            } else {
                let i = choose|i: int| 0 <= i < g.len() && g[i] == x;
                if i == 0 {
                    assert(ins[0] == x);
                } else {
                    assert(g.skip(1)[i - 1] == x);
                    assert(g.skip(1).contains(x));
                }
            }
        }
    } else {
        let ins = insert_by_len(g, w);
        assert(ins == seq![w] + g);
        assert forall|x: Seq<char>| #[trigger] ins.contains(x) implies (g.contains(x) || x == w) by {
            let i = choose|i: int| 0 <= i < ins.len() && ins[i] == x;
            if i > 0 {
                assert(g[i - 1] == x);
            }
        }
        assert forall|x: Seq<char>| (g.contains(x) || x == w) implies #[trigger] ins.contains(
            x,
        ) by {
            if x == w {
                assert(ins[0] == x);
            } else {
                let i = choose|i: int| 0 <= i < g.len() && g[i] == x;
                assert(ins[i + 1] == x);
            }
        }
    }
}

/// Sorting keeps exactly the same words.
pub proof fn lemma_sort_elems(g: Seq<Seq<char>>)
    ensures
        forall|x: Seq<char>| #[trigger] sort_by_len(g).contains(x) <==> g.contains(x),
    decreases g.len(),
{
    broadcast use vstd::seq_lib::group_seq_properties;

    if g.len() > 0 {
        lemma_sort_elems(g.drop_last());
        lemma_insert_elems(sort_by_len(g.drop_last()), g.last());
        assert(g =~= g.drop_last().push(g.last()));
    }
}

/// Every word of a group starts with the group's letter.
proof fn lemma_group_members_start(r: Seq<Seq<char>>, c: char)
    ensures
        forall|x: Seq<char>| #[trigger] group_list(r, c).contains(x) ==> x.len() >= 1 ==> x[0] == c,
        forall|x: Seq<char>| #[trigger] group_list(r, c).contains(x) ==> x[0] == c,
    decreases r.len(),
{
    if r.len() > 0 {
        lemma_group_members_start(r.drop_last(), c);
        let g = group_list(r, c);
        let pre = group_list(r.drop_last(), c);
        assert forall|x: Seq<char>| #[trigger] g.contains(x) implies x[0] == c by {
            if r.last()[0] == c {
                assert(g == pre.push(r.last()));
                let i = choose|i: int| 0 <= i < g.len() && g[i] == x;
                if i < pre.len() {
                    assert(pre[i] == x);
                    assert(pre.contains(x));
                } else {
                    assert(x == r.last());
                }
            } else {
                assert(g == pre);
            }
        }
    }
}

/// Every word of a group is a word of `r`.
proof fn lemma_group_elems(r: Seq<Seq<char>>, c: char)
    ensures
        forall|x: Seq<char>| #[trigger] group_list(r, c).contains(x) ==> r.contains(x),
    decreases r.len(),
{
    broadcast use vstd::seq_lib::group_seq_properties;

    if r.len() > 0 {
        lemma_group_elems(r.drop_last(), c);
        assert forall|x: Seq<char>| r.drop_last().contains(x) implies r.contains(x) by {
            let j = choose|j: int| 0 <= j < r.drop_last().len() && r.drop_last()[j] == x;
            assert(r[j] == x);
        }
        assert(r[r.len() - 1] == r.last());
        assert(r.contains(r.last()));
        let g = group_list(r, c);
        let pre = group_list(r.drop_last(), c);
        assert forall|x: Seq<char>| #[trigger] g.contains(x) implies r.contains(x) by {
            if r.last()[0] == c {
                assert(g == pre.push(r.last()));
                let i = choose|i: int| 0 <= i < g.len() && g[i] == x;
                if i < pre.len() {
                    assert(pre[i] == x);
                    assert(pre.contains(x));
                } else {
                    assert(x == r.last());
                }
            } else {
                assert(g == pre);
            }
        }
    }
}

/// Every word of the flattened groups is a word of `r`.
pub proof fn lemma_concat_elems(r: Seq<Seq<char>>, ls: Seq<char>)
    ensures
        forall|x: Seq<char>| #[trigger] concat_groups(r, ls).contains(x) ==> r.contains(x),
    decreases ls.len(),
{
    broadcast use vstd::seq_lib::group_seq_properties;

    if ls.len() > 0 {
        lemma_concat_elems(r, ls.drop_last());
        lemma_group_elems(r, ls.last());
        lemma_sort_elems(group_list(r, ls.last()));
        let pre = concat_groups(r, ls.drop_last());
        let grp = sort_by_len(group_list(r, ls.last()));
        assert(concat_groups(r, ls) == pre + grp);
        assert forall|x: Seq<char>| #[trigger] concat_groups(r, ls).contains(x) implies r.contains(
            x,
        ) by {
            let i = choose|i: int| 0 <= i < (pre + grp).len() && (pre + grp)[i] == x;
            if i < pre.len() {
                assert(pre[i] == x);
                assert(pre.contains(x));
            } else {
                assert(grp[i - pre.len()] == x);
                assert(grp.contains(x));
            }
        }
    }
}

/// Every word the dictionary will hold for `(p, ws)` survives the filter.
pub proof fn lemma_model_words_retained<const S: usize, const L: usize>(
    p: &LBPuzzle<S, L>,
    ws: Seq<Seq<char>>,
)
    ensures
        forall|i: int|
            0 <= i < dict_flat_model(p, ws).len() ==> word_retained(
                p,
                #[trigger] dict_flat_model(p, ws)[i],
            ),
{
    let r = retained_list(p, ws);
    let m = dict_flat_model(p, ws);
    lemma_concat_elems(r, first_letters(r));
    lemma_retained_elements(p, ws);
    assert forall|i: int| 0 <= i < m.len() implies word_retained(p, #[trigger] m[i]) by {
        assert(m.contains(m[i]));
        assert(r.contains(m[i]));
        let j = choose|j: int| 0 <= j < r.len() && r[j] == m[i];
        assert(word_retained(p, r[j]));
    }
}

} // verus!

verus! {

/// A fresh vector holding the same word values.
pub(crate) fn clone_words(v: &Vec<String>) -> (r: Vec<String>)
    ensures
        r@ == v@,
{
    let mut out: Vec<String> = Vec::new();
    let mut i: usize = 0;
    while i < v.len()
        invariant
            i <= v@.len(),
            out@ == v@.take(i as int),
        decreases v@.len() - i,
    {
        out.push(v[i].clone());
        proof {
            assert(out@ =~= v@.take(i as int + 1));
        }
        i += 1;
    }
    proof {
        assert(out@ =~= v@);
    }
    out
}

/// A scan that stops at the first strictly shorter word finds the position
/// `insert_by_len` uses.
proof fn lemma_insert_by_len_at(g: Seq<Seq<char>>, w: Seq<char>, t: int)
    requires
        0 <= t <= g.len(),
        forall|k: int| 0 <= k < t ==> (#[trigger] g[k]).len() >= w.len(),
        t == g.len() || g[t].len() < w.len(),
    ensures
        insert_by_len(g, w) == g.take(t) + seq![w] + g.skip(t),
    decreases t,
{
    if g.len() == 0 {
        assert(insert_by_len(g, w) =~= g.take(0) + seq![w] + g.skip(0));
    } else if t == 0 {
        assert(insert_by_len(g, w) == seq![w] + g);
        assert(seq![w] + g =~= g.take(0) + seq![w] + g.skip(0));
    } else {
        assert(g[0].len() >= w.len());
        assert(forall|k: int| 0 <= k < t - 1 ==> (#[trigger] g.skip(1)[k]).len() == g[k + 1].len());
        lemma_insert_by_len_at(g.skip(1), w, t - 1);
        assert(insert_by_len(g, w) == seq![g[0]] + (g.skip(1).take(t - 1) + seq![w] + g.skip(
            1,
        ).skip(t - 1)));
        assert(seq![g[0]] + (g.skip(1).take(t - 1) + seq![w] + g.skip(1).skip(t - 1)) =~= g.take(t)
            + seq![w] + g.skip(t));
    }
}

/// Position after every word at least `wlen` letters long.
fn find_insert_pos(sorted: &Vec<String>, wlen: usize) -> (t: usize)
    ensures
        t <= sorted@.len(),
        forall|k: int| 0 <= k < t as int ==> (#[trigger] sorted.deep_view()[k]).len() >= wlen,
        t as int == sorted@.len() || sorted.deep_view()[t as int].len() < wlen,
{
    let mut t: usize = 0;
    while t < sorted.len()
        invariant
            t <= sorted@.len(),
            forall|k: int| 0 <= k < t as int ==> (#[trigger] sorted.deep_view()[k]).len() >= wlen,
        decreases sorted@.len() - t,
    {
        proof {
            lemma_word_view(sorted, t as int);
        }
        if sorted[t].as_str().unicode_len() < wlen {
            return t;
        }
        t += 1;
    }
    t
}

/// Insert a word into a list kept sorted by descending length.
fn insert_word_by_len(sorted: &mut Vec<String>, w: String)
    ensures
        final(sorted).deep_view() == insert_by_len(old(sorted).deep_view(), w@),
{
    let wl = w.as_str().unicode_len();
    let t = find_insert_pos(sorted, wl);
    let ghost g = sorted.deep_view();
    sorted.insert(t, w);
    proof {
        lemma_insert_by_len_at(g, w@, t as int);
        assert(sorted.deep_view() =~~= g.take(t as int) + seq![w@] + g.skip(t as int));
    }
}

/// Sort a letter group by descending word length (stable).
fn sort_group_words(v: &Vec<String>) -> (r: Vec<String>)
    ensures
        r.deep_view() == sort_by_len(v.deep_view()),
{
    let mut sorted: Vec<String> = Vec::new();
    let mut t: usize = 0;
    while t < v.len()
        invariant
            t <= v@.len(),
            v@.len() == v.deep_view().len(),
            sorted.deep_view() == sort_by_len(v.deep_view().take(t as int)),
        decreases v@.len() - t,
    {
        proof {
            lemma_word_view(v, t as int);
        }
        insert_word_by_len(&mut sorted, v[t].clone());
        proof {
            assert(v.deep_view().take(t as int + 1).drop_last() =~= v.deep_view().take(t as int));
            assert(v.deep_view().take(t as int + 1).last() == v.deep_view()[t as int]);
        }
        t += 1;
    }
    proof {
        assert(v.deep_view().take(v@.len() as int) =~= v.deep_view());
    }
    sorted
}

/// One letter group while the dictionary is being built.
struct GroupBuild {
    letter: char,
    words: Vec<String>,
}

/// Scan for the group keyed by `c`.
fn find_group(builders: &Vec<GroupBuild>, c: char) -> (r: Option<usize>)
    ensures
        match r {
            Some(t) => (t as int) < builders@.len() && builders@[t as int].letter == c && forall|
                k: int,
            | 0 <= k < t as int ==> (#[trigger] builders@[k]).letter != c,
            None => forall|k: int| 0 <= k < builders@.len() ==> (#[trigger] builders@[k]).letter != c,
        },
{
    let mut t: usize = 0;
    while t < builders.len()
        invariant
            t <= builders@.len(),
            forall|k: int| 0 <= k < t as int ==> (#[trigger] builders@[k]).letter != c,
        decreases builders@.len() - t,
    {
        if builders[t].letter == c {
            return Some(t);
        }
        t += 1;
    }
    None
}

} // verus!

verus! {

/// One letter group of the finished dictionary: its letter and the segment
/// of the flat word list it occupies.
struct DictGroup {
    letter: char,
    start: usize,
    count: usize,
}

/// A dictionary which only contains the words & information actually needed
/// to evaluate a specific puzzle: the surviving words, grouped by first
/// letter and sorted longest-first within each group, with a stable global
/// index for every word (its position in the flat list).
pub struct SmartDictionary {
    flat: Vec<String>,
    groups: Vec<DictGroup>,
}

impl SmartDictionary {
    /// The group segments lie inside the flat list and together cover it,
    /// group letters are pairwise distinct, and every word of a segment has
    /// at least three letters and starts with the segment's letter.
    #[verifier::type_invariant]
    pub closed spec fn inv(&self) -> bool {
        &&& forall|k: int|
            0 <= k < self.groups@.len() ==> (#[trigger] self.groups@[k]).start as int
                + self.groups@[k].count as int <= self.flat@.len()
        &&& forall|k1: int, k2: int|
            0 <= k1 < k2 < self.groups@.len() ==> (#[trigger] self.groups@[k1]).letter != (
            #[trigger] self.groups@[k2]).letter
        &&& forall|k: int, j: int|
            0 <= k < self.groups@.len() && self.groups@[k].start as int <= j < self.groups@[k].start
                as int + self.groups@[k].count as int ==> ((#[trigger] self.flat@[j])@.len() >= 3
                && self.flat@[j]@[0] == (#[trigger] self.groups@[k]).letter)
        &&& forall|j: int|
            #![trigger self.flat@[j]]
            0 <= j < self.flat@.len() ==> {
                let k = first_pos_in(self.letters_view(), self.flat@[j]@[0], 0);
                &&& 0 <= k < self.groups@.len()
                &&& self.groups@[k].start as int <= j < self.groups@[k].start as int
                    + self.groups@[k].count as int
                &&& self.groups@[k].letter == self.flat@[j]@[0]
            }
    }

    /// Consequences of the invariant over the public views: every stored
    /// word has at least three letters, and a word starting with `c` lies in
    /// `c`'s group segment.
    pub proof fn lemma_inv_words(&self)
        requires
            self.inv(),
        ensures
            forall|j: int|
                0 <= j < self.flat_view().len() ==> (#[trigger] self.flat_view()[j]).len() >= 3,
            forall|j: int|
                0 <= j < self.flat_view().len() ==> self.letters_view().contains(
                    (#[trigger] self.flat_view()[j])[0],
                ) && self.group_start_of(self.flat_view()[j][0]) <= j
                    < self.group_start_of(self.flat_view()[j][0]) + self.group_count_of(
                    self.flat_view()[j][0],
                ),
    {
        assert forall|j: int|
            0 <= j < self.flat_view().len() implies ((#[trigger] self.flat_view()[j]).len() >= 3
            && self.letters_view().contains(self.flat_view()[j][0]) && self.group_start_of(
            self.flat_view()[j][0],
        ) <= j < self.group_start_of(self.flat_view()[j][0]) + self.group_count_of(
            self.flat_view()[j][0],
        )) by {
            lemma_word_view(&self.flat, j);
            let c = self.flat@[j]@[0];
            let k = first_pos_in(self.letters_view(), c, 0);
            assert(self.letters_view()[k] == c);
            assert(self.letters_view().contains(c));
        }
    }

    /// All retained words, in global index order.
    pub closed spec fn flat_view(&self) -> Seq<Seq<char>> {
        self.flat.deep_view()
    }

    /// The group letters, in group order.
    pub closed spec fn letters_view(&self) -> Seq<char> {
        Seq::new(self.groups@.len(), |k: int| self.groups@[k].letter)
    }

    /// Global index of the first word of `c`'s group.
    pub closed spec fn group_start_of(&self, c: char) -> int {
        self.groups@[first_pos_in(self.letters_view(), c, 0)].start as int
    }

    /// Number of words in `c`'s group.
    pub closed spec fn group_count_of(&self, c: char) -> int {
        self.groups@[first_pos_in(self.letters_view(), c, 0)].count as int
    }

    /// The words of `c`'s group, in order.
    pub open spec fn group_view(&self, c: char) -> Seq<Seq<char>> {
        self.flat_view().subrange(
            self.group_start_of(c),
            self.group_start_of(c) + self.group_count_of(c),
        )
    }

    /// The segment of `c`'s group lies inside the flat list.
    pub proof fn lemma_group_in_range(&self, c: char)
        requires
            self.inv(),
            self.letters_view().contains(c),
        ensures
            0 <= self.group_start_of(c),
            self.group_start_of(c) + self.group_count_of(c) <= self.flat_view().len(),
            self.letters_view()[first_pos_in(self.letters_view(), c, 0)] == c,
            0 <= first_pos_in(self.letters_view(), c, 0) < self.letters_view().len(),
    {
        let ls = self.letters_view();
        let k0 = choose|k0: int| 0 <= k0 < ls.len() && ls[k0] == c;
        lemma_first_pos_le(ls, c, 0, k0);
        let k = first_pos_in(ls, c, 0);
        assert(k <= k0);
        lemma_first_pos_props(ls, c, 0);
        assert(self.groups@[k].start as int + self.groups@[k].count as int <= self.flat@.len());
        assert(self.flat_view().len() == self.flat@.len());
    }
}

/// What `first_pos_in` finds, it finds correctly: the position holds `c`
/// when it is in range.
pub proof fn lemma_first_pos_props(row: Seq<char>, c: char, j: int)
    requires
        0 <= j <= row.len(),
    ensures
        j <= first_pos_in(row, c, j) <= row.len(),
        first_pos_in(row, c, j) < row.len() ==> row[first_pos_in(row, c, j)] == c,
    decreases row.len() - j,
{
    if j < row.len() && row[j] != c {
        lemma_first_pos_props(row, c, j + 1);
    }
}

} // verus!

verus! {

/// Add one retained word to the letter groups: into the group of its first
/// letter, or into a fresh group appended at the end.
fn add_word_to_groups<const S: usize, const L: usize>(
    puzzle: &LBPuzzle<S, L>,
    builders: &mut Vec<GroupBuild>,
    word: &String,
    c0: char,
    Ghost(r_old): Ghost<Seq<Seq<char>>>,
)
    requires
        word@.len() >= 1,
        c0 == word@[0],
        old(builders)@.len() == first_letters(r_old).len(),
        forall|k: int|
            0 <= k < old(builders)@.len() ==> (#[trigger] old(builders)@[k]).letter
                == first_letters(r_old)[k],
        forall|k: int|
            0 <= k < old(builders)@.len() ==> (#[trigger] old(builders)@[k]).words.deep_view()
                == group_list(r_old, old(builders)@[k].letter),
    ensures
        ({
            let r_new = r_old.push(word@);
            &&& final(builders)@.len() == first_letters(r_new).len()
            &&& forall|k: int|
                0 <= k < final(builders)@.len() ==> (#[trigger] final(builders)@[k]).letter
                    == first_letters(r_new)[k]
            &&& forall|k: int|
                0 <= k < final(builders)@.len() ==> (#[trigger] final(builders)@[k]).words.deep_view()
                    == group_list(r_new, final(builders)@[k].letter)
        }),
{
    let ghost ls_old = first_letters(r_old);
    let ghost r_new = r_old.push(word@);
    let ghost old_builders = builders@;
    proof {
        lemma_first_letters_distinct(r_old);
        lemma_first_letters_push(r_old, word@);
        assert(r_new.drop_last() =~= r_old);
        assert(r_new.last() == word@);
    }
    match find_group(builders, c0) {
        Some(t) => {
            proof {
                assert(ls_old[t as int] == c0);
                assert(ls_old.contains(c0));
                assert(first_letters(r_new) == ls_old);
            }
            let mut glist = clone_words(&builders[t].words);
            let ghost g_deep = glist.deep_view();
            proof {
                assert(g_deep =~~= old_builders[t as int].words.deep_view());
            }
            glist.push(word.clone());
            proof {
                assert(glist.deep_view() =~~= g_deep.push(word@));
            }
            builders[t] = GroupBuild { letter: c0, words: glist };
            proof {
                assert forall|k: int| 0 <= k < builders@.len() implies (
                #[trigger] builders@[k]).words.deep_view() == group_list(
                    r_new,
                    builders@[k].letter,
                ) by {
                    lemma_group_push(r_old, word@, builders@[k].letter);
                    if k != t as int {
                        assert(builders@[k] == old_builders[k]);
                        assert(builders@[k].letter == ls_old[k]);
                        assert(ls_old[k] != ls_old[t as int]) by {
                            if k < t as int {
                                assert(ls_old[k] != ls_old[t as int]);
                            } else {
                                assert(ls_old[t as int] != ls_old[k]);
                            }
                        }
                        assert(builders@[k].letter != c0);
                    } else {
                        assert(builders@[k].letter == c0);
                    }
                }
                assert forall|k: int| 0 <= k < builders@.len() implies (
                #[trigger] builders@[k]).letter == first_letters(r_new)[k] by {
                    if k != t as int {
                        assert(builders@[k] == old_builders[k]);
                    }
                }
            }
        },
        None => {
            proof {
                assert(!ls_old.contains(c0)) by {
                    if ls_old.contains(c0) {
                        let k = choose|k: int| 0 <= k < ls_old.len() && ls_old[k] == c0;
                        assert(builders@[k].letter == c0);
                    }
                }
                assert(first_letters(r_new) == ls_old.push(c0));
                assert(group_list(r_old, c0).len() == 0) by {
                    if group_list(r_old, c0).len() > 0 {
                        lemma_group_letter_known(r_old, c0);
                    }
                }
            }
            let mut glist: Vec<String> = Vec::new();
            glist.push(word.clone());
            builders.push(GroupBuild { letter: c0, words: glist });
            proof {
                assert(builders@.len() == old_builders.len() + 1);
                assert forall|k: int| 0 <= k < builders@.len() implies (
                #[trigger] builders@[k]).words.deep_view() == group_list(
                    r_new,
                    builders@[k].letter,
                ) by {
                    lemma_group_push(r_old, word@, builders@[k].letter);
                    if k < old_builders.len() {
                        assert(builders@[k] == old_builders[k]);
                        assert(builders@[k].letter == ls_old[k]);
                        assert(builders@[k].letter != c0) by {
                            if ls_old[k] == c0 {
                                assert(ls_old.contains(c0));
                            }
                        }
                    } else {
                        assert(builders@[k].letter == c0);
                        assert(group_list(r_old, c0) =~= Seq::<Seq<char>>::empty());
                        assert(builders@[k].words.deep_view() =~~= group_list(r_old, c0).push(
                            word@,
                        ));
                    }
                }
                assert forall|k: int| 0 <= k < builders@.len() implies (
                #[trigger] builders@[k]).letter == first_letters(r_new)[k] by {
                    if k < old_builders.len() {
                        assert(builders@[k] == old_builders[k]);
                        assert(first_letters(r_new)[k] == ls_old[k]);
                    } else {
                        assert(first_letters(r_new)[k] == c0);
                    }
                }
            }
        },
    }
}

/// Filter the words and group the survivors by first letter, keeping
/// first-appearance order of the letters.
fn build_groups<const S: usize, const L: usize>(
    puzzle: &LBPuzzle<S, L>,
    words: &Vec<String>,
) -> (builders: Vec<GroupBuild>)
    ensures
        ({
            let r0 = retained_list(puzzle, words.deep_view());
            let ls = first_letters(r0);
            &&& builders@.len() == ls.len()
            &&& forall|k: int| 0 <= k < builders@.len() ==> (#[trigger] builders@[k]).letter == ls[k]
            &&& forall|k: int|
                0 <= k < builders@.len() ==> (#[trigger] builders@[k]).words.deep_view()
                    == group_list(r0, builders@[k].letter)
        }),
{
    let ghost ws = words.deep_view();
    proof {
        assert(ws.len() == words@.len());
    }
    let mut builders: Vec<GroupBuild> = Vec::new();
    let mut i: usize = 0;
    while i < words.len()
        invariant
            ws == words.deep_view(),
            ws.len() == words@.len(),
            i <= ws.len(),
            builders@.len() == first_letters(retained_list(puzzle, ws.take(i as int))).len(),
            forall|k: int|
                0 <= k < builders@.len() ==> (#[trigger] builders@[k]).letter == first_letters(
                    retained_list(puzzle, ws.take(i as int)),
                )[k],
            forall|k: int|
                0 <= k < builders@.len() ==> (#[trigger] builders@[k]).words.deep_view()
                    == group_list(retained_list(puzzle, ws.take(i as int)), builders@[k].letter),
        decreases ws.len() - i,
    {
        proof {
            lemma_word_view(words, i as int);
        }
        let wchars = chars_of(words[i].as_str());
        let ghost r_old = retained_list(puzzle, ws.take(i as int));
        proof {
            assert(ws.take(i as int + 1).drop_last() =~= ws.take(i as int));
            assert(ws.take(i as int + 1).last() == ws[i as int]);
        }
        if word_is_legal(puzzle, &wchars) {
            proof {
                assert(retained_list(puzzle, ws.take(i as int + 1)) == r_old.push(ws[i as int]));
            }
            let c0 = wchars[0];
            add_word_to_groups(puzzle, &mut builders, &words[i], c0, Ghost(r_old));
        } else {
            proof {
                assert(retained_list(puzzle, ws.take(i as int + 1)) == r_old);
            }
        }
        i += 1;
    }
    proof {
        assert(ws.take(ws.len() as int) =~= ws);
    }
    builders
}

/// The state of the flattening pass after the first `g` groups: the flat
/// list holds exactly those groups' sorted words, and each recorded segment
/// points at its group's words.
spec fn flatten_state_ok(
    flat_deep: Seq<Seq<char>>,
    dgs: Seq<DictGroup>,
    r0: Seq<Seq<char>>,
    ls: Seq<char>,
    g: int,
) -> bool {
    &&& flat_deep == concat_groups(r0, ls.take(g))
    &&& dgs.len() == g
    &&& forall|k: int| 0 <= k < g ==> (#[trigger] dgs[k]).letter == ls[k]
    &&& forall|k: int|
        0 <= k < g ==> (#[trigger] dgs[k]).count as int == sort_by_len(group_list(r0, ls[k])).len()
    &&& forall|k: int|
        0 <= k < g ==> (#[trigger] dgs[k]).start as int == concat_groups(r0, ls.take(k)).len()
    &&& forall|k: int|
        0 <= k < g ==> flat_deep.subrange(
            (#[trigger] dgs[k]).start as int,
            dgs[k].start as int + dgs[k].count as int,
        ) == sort_by_len(group_list(r0, ls[k]))
}

/// One more letter group only lengthens the flattened list.
proof fn lemma_concat_take_mono(r0: Seq<Seq<char>>, ls: Seq<char>, a: int, b: int)
    requires
        0 <= a <= b <= ls.len(),
    ensures
        concat_groups(r0, ls.take(a)).len() <= concat_groups(r0, ls.take(b)).len(),
    decreases b - a,
{
    if a < b {
        lemma_concat_take_mono(r0, ls, a, b - 1);
        assert(ls.take(b).drop_last() =~= ls.take(b - 1));
        assert(concat_groups(r0, ls.take(b)) == concat_groups(r0, ls.take(b - 1)) + sort_by_len(
            group_list(r0, ls.take(b).last()),
        ));
    }
}

/// One group's flattened segment ends where the next begins.
proof fn lemma_concat_take_step(r0: Seq<Seq<char>>, ls: Seq<char>, k: int)
    requires
        0 <= k < ls.len(),
    ensures
        concat_groups(r0, ls.take(k + 1)).len() == concat_groups(r0, ls.take(k)).len()
            + sort_by_len(group_list(r0, ls[k])).len(),
{
    assert(ls.take(k + 1).drop_last() =~= ls.take(k));
    assert(ls.take(k + 1).last() == ls[k]);
}

/// One flattening step, stated over the mathematical state: appending group
/// `g`'s sorted words and its segment record preserves the pass's state.
proof fn lemma_flatten_step(
    flat_deep: Seq<Seq<char>>,
    dgs: Seq<DictGroup>,
    r0: Seq<Seq<char>>,
    ls: Seq<char>,
    g: int,
    ng: DictGroup,
)
    requires
        0 <= g < ls.len(),
        flatten_state_ok(flat_deep, dgs, r0, ls, g),
        ng.letter == ls[g],
        ng.start as int == flat_deep.len(),
        ng.count as int == sort_by_len(group_list(r0, ls[g])).len(),
    ensures
        flatten_state_ok(
            flat_deep + sort_by_len(group_list(r0, ls[g])),
            dgs.push(ng),
            r0,
            ls,
            g + 1,
        ),
{
    let seg = sort_by_len(group_list(r0, ls[g]));
    let new_flat = flat_deep + seg;
    let new_dgs = dgs.push(ng);
    lemma_concat_take_step(r0, ls, g);
    assert(ls.take(g + 1).drop_last() =~= ls.take(g));
    assert(ls.take(g + 1).last() == ls[g]);
    assert(concat_groups(r0, ls.take(g + 1)) == concat_groups(r0, ls.take(g)) + seg);
    assert(new_flat == concat_groups(r0, ls.take(g + 1)));
    assert forall|k: int|
        0 <= k < g + 1 implies new_flat.subrange(
        (#[trigger] new_dgs[k]).start as int,
        new_dgs[k].start as int + new_dgs[k].count as int,
    ) == sort_by_len(group_list(r0, ls[k])) by {
        if k < g {
            assert(new_dgs[k] == dgs[k]);
            lemma_concat_take_step(r0, ls, k);
            lemma_concat_take_mono(r0, ls, k + 1, g);
            assert(dgs[k].start as int + dgs[k].count as int <= flat_deep.len());
            lemma_subrange_prefix(
                flat_deep,
                seg,
                dgs[k].start as int,
                dgs[k].start as int + dgs[k].count as int,
            );
        } else {
            assert(new_dgs[k] == ng);
            lemma_subrange_suffix(flat_deep, seg);
        }
    }
}

/// A subrange inside the left part of a concatenation is unchanged.
proof fn lemma_subrange_prefix(a: Seq<Seq<char>>, b: Seq<Seq<char>>, i: int, j: int)
    requires
        0 <= i <= j <= a.len(),
    ensures
        (a + b).subrange(i, j) == a.subrange(i, j),
{
    assert((a + b).subrange(i, j) =~= a.subrange(i, j));
}

/// The right part of a concatenation is its own subrange.
proof fn lemma_subrange_suffix(a: Seq<Seq<char>>, b: Seq<Seq<char>>)
    ensures
        (a + b).subrange(a.len() as int, a.len() + b.len() as int) == b,
{
    assert((a + b).subrange(a.len() as int, a.len() + b.len() as int) =~= b);
}

/// Append `sorted` to `flat`, returning the index its words start at.
fn append_segment(flat: &mut Vec<String>, sorted: Vec<String>) -> (start: usize)
    ensures
        start as int == old(flat)@.len(),
        final(flat)@ == old(flat)@ + sorted@,
        final(flat).deep_view() == old(flat).deep_view() + sorted.deep_view(),
{
    let start = flat.len();
    let mut tail = sorted;
    let ghost old_deep = flat.deep_view();
    let ghost tail_deep = tail.deep_view();
    flat.append(&mut tail);
    proof {
        assert(flat.deep_view() =~~= old_deep + tail_deep);
    }
    start
}

/// Append one sorted group to the flat list and record its segment.
fn flatten_step(
    flat: &mut Vec<String>,
    dgroups: &mut Vec<DictGroup>,
    builders: &Vec<GroupBuild>,
    g: usize,
    Ghost(r0): Ghost<Seq<Seq<char>>>,
    Ghost(ls): Ghost<Seq<char>>,
)
    requires
        builders@.len() == ls.len(),
        (g as int) < ls.len(),
        builders@[g as int].letter == ls[g as int],
        builders@[g as int].words.deep_view() == group_list(r0, builders@[g as int].letter),
        old(flat)@.len() == old(flat).deep_view().len(),
        flatten_state_ok(old(flat).deep_view(), old(dgroups)@, r0, ls, g as int),
    ensures
        final(flat)@.len() == final(flat).deep_view().len(),
        flatten_state_ok(final(flat).deep_view(), final(dgroups)@, r0, ls, g as int + 1),
{
    let sorted = sort_group_words(&builders[g].words);
    let count = sorted.len();
    let letter = builders[g].letter;
    let ghost old_flat = flat.deep_view();
    let ghost seg = sort_by_len(group_list(r0, ls[g as int]));
    proof {
        lemma_sort_by_len_len(group_list(r0, ls[g as int]));
        assert(sorted.deep_view().len() == sorted@.len());
        assert(sorted.deep_view() == seg);
    }
    let start = append_segment(flat, sorted);
    let ghost ng = DictGroup { letter, start, count };
    dgroups.push(DictGroup { letter, start, count });
    proof {
        lemma_flatten_step(old_flat, old(dgroups)@, r0, ls, g as int, ng);
    }
}

/// Every position of the flattened list falls inside one of the first `n`
/// recorded segments.
proof fn lemma_flatten_cover(
    dgs: Seq<DictGroup>,
    r0: Seq<Seq<char>>,
    ls: Seq<char>,
    n: int,
    j: int,
)
    requires
        0 <= n <= ls.len(),
        dgs.len() >= n,
        forall|k: int|
            0 <= k < n ==> (#[trigger] dgs[k]).start as int == concat_groups(r0, ls.take(k)).len(),
        forall|k: int|
            0 <= k < n ==> (#[trigger] dgs[k]).count as int == sort_by_len(
                group_list(r0, ls[k]),
            ).len(),
        0 <= j < concat_groups(r0, ls.take(n)).len(),
    ensures
        exists|k: int|
            0 <= k < n && (#[trigger] dgs[k]).start as int <= j < dgs[k].start as int
                + dgs[k].count as int,
    decreases n,
{
    assert(n > 0) by {
        if n == 0 {
            assert(ls.take(0) =~= Seq::<char>::empty());
        }
    }
    lemma_concat_take_step(r0, ls, n - 1);
    if j >= dgs[n - 1].start as int {
        assert(dgs[n - 1].start as int <= j < dgs[n - 1].start as int + dgs[n - 1].count as int);
    } else {
        lemma_flatten_cover(dgs, r0, ls, n - 1, j);
    }
}

impl SmartDictionary {
    /// Build the dictionary for `puzzle` from a raw word list: keep only the
    /// words the board's filter accepts, group them by first letter in order
    /// of first appearance, sort each group longest-first, and flatten the
    /// groups to assign every word a stable global index.
    #[verifier::rlimit(100)]
    pub fn new<const S: usize, const L: usize>(
        puzzle: &LBPuzzle<S, L>,
        words: &Vec<String>,
    ) -> (d: Self)
        ensures
            ({
                let ws = words.deep_view();
                let r0 = retained_list(puzzle, ws);
                let ls = first_letters(r0);
                &&& d.flat_view() == dict_flat_model(puzzle, ws)
                &&& d.letters_view() == ls
                &&& d.flat_view().len() == r0.len()
                &&& r0.len() <= ws.len()
                &&& forall|c: char|
                    ls.contains(c) ==> #[trigger] d.group_view(c) == sort_by_len(group_list(r0, c))
            }),
    {
        let ghost ws = words.deep_view();
        proof {
            assert(ws.len() == words@.len());
        }
        let builders = build_groups(puzzle, words);
        let ghost r0 = retained_list(puzzle, ws);
        let ghost ls = first_letters(r0);
        // Flatten the sorted groups, recording each group's segment.
        let mut flat: Vec<String> = Vec::new();
        let mut dgroups: Vec<DictGroup> = Vec::new();
        proof {
            assert(ls.take(0) =~= Seq::<char>::empty());
            assert(flat.deep_view() =~~= Seq::<Seq<char>>::empty());
            assert(flat.deep_view() == concat_groups(r0, ls.take(0)));
            assert(flat@.len() == flat.deep_view().len());
        }
        let mut g: usize = 0;
        while g < builders.len()
            invariant
                builders@.len() == ls.len(),
                forall|k: int| 0 <= k < builders@.len() ==> (#[trigger] builders@[k]).letter == ls[k],
                forall|k: int|
                    0 <= k < builders@.len() ==> (#[trigger] builders@[k]).words.deep_view()
                        == group_list(r0, builders@[k].letter),
                g <= ls.len(),
                flat@.len() == flat.deep_view().len(),
                flatten_state_ok(flat.deep_view(), dgroups@, r0, ls, g as int),
            decreases builders@.len() - g,
        {
            flatten_step(&mut flat, &mut dgroups, &builders, g, Ghost(r0), Ghost(ls));
            g += 1;
        }
        proof {
            assert(ls.take(ls.len() as int) =~= ls);
            lemma_concat_groups_len(r0);
            lemma_retained_le(puzzle, ws);
            lemma_first_letters_distinct(r0);
            assert forall|k: int|
                0 <= k < dgroups@.len() implies (#[trigger] dgroups@[k]).start as int
                + dgroups@[k].count as int <= flat@.len() by {
                lemma_concat_take_step(r0, ls, k);
                lemma_concat_take_mono(r0, ls, k + 1, ls.len() as int);
            }
            assert forall|k1: int, k2: int|
                0 <= k1 < k2 < dgroups@.len() implies (#[trigger] dgroups@[k1]).letter != (
            #[trigger] dgroups@[k2]).letter by {
                assert(ls[k1] != ls[k2]);
            }
        }
        proof {
            assert forall|k: int, j: int|
                0 <= k < dgroups@.len() && dgroups@[k].start as int <= j < dgroups@[k].start as int
                    + dgroups@[k].count as int implies ((#[trigger] flat@[j])@.len() >= 3
                && flat@[j]@[0] == (#[trigger] dgroups@[k]).letter) by {
                lemma_word_view(&flat, j);
                let seg = sort_by_len(group_list(r0, ls[k]));
                assert(flat.deep_view().subrange(
                    dgroups@[k].start as int,
                    dgroups@[k].start as int + dgroups@[k].count as int,
                ) == seg);
                let x = flat.deep_view()[j];
                assert(seg[j - dgroups@[k].start as int] == x);
                assert(seg.contains(x));
                lemma_sort_elems(group_list(r0, ls[k]));
                assert(group_list(r0, ls[k]).contains(x));
                lemma_group_members_start(r0, ls[k]);
                lemma_group_elems(r0, ls[k]);
                assert(r0.contains(x));
                lemma_retained_elements(puzzle, ws);
                let t = choose|t: int| 0 <= t < r0.len() && r0[t] == x;
                assert(word_retained(puzzle, r0[t]));
            }
        }
        proof {
            assert(forall|k: int|
                0 <= k < dgroups@.len() ==> (#[trigger] dgroups@[k]).start as int
                    + dgroups@[k].count as int <= flat@.len());
            assert(forall|k1: int, k2: int|
                0 <= k1 < k2 < dgroups@.len() ==> (#[trigger] dgroups@[k1]).letter != (
                #[trigger] dgroups@[k2]).letter);
            assert(forall|k: int, j: int|
                0 <= k < dgroups@.len() && dgroups@[k].start as int <= j < dgroups@[k].start as int
                    + dgroups@[k].count as int ==> ((#[trigger] flat@[j])@.len() >= 3
                    && flat@[j]@[0] == (#[trigger] dgroups@[k]).letter));
            assert forall|j: int| #![trigger flat@[j]] 0 <= j < flat@.len() implies ({
                let k = first_pos_in(Seq::new(dgroups@.len(), |t: int| dgroups@[t].letter), flat@[j]@[0], 0);
                &&& 0 <= k < dgroups@.len()
                &&& dgroups@[k].start as int <= j < dgroups@[k].start as int
                    + dgroups@[k].count as int
                &&& dgroups@[k].letter == flat@[j]@[0]
            }) by {
                assert(flat@.len() == flat.deep_view().len());
                assert(flat.deep_view() == concat_groups(r0, ls.take(ls.len() as int)));
                lemma_flatten_cover(dgroups@, r0, ls, ls.len() as int, j);
                let k0 = choose|k0: int|
                    0 <= k0 < ls.len() && (#[trigger] dgroups@[k0]).start as int <= j
                        < dgroups@[k0].start as int + dgroups@[k0].count as int;
                let lv = Seq::new(dgroups@.len(), |t: int| dgroups@[t].letter);
                let c = flat@[j]@[0];
                assert(c == dgroups@[k0].letter);
                assert(lv[k0] == c);
                assert forall|t: int| 0 <= t < k0 implies lv[t] != c by {
                    if lv[t] == c {
                        assert(dgroups@[t].letter == dgroups@[k0].letter);
                    }
                }
                lemma_first_pos_found(lv, c, k0);
            }
        }
        let d = SmartDictionary { flat, groups: dgroups };
        proof {
            assert(d.letters_view() =~= ls);
            assert forall|c: char| ls.contains(c) implies #[trigger] d.group_view(c) == sort_by_len(
                group_list(r0, c),
            ) by {
                let k0 = choose|k0: int| 0 <= k0 < ls.len() && ls[k0] == c;
                assert forall|j: int| 0 <= j < k0 implies d.letters_view()[j] != c by {
                    if d.letters_view()[j] == c {
                        assert(ls[j] == c && ls[k0] == c);
                    }
                }
                lemma_first_pos_found(d.letters_view(), c, k0);
                assert(d.group_view(c) == sort_by_len(group_list(r0, ls[k0])));
            }
        }
        d
    }
}

} // verus!

verus! {

impl SmartDictionary {
    /// The total number of words in the dictionary.
    pub fn len(&self) -> (r: usize)
        ensures
            r == self.flat_view().len(),
    {
        self.flat.len()
    }

    /// The word at a given stable index, per `get_flat_indexed`.
    pub fn get_word_by_idx(&self, idx: usize) -> (r: Option<String>)
        ensures
            r is Some <==> (idx as int) < self.flat_view().len(),
            r matches Some(w) ==> w@ == self.flat_view()[idx as int],
    {
        if idx < self.flat.len() {
            proof {
                lemma_word_view(&self.flat, idx as int);
            }
            Some(self.flat[idx].clone())
        } else {
            None
        }
    }

    /// A copy of all words, in stable index order.
    pub fn get_flat(&self) -> (r: Vec<String>)
        ensures
            r.deep_view() == self.flat_view(),
    {
        let r = clone_words(&self.flat);
        proof {
            assert(r.deep_view() =~~= self.flat.deep_view());
        }
        r
    }

    /// All words alongside their stable indices, in index order.
    pub fn get_flat_indexed(&self) -> (r: Vec<(usize, String)>)
        ensures
            r@.len() == self.flat_view().len(),
            forall|i: int|
                0 <= i < r@.len() ==> (#[trigger] r@[i]).0 == i && r@[i].1@ == self.flat_view()[i],
    {
        let mut out: Vec<(usize, String)> = Vec::new();
        let mut i: usize = 0;
        while i < self.flat.len()
            invariant
                i <= self.flat@.len(),
                self.flat@.len() == self.flat_view().len(),
                out@.len() == i as int,
                forall|k: int|
                    0 <= k < i as int ==> (#[trigger] out@[k]).0 == k && out@[k].1@
                        == self.flat_view()[k],
            decreases self.flat@.len() - i,
        {
            proof {
                lemma_word_view(&self.flat, i as int);
            }
            out.push((i, self.flat[i].clone()));
            i += 1;
        }
        out
    }

    /// All words starting with `c`, longest first, or `None` if the board's
    /// filter kept no such word.
    pub fn get(&self, c: char) -> (r: Option<Vec<String>>)
        ensures
            r is Some <==> self.letters_view().contains(c),
            r matches Some(g) ==> g.deep_view() == self.group_view(c),
            r is Some ==> 0 <= self.group_start_of(c) && 0 <= self.group_count_of(c)
                && self.group_start_of(c) + self.group_count_of(c) <= self.flat_view().len(),
    {
        proof {
            use_type_invariant(self);
        }
        let mut t: usize = 0;
        while t < self.groups.len()
            invariant
                self.inv(),
                t <= self.groups@.len(),
                forall|k: int| 0 <= k < t as int ==> (#[trigger] self.groups@[k]).letter != c,
            decreases self.groups@.len() - t,
        {
            if self.groups[t].letter == c {
                proof {
                    assert(self.letters_view()[t as int] == c);
                    assert(self.letters_view().contains(c));
                    assert forall|j: int| 0 <= j < t as int implies self.letters_view()[j] != c by {}
                    lemma_first_pos_found(self.letters_view(), c, t as int);
                }
                let start = self.groups[t].start;
                let count = self.groups[t].count;
                let total = self.flat.len();
                let mut out: Vec<String> = Vec::new();
                let mut j: usize = 0;
                while j < count
                    invariant
                        j <= count,
                        start as int + count as int <= self.flat@.len(),
                        self.flat@.len() == total as int,
                        self.flat@.len() == self.flat_view().len(),
                        start as int == self.group_start_of(c),
                        count as int == self.group_count_of(c),
                        out@.len() == j as int,
                        forall|k: int|
                            0 <= k < j as int ==> (#[trigger] out@[k])@ == self.flat_view()[start
                                as int + k],
                    decreases count - j,
                {
                    proof {
                        lemma_word_view(&self.flat, start as int + j as int);
                    }
                    out.push(self.flat[start + j].clone());
                    j += 1;
                }
                proof {
                    assert(out.deep_view() =~~= self.group_view(c));
                }
                return Some(out);
            }
            t += 1;
        }
        proof {
            assert(!self.letters_view().contains(c)) by {
                if self.letters_view().contains(c) {
                    let k = choose|k: int|
                        0 <= k < self.letters_view().len() && self.letters_view()[k] == c;
                    assert(self.groups@[k].letter == c);
                }
            }
        }
        None
    }

    /// All words of `c`'s group alongside their stable global indices, or
    /// `None` if the board's filter kept no word starting with `c`.
    pub fn get_indexed(&self, c: char) -> (r: Option<Vec<(usize, String)>>)
        ensures
            r is Some <==> self.letters_view().contains(c),
            r matches Some(g) ==> {
                &&& g@.len() == self.group_count_of(c)
                &&& forall|j: int|
                    0 <= j < g@.len() ==> (#[trigger] g@[j]).0 as int == self.group_start_of(c) + j
                        && g@[j].1@ == self.flat_view()[self.group_start_of(c) + j]
            },
            r is Some ==> 0 <= self.group_start_of(c) && 0 <= self.group_count_of(c)
                && self.group_start_of(c) + self.group_count_of(c) <= self.flat_view().len(),
    {
        proof {
            use_type_invariant(self);
        }
        let mut t: usize = 0;
        while t < self.groups.len()
            invariant
                self.inv(),
                t <= self.groups@.len(),
                forall|k: int| 0 <= k < t as int ==> (#[trigger] self.groups@[k]).letter != c,
            decreases self.groups@.len() - t,
        {
            if self.groups[t].letter == c {
                proof {
                    assert(self.letters_view()[t as int] == c);
                    assert(self.letters_view().contains(c));
                    assert forall|j: int| 0 <= j < t as int implies self.letters_view()[j] != c by {}
                    lemma_first_pos_found(self.letters_view(), c, t as int);
                }
                let start = self.groups[t].start;
                let count = self.groups[t].count;
                let total = self.flat.len();
                let mut out: Vec<(usize, String)> = Vec::new();
                let mut j: usize = 0;
                while j < count
                    invariant
                        j <= count,
                        start as int + count as int <= self.flat@.len(),
                        self.flat@.len() == total as int,
                        self.flat@.len() == self.flat_view().len(),
                        start as int == self.group_start_of(c),
                        count as int == self.group_count_of(c),
                        out@.len() == j as int,
                        forall|k: int|
                            0 <= k < j as int ==> (#[trigger] out@[k]).0 as int == start as int + k
                                && out@[k].1@ == self.flat_view()[start as int + k],
                    decreases count - j,
                {
                    proof {
                        lemma_word_view(&self.flat, start as int + j as int);
                    }
                    out.push((start + j, self.flat[start + j].clone()));
                    j += 1;
                }
                return Some(out);
            }
            t += 1;
        }
        proof {
            assert(!self.letters_view().contains(c)) by {
                if self.letters_view().contains(c) {
                    let k = choose|k: int|
                        0 <= k < self.letters_view().len() && self.letters_view()[k] == c;
                    assert(self.groups@[k].letter == c);
                }
            }
        }
        None
    }
}

} // verus!

verus! {

/// The dictionary is a strict filter: it never holds more words than the
/// raw list it was built from.
pub proof fn lemma_dictionary_never_grows<const S: usize, const L: usize>(
    p: &LBPuzzle<S, L>,
    ws: Seq<Seq<char>>,
)
    ensures
        dict_flat_model(p, ws).len() == retained_list(p, ws).len(),
        retained_list(p, ws).len() <= ws.len(),
{
    lemma_concat_groups_len(retained_list(p, ws));
    lemma_retained_le(p, ws);
}

/// Rebuilding the dictionary from the same puzzle and word list yields the
/// same word count and the same indexed contents: the views of both builds
/// equal the one mathematical model of the inputs.
pub proof fn lemma_rebuild_deterministic<const S: usize, const L: usize>(
    p: &LBPuzzle<S, L>,
    ws: Seq<Seq<char>>,
    d1: &SmartDictionary,
    d2: &SmartDictionary,
)
    requires
        d1.flat_view() == dict_flat_model(p, ws),
        d2.flat_view() == dict_flat_model(p, ws),
        d1.letters_view() == first_letters(retained_list(p, ws)),
        d2.letters_view() == first_letters(retained_list(p, ws)),
    ensures
        d1.flat_view() == d2.flat_view(),
        d1.flat_view().len() == d2.flat_view().len(),
        d1.letters_view() == d2.letters_view(),
{
}

/// The board index the filter walk carries into letter `i` of a word: none
/// before the first letter, afterwards the first board occurrence of the
/// previous letter.
pub open spec fn filter_prev_idx<const S: usize, const L: usize>(
    p: &LBPuzzle<S, L>,
    w: Seq<char>,
    i: int,
) -> int {
    if i == 0 {
        -1
    } else {
        first_pos_in(p.all_letters_view(), w[i - 1], 0)
    }
}

/// The filter walk accepts every suffix of a retained word.
proof fn lemma_word_ok_at<const S: usize, const L: usize>(
    p: &LBPuzzle<S, L>,
    w: Seq<char>,
    i: int,
)
    requires
        word_ok_from(p, w, 0, -1),
        0 <= i <= w.len(),
    ensures
        word_ok_from(p, w, i, filter_prev_idx(p, w, i)),
    decreases i,
{
    if i > 0 {
        lemma_word_ok_at(p, w, i - 1);
    }
}

/// Every consecutive letter pair of a retained word lies on different board
/// sides: each letter sits on a side other than the side of the previous
/// letter's board position, which is the validator's adjacency rule for the
/// word alone.
pub proof fn lemma_retained_pairs_cross_sides<const S: usize, const L: usize>(
    p: &LBPuzzle<S, L>,
    w: Seq<char>,
)
    requires
        word_retained(p, w),
    ensures
        w.len() >= 1 ==> p.on_other_side(-1, w[0]),
        forall|i: int|
            #![trigger w[i], w[i + 1]]
            0 <= i < w.len() - 1 ==> p.on_other_side(
                p.spec_side_of(first_pos_in(p.all_letters_view(), w[i], 0)),
                w[i + 1],
            ),
{
    if w.len() >= 1 {
        lemma_word_ok_at(p, w, 0);
        assert(p.on_other_side(p.spec_side_of(-1), w[0]));
    }
    assert forall|i: int|
        0 <= i < w.len() - 1 implies p.on_other_side(
        p.spec_side_of(first_pos_in(p.all_letters_view(), #[trigger] w[i], 0)),
        #[trigger] w[i + 1],
    ) by {
        lemma_word_ok_at(p, w, i + 1);
        assert(word_ok_from(p, w, i + 1, filter_prev_idx(p, w, i + 1)));
    }
}

} // verus!

verus! {

/// No letter appears on two different sides of the board (true of every
/// real-world puzzle).
pub open spec fn no_shared_letters<const S: usize, const L: usize>(p: &LBPuzzle<S, L>) -> bool {
    forall|s1: int, s2: int, c: char|
        #![trigger p.sides_view()[s1].contains(c), p.sides_view()[s2].contains(c)]
        0 <= s1 < S as int && 0 <= s2 < S as int && s1 != s2 && p.sides_view()[s1].contains(c)
            ==> !p.sides_view()[s2].contains(c)
}

/// When one side alone holds `c`, the walk's side scan finds exactly it.
proof fn lemma_first_side_unique<const S: usize, const L: usize>(
    p: &LBPuzzle<S, L>,
    c: char,
    prev: int,
    s_star: int,
    s0: int,
)
    requires
        0 <= s0 <= s_star,
        s_star < S as int,
        p.sides_view()[s_star].contains(c),
        s_star != prev,
        forall|s: int| 0 <= s < S as int && s != s_star ==> !(#[trigger] p.sides_view()[s]).contains(c),
    ensures
        p.first_side_from(c, prev, s0) == s_star,
    decreases s_star - s0,
{
    if s0 < s_star {
        lemma_first_side_unique(p, c, prev, s_star, s0 + 1);
    }
}

/// At every position of a retained word, the walk lands on the one side
/// holding that letter.
proof fn lemma_walk_side_tracks<const S: usize, const L: usize>(
    p: &LBPuzzle<S, L>,
    w: Seq<char>,
    i: int,
)
    requires
        p.wf(),
        word_retained(p, w),
        no_shared_letters(p),
        0 <= i < w.len(),
    ensures
        0 <= p.walk_side_at(w, i) && p.walk_side_at(w, i) < S as int,
        p.sides_view()[p.walk_side_at(w, i)].contains(w[i]),
    decreases i,
{
    p.lemma_wf_rows();
    lemma_word_ok_at(p, w, i);
    let fprev = filter_prev_idx(p, w, i);
    assert(word_ok_from(p, w, i, fprev));
    assert(p.on_other_side(p.spec_side_of(fprev), w[i]));
    let s_star = choose|s: int|
        0 <= s < S as int && s != p.spec_side_of(fprev) && (#[trigger] p.sides_view()[s]).contains(
            w[i],
        );
    assert forall|s: int|
        0 <= s < S as int && s != s_star implies !(#[trigger] p.sides_view()[s]).contains(
        w[i],
    ) by {
        if p.sides_view()[s].contains(w[i]) {
            assert(p.sides_view()[s_star].contains(w[i]));
        }
    }
    if i == 0 {
        assert(p.walk_side_at(w, -1) == -1);
        assert(p.walk_side_at(w, 0) == p.first_side_from(w[0], -1, 0));
        lemma_first_side_unique(p, w[0], -1, s_star, 0);
    } else {
        lemma_walk_side_tracks(p, w, i - 1);
        let wprev = p.walk_side_at(w, i - 1);
        // The walk's previous side and the filter's previous side coincide:
        // both are the one side holding the previous letter.
        lemma_word_ok_at(p, w, i - 1);
        assert(word_ok_from(p, w, i - 1, filter_prev_idx(p, w, i - 1)));
        assert(p.on_other_side(p.spec_side_of(filter_prev_idx(p, w, i - 1)), w[i - 1]));
        let fp1 = p.spec_side_of(filter_prev_idx(p, w, i - 1));
        let s1 = choose|s: int|
            0 <= s < S as int && s != fp1 && (#[trigger] p.sides_view()[s]).contains(w[i - 1]);
        assert(p.sides_view()[s1].contains(w[i - 1]));
        assert(wprev == s1) by {
            if wprev != s1 {
                assert(p.sides_view()[wprev].contains(w[i - 1]));
                assert(!p.sides_view()[s1].contains(w[i - 1]));
            }
        }
        let j1 = choose|j: int|
            0 <= j < p.sides_view()[s1].len() && p.sides_view()[s1][j] == w[i - 1];
        assert(p.sides_view()[s1].len() == L as int);
        let pos1 = s1 * L as int + j1;
        assert(0 <= pos1 < (S as int) * (L as int) && pos1 / L as int == s1 && pos1 % L as int
            == j1) by (nonlinear_arith)
            requires
                0 <= s1,
                s1 < S as int,
                0 <= j1,
                j1 < L as int,
                pos1 == s1 * L as int + j1,
        ;
        assert(p.all_letters_view()[pos1] == w[i - 1]);
        lemma_first_pos_le(p.all_letters_view(), w[i - 1], 0, pos1);
        lemma_first_pos_props(p.all_letters_view(), w[i - 1], 0);
        assert(0 <= fprev < (S as int) * (L as int));
        assert(p.all_letters_view()[fprev] == w[i - 1]);
        let fs = fprev / L as int;
        let fj = fprev % L as int;
        assert(0 <= fs < S as int && 0 <= fj < L as int && fs * L as int + fj == fprev)
            by (nonlinear_arith)
            requires
                0 <= fprev,
                fprev < (S as int) * (L as int),
                1 <= L as int,
                fs == fprev / L as int,
                fj == fprev % L as int,
        ;
        assert(p.sides_view()[fs][fj] == w[i - 1]);
        assert(p.sides_view()[fs].contains(w[i - 1]));
        assert(fs == s1) by {
            if fs != s1 {
                assert(!p.sides_view()[fs].contains(w[i - 1]));
            }
        }
        assert(p.spec_side_of(fprev) == wprev);
        assert(p.walk_side_at(w, i) == p.first_side_from(w[i], wprev, 0));
        lemma_first_side_unique(p, w[i], wprev, s_star, 0);
    }
}

/// On a board where no letter is shared between sides, every word the filter
/// retains can be walked around the board on its own: the filtering
/// criterion implies the validator's adjacency rule for that word alone.
pub proof fn lemma_retained_word_walks<const S: usize, const L: usize>(
    p: &LBPuzzle<S, L>,
    w: Seq<char>,
)
    requires
        p.wf(),
        word_retained(p, w),
        no_shared_letters(p),
    ensures
        p.walk_ok(w),
        p.walk_ok(crate::merged_letters(seq![w])),
{
    assert(crate::merged_letters(seq![w]) == w);
    assert forall|k: int| 0 <= k < w.len() implies #[trigger] p.walk_side_at(w, k) != S as int by {
        lemma_walk_side_tracks(p, w, k);
    }
}

} // verus!
