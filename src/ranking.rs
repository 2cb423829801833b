use vstd::prelude::*;

use crate::chars::{to_upper, upper_of};
use crate::document::count_in;
use crate::indexer::{all_wf, index_view, Index};
use crate::lexer::{lemma_lex_step, tokens_of, Lexer};
use crate::chars::same_chars;

verus! {

/// `s` with each element kept only at its first occurrence.
pub open spec fn dedup(s: Seq<Seq<char>>) -> Seq<Seq<char>>
    decreases s.len(),
{
    if s.len() == 0 {
        s
    } else if dedup(s.drop_last()).contains(s.last()) {
        dedup(s.drop_last())
    } else {
        dedup(s.drop_last()).push(s.last())
    }
}

/// The distinct terms of a query: its tokens in uppercase, each once, in the
/// order of their first occurrence.
pub open spec fn query_terms_of(q: Seq<char>) -> Seq<Seq<char>> {
    dedup(tokens_of(q).map_values(|t: Seq<char>| upper_of(t)))
}

/// How many documents hold `t`.
pub open spec fn df_of(docs: Seq<(Seq<char>, Map<Seq<char>, nat>)>, t: Seq<char>) -> nat
    decreases docs.len(),
{
    if docs.len() == 0 {
        0
    } else {
        df_of(docs.drop_last(), t) + if docs.last().1.contains_key(t) {
            1nat
        } else {
            0nat
        }
    }
}

fn contains_term(v: &Vec<Vec<char>>, t: &Vec<char>) -> (r: bool)
    ensures
        r == v@.map_values(|x: Vec<char>| x@).contains(t@),
{
    let mut i: usize = 0;
    while i < v.len()
        invariant
            i <= v@.len(),
            forall|j: int| 0 <= j < i ==> (#[trigger] v@[j])@ != t@,
        decreases v@.len() - i,
    {
        if same_chars(&v[i], t) {
            assert(v@.map_values(|x: Vec<char>| x@)[i as int] == t@);
            return true;
        }
        i += 1;
    }
    proof {
        let m = v@.map_values(|x: Vec<char>| x@);
        if m.contains(t@) {
            let j = choose|j: int| 0 <= j < m.len() && m[j] == t@;
            assert(v@[j]@ == t@);
        }
    }
    false
}

/// The distinct uppercase terms of `query`, in the order they first occur.
pub fn query_terms(query: &[char]) -> (r: Vec<Vec<char>>)
    ensures
        r@.map_values(|x: Vec<char>| x@) == query_terms_of(query@),
{
    let mut lex = Lexer::new(query);
    let mut res: Vec<Vec<char>> = Vec::new();
    let ghost mut done: Seq<Seq<char>> = seq![];
    loop
        invariant
            tokens_of(query@) == done + tokens_of(lex@),
            res@.map_values(|x: Vec<char>| x@) == dedup(done.map_values(|t: Seq<char>| upper_of(t))),
        ensures
            tokens_of(query@) == done,
            res@.map_values(|x: Vec<char>| x@) == dedup(done.map_values(|t: Seq<char>| upper_of(t))),
        decreases lex@.len(),
    {
        let ghost before = lex@;
        proof {
            lemma_lex_step(before);
        }
        match lex.next_token() {
            None => {
                proof {
                    assert(done + tokens_of(before) =~= done);
                }
                break;
            },
            Some(tok) => {
                let ghost t = tok@;
                let up = to_upper(tok);
                let ghost old_res = res@;
                let ghost done2 = done.push(t);
                proof {
                    assert(tokens_of(before) == seq![t] + tokens_of(lex@));
                    assert(done2 + tokens_of(lex@) =~= done + (seq![t] + tokens_of(lex@)));
                    let u2 = done2.map_values(|x: Seq<char>| upper_of(x));
                    assert(u2.drop_last() =~= done.map_values(|x: Seq<char>| upper_of(x)));
                    assert(u2.last() == upper_of(t));
                }
                if !contains_term(&res, &up) {
                    res.push(up);
                    proof {
                        assert(res@.map_values(|x: Vec<char>| x@) =~= old_res.map_values(|x: Vec<char>| x@).push(upper_of(t)));
                    }
                }
                proof {
                    done = done2;
                }
            },
        }
    }
    res
}

/// How many documents of `index` hold `term`.
pub fn document_frequency(index: &Index, term: &Vec<char>) -> (r: usize)
    requires
        all_wf(index@),
    ensures
        r == df_of(index_view(index@), term@),
{
    let mut n: usize = 0;
    let mut i: usize = 0;
    while i < index.len()
        invariant
            all_wf(index@),
            i <= index@.len(),
            n <= i,
            n == df_of(index_view(index@.take(i as int)), term@),
        decreases index@.len() - i,
    {
        proof {
            let v2 = index_view(index@.take(i + 1));
            assert(v2.drop_last() =~= index_view(index@.take(i as int)));
            assert(v2.last() == (index@[i as int].0@, index@[i as int].1@));
        }
        if index[i].1.contains_term(term) {
            n += 1;
        }
        i += 1;
    }
    proof {
        assert(index@.take(i as int) =~= index@);
    }
    n
}

/// The occurrences of `term` in each document of `index`, in index order.
pub fn term_counts(index: &Index, term: &Vec<char>) -> (r: Vec<usize>)
    requires
        all_wf(index@),
    ensures
        r@.len() == index@.len(),
        forall|i: int| 0 <= i < r@.len() ==> #[trigger] r@[i] == count_in(index@[i].1@, term@),
{
    let mut res: Vec<usize> = Vec::new();
    let mut i: usize = 0;
    while i < index.len()
        invariant
            all_wf(index@),
            i <= index@.len(),
            res@.len() == i,
            forall|j: int| 0 <= j < i ==> #[trigger] res@[j] == count_in(index@[j].1@, term@),
        decreases index@.len() - i,
    {
        assert(index@[i as int].1.wf());
        res.push(index[i].1.count_of(term));
        i += 1;
    }
    res
}

/// `(key, index)` pairs in lexicographic order.
pub open spec fn before_in_order(keys: Seq<i64>, a: usize, b: usize) -> bool {
    keys[a as int] < keys[b as int] || (keys[a as int] == keys[b as int] && a < b)
}

/// Every position of `keys` once, ordered by ascending key; positions with
/// equal keys keep their order.
pub open spec fn is_stable_order(keys: Seq<i64>, r: Seq<usize>) -> bool {
    &&& r.len() == keys.len()
    &&& forall|a: int| 0 <= a < r.len() ==> #[trigger] r[a] < keys.len()
    &&& forall|a: int, b: int| 0 <= a < b < r.len() ==> before_in_order(keys, #[trigger] r[a], #[trigger] r[b])
}

/// The positions of `keys` sorted by ascending key, stably.
pub fn rank_order(keys: &Vec<i64>) -> (r: Vec<usize>)
    ensures
        is_stable_order(keys@, r@),
{
    let mut res: Vec<usize> = Vec::new();
    let mut i: usize = 0;
    while i < keys.len()
        invariant
            i <= keys@.len(),
            res@.len() == i,
            forall|a: int| 0 <= a < res@.len() ==> #[trigger] res@[a] < i,
            forall|a: int, b: int| 0 <= a < b < res@.len() ==> before_in_order(keys@, #[trigger] res@[a], #[trigger] res@[b]),
        decreases keys@.len() - i,
    {
        let k = keys[i];
        let mut p: usize = 0;
        while p < res.len() && keys[res[p]] <= k
            invariant
                i < keys@.len(),
                p <= res@.len(),
                forall|a: int| 0 <= a < res@.len() ==> #[trigger] res@[a] < i,
                forall|a: int| 0 <= a < p ==> keys@[#[trigger] res@[a] as int] <= k,
            decreases res@.len() - p,
        {
            p += 1;
        }
        let ghost old_res = res@;
        proof {
            // every entry at or past `p` has a larger key
            assert forall|a: int| p <= a < old_res.len() implies keys@[#[trigger] old_res[a] as int] > k by {
                if a > p {
                    assert(before_in_order(keys@, old_res[p as int], old_res[a]));
                }
            }
        }
        res.insert(p, i);
        proof {
            assert forall|a: int, b: int| 0 <= a < b < res@.len() implies before_in_order(keys@, #[trigger] res@[a], #[trigger] res@[b]) by {
                if a < p && b < p {
                    assert(res@[a] == old_res[a] && res@[b] == old_res[b]);
                } else if a < p && b == p {
                    assert(res@[a] == old_res[a]);
                } else if a < p {
                    assert(res@[a] == old_res[a] && res@[b] == old_res[b - 1]);
                } else if a == p {
                    assert(res@[b] == old_res[b - 1]);
                } else {
                    assert(res@[a] == old_res[a - 1] && res@[b] == old_res[b - 1]);
                }
            }
            assert forall|a: int| 0 <= a < res@.len() implies #[trigger] res@[a] < i + 1 by {
                if a < p {
                    assert(res@[a] == old_res[a]);
                } else if a > p {
                    assert(res@[a] == old_res[a - 1]);
                }
            }
        }
        i += 1;
    }
    res
}

} // verus!
