//! Byte-pair merging: repeatedly join the adjacent pair whose merge rule has
//! the lowest rank until no adjacent pair has a rule.

use vstd::prelude::*;
use vstd::string::*;
use crate::merges::MergeTable;

verus! {

/// The text of each string, in order.
pub open spec fn strings_view(v: Seq<String>) -> Seq<Seq<char>> {
    v.map_values(|s: String| s@)
}

/// The rank of the rule that merges pieces `i` and `i + 1`, if any.
pub open spec fn pair_rank(m: Map<(Seq<char>, Seq<char>), usize>, p: Seq<Seq<char>>, i: int) -> Option<
    usize,
> {
    if 0 <= i && i + 1 < p.len() && m.contains_key((p[i], p[i + 1])) {
        Some(m[(p[i], p[i + 1])])
    } else {
        None
    }
}

/// Pair `i` has a rule, every pair before it has none or a higher rank,
/// and every pair after it has none or a rank at least as high.
pub open spec fn is_best_pair(m: Map<(Seq<char>, Seq<char>), usize>, p: Seq<Seq<char>>, i: int) -> bool {
    &&& pair_rank(m, p, i) is Some
    &&& forall|j: int|
        #![trigger pair_rank(m, p, j)]
        0 <= j < i && pair_rank(m, p, j) is Some ==> pair_rank(m, p, j)->0 > pair_rank(m, p, i)->0
    &&& forall|j: int|
        #![trigger pair_rank(m, p, j)]
        i < j && pair_rank(m, p, j) is Some ==> pair_rank(m, p, j)->0 >= pair_rank(m, p, i)->0
}

/// `p` with pieces `i` and `i + 1` joined into one.
pub open spec fn merged_at(p: Seq<Seq<char>>, i: int) -> Seq<Seq<char>> {
    p.take(i).push(p[i] + p[i + 1]) + p.skip(i + 2)
}

/// One merge step: join the best pair, or `None` when no pair has a rule.
pub open spec fn merge_step(m: Map<(Seq<char>, Seq<char>), usize>, p: Seq<Seq<char>>) -> Option<
    Seq<Seq<char>>,
> {
    if exists|i: int| is_best_pair(m, p, i) {
        Some(merged_at(p, choose|i: int| is_best_pair(m, p, i)))
    } else {
        None
    }
}

/// The pieces left once no more merges apply.
pub open spec fn bpe(m: Map<(Seq<char>, Seq<char>), usize>, p: Seq<Seq<char>>) -> Seq<Seq<char>>
    decreases p.len(),
{
    if exists|i: int| is_best_pair(m, p, i) {
        let i = choose|i: int| is_best_pair(m, p, i);
        bpe(m, merged_at(p, i))
    } else {
        p
    }
}

/// At most one pair is the best one.
pub proof fn lemma_best_pair_unique(
    m: Map<(Seq<char>, Seq<char>), usize>,
    p: Seq<Seq<char>>,
    i: int,
    j: int,
)
    requires
        is_best_pair(m, p, i),
        is_best_pair(m, p, j),
    ensures
        i == j,
{
    if i < j {
        assert(pair_rank(m, p, i)->0 > pair_rank(m, p, j)->0);
    } else if j < i {
        assert(pair_rank(m, p, j)->0 > pair_rank(m, p, i)->0);
    }
}

/// A merge step removes exactly one piece and keeps the text they spell.
pub proof fn lemma_merge_step_shortens(m: Map<(Seq<char>, Seq<char>), usize>, p: Seq<Seq<char>>)
    ensures
        merge_step(m, p) matches Some(q) ==> q.len() + 1 == p.len() && q.flatten() == p.flatten(),
{
    if let Some(q) = merge_step(m, p) {
        let i = choose|i: int| is_best_pair(m, p, i);
        lemma_merged_at_flatten(p, i);
    }
}

proof fn lemma_merged_at_flatten(p: Seq<Seq<char>>, i: int)
    requires
        0 <= i,
        i + 1 < p.len(),
    ensures
        merged_at(p, i).flatten() == p.flatten(),
        merged_at(p, i).len() + 1 == p.len(),
{
    let q = merged_at(p, i);
    vstd::seq_lib::lemma_flatten_concat(p.take(i).push(p[i] + p[i + 1]), p.skip(i + 2));
    p.take(i).lemma_flatten_push(p[i] + p[i + 1]);
    assert(p =~= p.take(i).push(p[i]).push(p[i + 1]) + p.skip(i + 2));
    vstd::seq_lib::lemma_flatten_concat(p.take(i).push(p[i]).push(p[i + 1]), p.skip(i + 2));
    p.take(i).push(p[i]).lemma_flatten_push(p[i + 1]);
    p.take(i).lemma_flatten_push(p[i]);
    assert(p.take(i).flatten() + (p[i] + p[i + 1]) =~= p.take(i).flatten() + p[i] + p[i + 1]);
}

/// Merging never changes the text the pieces spell.
pub proof fn lemma_bpe_preserves_text(m: Map<(Seq<char>, Seq<char>), usize>, p: Seq<Seq<char>>)
    ensures
        bpe(m, p).flatten() == p.flatten(),
    decreases p.len(),
{
    if exists|i: int| is_best_pair(m, p, i) {
        let i = choose|i: int| is_best_pair(m, p, i);
        lemma_merged_at_flatten(p, i);
        lemma_bpe_preserves_text(m, merged_at(p, i));
    }
}

/// The result of merging has no pair left that a rule merges.
pub proof fn lemma_bpe_is_final(m: Map<(Seq<char>, Seq<char>), usize>, p: Seq<Seq<char>>)
    ensures
        forall|j: int| #[trigger] pair_rank(m, bpe(m, p), j) is None,
    decreases p.len(),
{
    if exists|i: int| is_best_pair(m, p, i) {
        let i = choose|i: int| is_best_pair(m, p, i);
        lemma_merged_at_flatten(p, i);
        lemma_bpe_preserves_text(m, merged_at(p, i));
        lemma_bpe_is_final(m, merged_at(p, i));
    } else {
        assert forall|j: int| #[trigger] pair_rank(m, p, j) is None by {
            if pair_rank(m, p, j) is Some {
                lemma_some_pair_has_best(m, p, j);
            }
        }
    }
}

/// If some pair has a rule then some pair is the best one.
proof fn lemma_some_pair_has_best(m: Map<(Seq<char>, Seq<char>), usize>, p: Seq<Seq<char>>, j: int)
    requires
        pair_rank(m, p, j) is Some,
    ensures
        exists|i: int| is_best_pair(m, p, i),
    decreases pair_rank(m, p, j)->0, j,
{
    let r = pair_rank(m, p, j)->0;
    if exists|k: int| 0 <= k && pair_rank(m, p, k) is Some && pair_rank(m, p, k)->0 < r {
        let k = choose|k: int| 0 <= k && pair_rank(m, p, k) is Some && pair_rank(m, p, k)->0 < r;
        lemma_some_pair_has_best(m, p, k);
    } else if exists|k: int| 0 <= k < j && pair_rank(m, p, k) is Some && pair_rank(m, p, k)->0 == r {
        let k = choose|k: int| 0 <= k < j && pair_rank(m, p, k) is Some && pair_rank(m, p, k)->0 == r;
        lemma_some_pair_has_best(m, p, k);
    } else {
        assert(is_best_pair(m, p, j));
    }
}

/// Joins two strings.
fn concat_strings(a: &String, b: &String) -> (s: String)
    ensures
        s@ == a@ + b@,
{
    let mut s = a.clone();
    s.append(b.as_str());
    s
}

/// Joins the best-ranked adjacent pair, or `None` when no pair has a rule.
pub fn merge_once(pieces: &[String], merges: &MergeTable) -> (r: Option<Vec<String>>)
    requires
        merges.wf(),
    ensures
        match merge_step(merges@, strings_view(pieces@)) {
            Some(q) => r matches Some(out) && strings_view(out@) == q,
            None => r is None,
        },
{
    let ghost p = strings_view(pieces@);
    let ghost m = merges@;
    if pieces.len() < 2 {
        proof {
            if exists|i: int| is_best_pair(m, p, i) {
                let i = choose|i: int| is_best_pair(m, p, i);
                assert(pair_rank(m, p, i) is Some);
            }
        }
        return None;
    }
    let mut best_index: Option<usize> = None;
    let mut best_rank: usize = 0;
    let mut index: usize = 0;
    while index < pieces.len() - 1
        invariant
            pieces@.len() >= 2,
            index <= pieces@.len() - 1,
            p == strings_view(pieces@),
            m == merges@,
            merges.wf(),
            match best_index {
                None => forall|j: int| 0 <= j < index ==> #[trigger] pair_rank(m, p, j) is None,
                Some(b) => {
                    &&& b < index
                    &&& pair_rank(m, p, b as int) == Some(best_rank)
                    &&& forall|j: int|
                        #![trigger pair_rank(m, p, j)]
                        0 <= j < b && pair_rank(m, p, j) is Some ==> pair_rank(m, p, j)->0
                            > best_rank
                    &&& forall|j: int|
                        #![trigger pair_rank(m, p, j)]
                        b < j < index && pair_rank(m, p, j) is Some ==> pair_rank(m, p, j)->0
                            >= best_rank
                },
            },
        decreases pieces.len() - 1 - index,
    {
        let rank = merges.get(pieces[index].as_str(), pieces[index + 1].as_str());
        assert(p[index as int] == pieces@[index as int]@);
        assert(p[index + 1] == pieces@[index + 1]@);
        if let Some(rank) = rank {
            if best_index.is_none() || rank < best_rank {
                best_rank = rank;
                best_index = Some(index);
            }
        }
        index = index + 1;
    }
    let best = match best_index {
        Some(b) => b,
        None => {
            proof {
                if exists|i: int| is_best_pair(m, p, i) {
                    let i = choose|i: int| is_best_pair(m, p, i);
                    assert(pair_rank(m, p, i) is Some);
                }
            }
            return None;
        },
    };
    assert(is_best_pair(m, p, best as int));
    proof {
        let i = choose|i: int| is_best_pair(m, p, i);
        lemma_best_pair_unique(m, p, i, best as int);
    }
    let mut output: Vec<String> = Vec::new();
    let mut i: usize = 0;
    while i < pieces.len()
        invariant
            p == strings_view(pieces@),
            best + 1 < pieces@.len(),
            i <= pieces@.len(),
            i != best + 1,
            i <= best ==> strings_view(output@) == p.take(i as int),
            i > best + 1 ==> strings_view(output@) == p.take(best as int).push(
                p[best as int] + p[best + 1],
            ) + p.subrange(best + 2, i as int),
        decreases pieces.len() - i,
    {
        if i == best {
            let joined = concat_strings(&pieces[i], &pieces[i + 1]);
            output.push(joined);
            i = i + 2;
            assert(strings_view(output@) =~= p.take(best as int).push(p[best as int] + p[best + 1])
                + p.subrange(best + 2, i as int));
        } else {
            let piece = pieces[i].clone();
            assert(piece@ == pieces@[i as int]@);
            let ghost before = output@;
            output.push(piece);
            assert(strings_view(output@) == strings_view(before).push(p[i as int]));
            i = i + 1;
            if i <= best {
                assert(strings_view(output@) =~= p.take(i as int));
            } else {
                assert(strings_view(output@) =~= p.take(best as int).push(
                    p[best as int] + p[best + 1],
                ) + p.subrange(best + 2, i as int));
            }
        }
    }
    assert(p.subrange(best + 2, p.len() as int) =~= p.skip(best + 2));
    Some(output)
}

/// Merges pieces until no adjacent pair has a rule.
pub fn apply_merges(pieces: &[String], merges: &MergeTable) -> (out: Vec<String>)
    requires
        merges.wf(),
    ensures
        strings_view(out@) == bpe(merges@, strings_view(pieces@)),
{
    let mut current: Vec<String> = Vec::new();
    let mut i: usize = 0;
    while i < pieces.len()
        invariant
            i <= pieces@.len(),
            strings_view(current@) == strings_view(pieces@).take(i as int),
        decreases pieces.len() - i,
    {
        let piece = pieces[i].clone();
        let ghost before = current@;
        current.push(piece);
        assert(strings_view(current@) == strings_view(before).push(pieces@[i as int]@));
        i = i + 1;
        assert(strings_view(current@) =~= strings_view(pieces@).take(i as int));
    }
    assert(strings_view(pieces@).take(pieces@.len() as int) =~= strings_view(pieces@));
    loop
        invariant
            merges.wf(),
            bpe(merges@, strings_view(current@)) == bpe(merges@, strings_view(pieces@)),
        decreases current.len(),
    {
        match merge_once(current.as_slice(), merges) {
            Some(next) => {
                proof {
                    let p = strings_view(current@);
                    let k = choose|k: int| is_best_pair(merges@, p, k);
                    lemma_merged_at_flatten(p, k);
                    assert(strings_view(next@).len() == next@.len());
                }
                current = next;
            },
            None => {
                return current;
            },
        }
    }
}

} // verus!
