//! Stable ordering of records by a rank, highest rank first.

use vstd::prelude::*;
use vstd::set_lib::{lemma_int_range, lemma_subset_equality, set_int_range};

verus! {

/// A record that lists put in order by an integer rank of its view.
pub trait Ranked: View {
    /// The rank of a record with view `v`.
    spec fn rank_of(v: Self::V) -> int;

    /// Computes the rank of the record.
    fn rank_key(&self) -> (k: i128)
        ensures
            k == Self::rank_of(self@),
    ;
}

/// `p` places `output` as a rearrangement of `input`: position `i` of the
/// output holds element `p[i]` of the input, and each input element is used once.
pub open spec fn is_arrangement<T>(input: Seq<T>, output: Seq<T>, p: Seq<int>) -> bool {
    &&& p.len() == input.len()
    &&& output.len() == input.len()
    &&& forall|i: int| 0 <= i < p.len() ==> 0 <= #[trigger] p[i] < input.len()
    &&& forall|i: int| 0 <= i < p.len() ==> #[trigger] output[i] == input[p[i]]
    &&& forall|i: int, j: int| 0 <= i < j < p.len() ==> #[trigger] p[i] != #[trigger] p[j]
}

/// Ranks never rise along `s`.
pub open spec fn is_rank_descending<T: Ranked>(s: Seq<T::V>) -> bool {
    forall|i: int, j: int|
        0 <= i < j < s.len() ==> T::rank_of(#[trigger] s[i]) >= T::rank_of(#[trigger] s[j])
}

/// Records of equal rank keep the order in which `p` says they came.
pub open spec fn keeps_ties_in_order<T: Ranked>(output: Seq<T::V>, p: Seq<int>) -> bool {
    forall|i: int, j: int|
        0 <= i < j < output.len() && T::rank_of(#[trigger] output[i]) == T::rank_of(
            #[trigger] output[j],
        ) ==> p[i] < p[j]
}

/// `output` is `input` in descending rank, ties left in their input order.
pub open spec fn is_stable_rank_sort<T: Ranked>(input: Seq<T::V>, output: Seq<T::V>) -> bool {
    exists|p: Seq<int>|
        {
            &&& #[trigger] is_arrangement(input, output, p)
            &&& is_rank_descending::<T>(output)
            &&& keeps_ties_in_order::<T>(output, p)
        }
}

/// The views of the records of `s`.
pub open spec fn views_of<T: View>(s: Seq<T>) -> Seq<T::V> {
    s.map_values(|t: T| t@)
}

/// Puts `items` in descending rank; records of equal rank keep their order.
pub fn sort_by_rank_descending<T: Ranked>(items: Vec<T>) -> (out: Vec<T>)
    ensures
        is_stable_rank_sort::<T>(views_of(items@), views_of(out@)),
{
    let ghost input = views_of(items@);
    let ghost items_seq = items@;
    let n = items.len();
    let mut rest = items;
    let mut out: Vec<T> = Vec::new();
    let ghost mut p: Seq<int> = Seq::empty();
    let mut k: usize = 0;
    assert(rest@.subrange(0, n as int) =~= items_seq);
    while k < n
        invariant
            n == input.len(),
            k <= n,
            input == views_of(items_seq),
            rest@ == items_seq.subrange(k as int, n as int),
            out@.len() == k,
            p.len() == k,
            forall|i: int| 0 <= i < k ==> 0 <= #[trigger] p[i] < k,
            forall|i: int| 0 <= i < k ==> #[trigger] out@[i]@ == input[p[i]],
            forall|i: int, j: int| 0 <= i < j < k ==> #[trigger] p[i] != #[trigger] p[j],
            is_rank_descending::<T>(views_of(out@)),
            keeps_ties_in_order::<T>(views_of(out@), p),
        decreases n - k,
    {
        let x = rest.remove(0);
        assert(x@ == input[k as int]);
        let key = x.rank_key();
        let mut pos: usize = 0;
        while pos < out.len() && out[pos].rank_key() >= key
            invariant
                pos <= out@.len(),
                forall|i: int| 0 <= i < pos ==> T::rank_of(#[trigger] out@[i]@) >= key,
            decreases out@.len() - pos,
        {
            pos = pos + 1;
        }
        let ghost old_out = views_of(out@);
        let ghost old_p = p;
        assert forall|i: int| pos <= i < old_out.len() implies T::rank_of(#[trigger] old_out[i]) < key by {
            assert(T::rank_of(old_out[pos as int]) < key);
            if i > pos {
                assert(T::rank_of(old_out[pos as int]) >= T::rank_of(old_out[i]));
            }
        }
        out.insert(pos, x);
        proof {
            p = p.insert(pos as int, k as int);
            let new_out = views_of(out@);
            assert(new_out =~= old_out.insert(pos as int, x@));
            assert forall|i: int| 0 <= i < k + 1 implies 0 <= #[trigger] p[i] < k + 1 by {
                if i < pos {
                    assert(p[i] == old_p[i]);
                } else if i > pos {
                    assert(p[i] == old_p[i - 1]);
                }
            }
            assert forall|i: int| 0 <= i < k + 1 implies #[trigger] out@[i]@ == input[p[i]] by {
                assert(out@[i]@ == new_out[i]);
                if i < pos {
                    assert(new_out[i] == old_out[i]);
                    assert(p[i] == old_p[i]);
                } else if i > pos {
                    assert(new_out[i] == old_out[i - 1]);
                    assert(p[i] == old_p[i - 1]);
                }
            }
            assert forall|i: int, j: int| 0 <= i < j < k + 1 implies #[trigger] p[i]
                != #[trigger] p[j] by {
                let oi = if i < pos { i } else { i - 1 };
                let oj = if j < pos { j } else { j - 1 };
                if i != pos && j != pos {
                    assert(p[i] == old_p[oi]);
                    assert(p[j] == old_p[oj]);
                    assert(old_p[oi] != old_p[oj]);
                } else if i == pos {
                    assert(p[j] == old_p[oj]);
                    assert(old_p[oj] < k);
                } else {
                    assert(p[i] == old_p[oi]);
                    assert(old_p[oi] < k);
                }
            }
            assert forall|i: int, j: int| 0 <= i < j < new_out.len() implies T::rank_of(#[trigger] new_out[i])
                >= T::rank_of(#[trigger] new_out[j]) by {
                let oi = if i < pos { i } else { i - 1 };
                let oj = if j < pos { j } else { j - 1 };
                if i != pos && j != pos {
                    assert(new_out[i] == old_out[oi]);
                    assert(new_out[j] == old_out[oj]);
                    assert(T::rank_of(old_out[oi]) >= T::rank_of(old_out[oj]));
                } else if i == pos {
                    assert(new_out[j] == old_out[oj]);
                    assert(T::rank_of(old_out[oj]) < key);
                } else {
                    assert(new_out[i] == old_out[oi]);
                    assert(T::rank_of(old_out[oi]) >= key);
                }
            }
            assert forall|i: int, j: int|
                0 <= i < j < new_out.len() && T::rank_of(#[trigger] new_out[i])
                    == T::rank_of(#[trigger] new_out[j]) implies p[i] < p[j] by {
                let oi = if i < pos { i } else { i - 1 };
                let oj = if j < pos { j } else { j - 1 };
                if i != pos && j != pos {
                    assert(new_out[i] == old_out[oi]);
                    assert(new_out[j] == old_out[oj]);
                    assert(p[i] == old_p[oi]);
                    assert(p[j] == old_p[oj]);
                    assert(old_p[oi] < old_p[oj]);
                } else if i == pos {
                    assert(new_out[j] == old_out[oj]);
                    assert(T::rank_of(old_out[oj]) < key);
                } else {
                    assert(p[i] == old_p[oi]);
                    assert(old_p[oi] < k);
                }
            }
            assert(rest@ =~= items_seq.subrange(k + 1, n as int));
        }
        k = k + 1;
    }
    assert(is_arrangement(input, views_of(out@), p));
    out
}

/// An arrangement uses every input position.
pub proof fn lemma_arrangement_is_onto<V>(input: Seq<V>, output: Seq<V>, p: Seq<int>)
    requires
        is_arrangement(input, output, p),
    ensures
        forall|e: int| 0 <= e < input.len() ==> #[trigger] p.contains(e),
{
    let n = input.len() as int;
    assert(p.no_duplicates()) by {
        assert forall|i: int, j: int| 0 <= i < p.len() && 0 <= j < p.len() && i != j implies p[i]
            != p[j] by {
            if i < j {
                assert(p[i] != p[j]);
            } else {
                assert(p[j] != p[i]);
            }
        }
    }
    p.unique_seq_to_set();
    lemma_int_range(0, n);
    assert(p.to_set().subset_of(set_int_range(0, n))) by {
        assert forall|e: int| #[trigger] p.to_set().contains(e) implies set_int_range(0, n).contains(e) by {
            let i = choose|i: int| 0 <= i < p.len() && p[i] == e;
            assert(0 <= p[i] < n);
        }
    }
    lemma_subset_equality(p.to_set(), set_int_range(0, n));
    assert forall|e: int| 0 <= e < input.len() implies #[trigger] p.contains(e) by {
        assert(set_int_range(0, n).contains(e));
        assert(p.to_set().contains(e));
    }
}

proof fn lemma_arrangements_agree_below<T: Ranked>(
    input: Seq<T::V>,
    a: Seq<T::V>,
    b: Seq<T::V>,
    p: Seq<int>,
    q: Seq<int>,
    i: int,
)
    requires
        is_arrangement(input, a, p),
        is_rank_descending::<T>(a),
        keeps_ties_in_order::<T>(a, p),
        is_arrangement(input, b, q),
        is_rank_descending::<T>(b),
        keeps_ties_in_order::<T>(b, q),
        0 <= i <= input.len(),
    ensures
        forall|k: int| 0 <= k < i ==> p[k] == q[k],
    decreases i,
{
    if i > 0 {
        lemma_arrangements_agree_below::<T>(input, a, b, p, q, i - 1);
        let k = i - 1;
        let x = p[k];
        let y = q[k];
        if x != y {
            lemma_arrangement_is_onto(input, a, p);
            lemma_arrangement_is_onto(input, b, q);
            assert(0 <= y < input.len());
            assert(0 <= x < input.len());
            assert(p.contains(y));
            assert(q.contains(x));
            let i1 = choose|j: int| 0 <= j < p.len() && p[j] == y;
            let i2 = choose|j: int| 0 <= j < q.len() && q[j] == x;
            if i1 < k {
                assert(p[i1] == q[i1]);
                assert(q[i1] != q[k]);
            }
            if i2 < k {
                assert(p[i2] == q[i2]);
                assert(p[i2] != p[k]);
            }
            assert(k < i1 && k < i2);
            assert(a[k] == input[x] && a[i1] == input[y]);
            assert(b[k] == input[y] && b[i2] == input[x]);
            assert(T::rank_of(a[k]) >= T::rank_of(a[i1]));
            assert(T::rank_of(b[k]) >= T::rank_of(b[i2]));
            assert(p[k] < p[i1]);
            assert(q[k] < q[i2]);
        }
    }
}

/// A stable rank sort has one outcome: two outputs that both put the same
/// input in descending rank, ties in input order, are the same sequence.
pub proof fn lemma_stable_rank_sort_unique<T: Ranked>(input: Seq<T::V>, a: Seq<T::V>, b: Seq<T::V>)
    requires
        is_stable_rank_sort::<T>(input, a),
        is_stable_rank_sort::<T>(input, b),
    ensures
        a == b,
{
    let p = choose|p: Seq<int>|
        {
            &&& #[trigger] is_arrangement(input, a, p)
            &&& is_rank_descending::<T>(a)
            &&& keeps_ties_in_order::<T>(a, p)
        };
    let q = choose|q: Seq<int>|
        {
            &&& #[trigger] is_arrangement(input, b, q)
            &&& is_rank_descending::<T>(b)
            &&& keeps_ties_in_order::<T>(b, q)
        };
    lemma_arrangements_agree_below::<T>(input, a, b, p, q, input.len() as int);
    assert forall|k: int| 0 <= k < a.len() implies a[k] == b[k] by {
        assert(a[k] == input[p[k]]);
        assert(b[k] == input[q[k]]);
    }
    assert(a =~= b);
}

} // verus!
