//! Comparison of what several nodes have processed: each node gives the set
//! of operations it has processed (its elements in ascending order, as a
//! `BTreeSet` walks them), and every pair of nodes whose sets differ is
//! reported with the difference of their sizes.
use vstd::prelude::*;

use crate::chat::{lemma_lex_total, lemma_lex_transitive};
use crate::text::lex_lt;

verus! {

/// The sets that were compared, and for each pair `(i, j)` with `j < i`
/// whose sets differ, the absolute difference of their sizes.
#[derive(Debug, Clone, PartialEq)]
pub struct ConsistencyReport {
    pub sets: Vec<Vec<String>>,
    pub diffs: Vec<((usize, usize), usize)>,
}

pub open spec fn set_view(v: Vec<String>) -> Seq<Seq<char>> {
    v@.map_values(|s: String| s@)
}

pub open spec fn sets_view(v: Seq<Vec<String>>) -> Seq<Seq<Seq<char>>> {
    v.map_values(|s: Vec<String>| set_view(s))
}

pub open spec fn abs_diff(a: nat, b: nat) -> nat {
    if a >= b {
        (a - b) as nat
    } else {
        (b - a) as nat
    }
}

/// The reported pairs `(i, j')` for `j' < j`, in ascending `j'`.
pub open spec fn row_diffs(s: Seq<Seq<Seq<char>>>, i: nat, j: nat) -> Seq<((usize, usize), usize)>
    decreases j,
{
    if j == 0 {
        Seq::empty()
    } else {
        let k = (j - 1) as nat;
        let rest = row_diffs(s, i, k);
        if s[i as int] != s[k as int] {
            rest.push(((i as usize, k as usize), abs_diff(s[i as int].len(), s[k as int].len()) as usize))
        } else {
            rest
        }
    }
}

/// The reported pairs of the first `i` sets: row by row, each row `i'` with
/// the pairs `(i', j)` for `j < i'`.
pub open spec fn all_diffs(s: Seq<Seq<Seq<char>>>, i: nat) -> Seq<((usize, usize), usize)>
    decreases i,
{
    if i == 0 {
        Seq::empty()
    } else {
        let k = (i - 1) as nat;
        all_diffs(s, k) + row_diffs(s, k, k)
    }
}

/// The texts are in strictly ascending order, as a set of texts walks them:
/// each once.
pub open spec fn ascending(v: Seq<Seq<char>>) -> bool {
    forall|i: int, j: int| 0 <= i < j < v.len() ==> lex_lt(#[trigger] v[i], #[trigger] v[j])
}

pub open spec fn all_equal(s: Seq<Seq<Seq<char>>>) -> bool {
    forall|i: int, j: int| 0 <= i < s.len() && 0 <= j < s.len() ==> s[i] == s[j]
}

impl ConsistencyReport {
    /// A report on `sets` with no difference recorded yet.
    pub fn new(sets: Vec<Vec<String>>) -> (r: Self)
        ensures
            r.sets == sets,
            r.diffs@.len() == 0,
    {
        ConsistencyReport { sets, diffs: Vec::new() }
    }

    /// Whether every set agrees with every other.
    pub fn is_consistent(&self) -> (b: bool)
        ensures
            b == (self.diffs@.len() == 0),
    {
        self.diffs.len() == 0
    }
}

fn strings_equal(a: &Vec<String>, b: &Vec<String>) -> (r: bool)
    ensures
        r == (set_view(*a) == set_view(*b)),
{
    if a.len() != b.len() {
        assert(set_view(*a).len() != set_view(*b).len());
        return false;
    }
    let mut i: usize = 0;
    while i < a.len()
        invariant
            a.len() == b.len(),
            0 <= i <= a.len(),
            forall|k: int| 0 <= k < i ==> a@[k]@ == b@[k]@,
        decreases a.len() - i,
    {
        if a[i] != b[i] {
            assert(set_view(*a)[i as int] != set_view(*b)[i as int]);
            return false;
        }
        i = i + 1;
    }
    assert(set_view(*a) =~= set_view(*b));
    true
}

/// Compares every pair of sets, each given as its elements in ascending
/// order (so that two sets are equal exactly when their element lists are,
/// and a set's size is its list's length): the report holds the sets and, in the order
/// `(1, 0), (2, 0), (2, 1), (3, 0), ...`, each pair whose sets differ with
/// the difference of their sizes.
pub fn consistency_report(sets: Vec<Vec<String>>) -> (r: ConsistencyReport)
    requires
        forall|k: int| 0 <= k < sets@.len() ==> ascending(#[trigger] set_view(sets@[k])),
    ensures
        r.sets == sets,
        r.diffs@ == all_diffs(sets_view(sets@), sets@.len()),
{
    let mut diffs: Vec<((usize, usize), usize)> = Vec::new();
    let ghost s = sets_view(sets@);
    let mut i: usize = 0;
    while i < sets.len()
        invariant
            0 <= i <= sets.len(),
            s == sets_view(sets@),
            diffs@ == all_diffs(s, i as nat),
        decreases sets.len() - i,
    {
        let ghost before = diffs@;
        let mut j: usize = 0;
        while j < i
            invariant
                0 <= j <= i < sets.len(),
                s == sets_view(sets@),
                diffs@ == before + row_diffs(s, i as nat, j as nat),
            decreases i - j,
        {
            if !strings_equal(&sets[i], &sets[j]) {
                let a = sets[i].len();
                let b = sets[j].len();
                let d = if a >= b {
                    a - b
                } else {
                    b - a
                };
                diffs.push(((i, j), d));
                assert(diffs@ =~= before + row_diffs(s, i as nat, (j + 1) as nat));
            } else {
                assert(diffs@ =~= before + row_diffs(s, i as nat, (j + 1) as nat));
            }
            j = j + 1;
        }
        i = i + 1;
    }
    ConsistencyReport { sets, diffs }
}

/// The pairs of a row name sets that differ, and every differing pair of the
/// row is named.
proof fn lemma_row_diffs(s: Seq<Seq<Seq<char>>>, i: nat, j: nat)
    requires
        j <= i < s.len(),
    ensures
        row_diffs(s, i, j).len() == 0 <==> forall|k: int| 0 <= k < j ==> s[i as int] == s[k],
    decreases j,
{
    if j > 0 {
        lemma_row_diffs(s, i, (j - 1) as nat);
    }
}

/// No difference is reported exactly when all sets are equal.
pub proof fn lemma_consistent_iff_all_equal(s: Seq<Seq<Seq<char>>>)
    ensures
        all_diffs(s, s.len()).len() == 0 <==> all_equal(s),
{
    lemma_all_diffs_prefix(s, s.len());
    if all_diffs(s, s.len()).len() == 0 {
        assert forall|a: int, b: int| 0 <= a < s.len() && 0 <= b < s.len() implies s[a] == s[b] by {
            if b < a {
            } else if a < b {
                assert(s[b] == s[a]);
            }
        }
    }
}

proof fn lemma_all_diffs_prefix(s: Seq<Seq<Seq<char>>>, i: nat)
    requires
        i <= s.len(),
    ensures
        all_diffs(s, i).len() == 0 <==> forall|a: int, b: int| 0 <= b < a < i ==> s[a] == s[b],
    decreases i,
{
    if i > 0 {
        let k = (i - 1) as nat;
        lemma_all_diffs_prefix(s, k);
        lemma_row_diffs(s, k, k);
        if all_diffs(s, i).len() == 0 {
            assert forall|a: int, b: int| 0 <= b < a < i implies s[a] == s[b] by {
                if a < k {
                } else {
                    assert(s[k as int] == s[b]);
                }
            }
        }
    }
}

/// A list in ascending order holds each element once.
proof fn lemma_ascending_no_duplicates(a: Seq<Seq<char>>)
    requires
        ascending(a),
    ensures
        a.no_duplicates(),
{
    assert forall|i: int, j: int| 0 <= i < a.len() && 0 <= j < a.len() && i != j implies a[i]
        != a[j] by {
        if i < j {
            lemma_lex_total(a[i], a[j]);
        } else {
            lemma_lex_total(a[j], a[i]);
        }
    }
}

/// Two lists in ascending order with the same elements are the same list.
proof fn lemma_ascending_same_elements(a: Seq<Seq<char>>, b: Seq<Seq<char>>)
    requires
        ascending(a),
        ascending(b),
        a.to_set() == b.to_set(),
    ensures
        a == b,
    decreases a.len(),
{
    if a.len() == 0 {
        if b.len() > 0 {
            assert(b.to_set().contains(b[0]));
        }
        assert(a =~= b);
    } else {
        assert(a.to_set().contains(a[0]));
        assert(b.len() > 0);
        assert(b.to_set().contains(b[0]));
        let i = choose|i: int| 0 <= i < a.len() && a[i] == b[0];
        let j = choose|j: int| 0 <= j < b.len() && b[j] == a[0];
        lemma_lex_total(a[0], a[0]);
        if i > 0 && j > 0 {
            assert(lex_lt(a[0], a[i]));
            assert(lex_lt(b[0], b[j]));
            lemma_lex_transitive(a[0], b[0], a[0]);
        } else if i > 0 {
            assert(lex_lt(a[0], a[i]));
        } else if j > 0 {
            assert(lex_lt(b[0], b[j]));
        }
        assert(a[0] == b[0]);
        let a1 = a.drop_first();
        let b1 = b.drop_first();
        lemma_ascending_no_duplicates(a);
        lemma_ascending_no_duplicates(b);
        assert(ascending(a1)) by {
            assert forall|p: int, q: int| 0 <= p < q < a1.len() implies lex_lt(a1[p], a1[q]) by {
                assert(a1[p] == a[p + 1] && a1[q] == a[q + 1]);
            }
        }
        assert(ascending(b1)) by {
            assert forall|p: int, q: int| 0 <= p < q < b1.len() implies lex_lt(b1[p], b1[q]) by {
                assert(b1[p] == b[p + 1] && b1[q] == b[q + 1]);
            }
        }
        assert(a1.to_set() =~= b1.to_set()) by {
            assert forall|x: Seq<char>| a1.to_set().contains(x) implies b1.to_set().contains(x) by {
                let p = choose|p: int| 0 <= p < a1.len() && a1[p] == x;
                assert(a[p + 1] == x);
                assert(b.to_set().contains(x));
                let q = choose|q: int| 0 <= q < b.len() && b[q] == x;
                assert(q != 0);
                assert(b1[q - 1] == x);
            }
            assert forall|x: Seq<char>| b1.to_set().contains(x) implies a1.to_set().contains(x) by {
                let q = choose|q: int| 0 <= q < b1.len() && b1[q] == x;
                assert(b[q + 1] == x);
                assert(a.to_set().contains(x));
                let p = choose|p: int| 0 <= p < a.len() && a[p] == x;
                assert(p != 0);
                assert(a1[p - 1] == x);
            }
        }
        lemma_ascending_same_elements(a1, b1);
        assert(a =~= seq![a[0]] + a1);
        assert(b =~= seq![b[0]] + b1);
    }
}

/// Element lists in ascending order stand for their sets: two are equal
/// exactly when their sets are, and a list's length is its set's size. So the
/// report's pairs are the pairs of nodes whose sets of operations differ,
/// with the difference of the sets' sizes.
pub proof fn lemma_ascending_lists_are_sets(a: Seq<Seq<char>>, b: Seq<Seq<char>>)
    requires
        ascending(a),
        ascending(b),
    ensures
        (a == b) <==> (a.to_set() == b.to_set()),
        a.len() == a.to_set().len(),
{
    if a.to_set() == b.to_set() {
        lemma_ascending_same_elements(a, b);
    }
    lemma_ascending_no_duplicates(a);
    a.unique_seq_to_set();
}

} // verus!
