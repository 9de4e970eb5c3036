use itertools::Itertools;
use vstd::prelude::*;

verus! {

broadcast use vstd::seq_lib::group_to_multiset_ensures;

/// `a` comes no later than `b` in lexicographic order of code points.
pub open spec fn path_le(a: Seq<char>, b: Seq<char>) -> bool
    decreases a.len(),
{
    if a.len() == 0 {
        true
    } else if b.len() == 0 {
        false
    } else if a[0] != b[0] {
        (a[0] as u32) < (b[0] as u32)
    } else {
        path_le(a.drop_first(), b.drop_first())
    }
}

/// Every path comes no later than every path after it.
pub open spec fn is_canonical(paths: Seq<Seq<char>>) -> bool {
    forall|i: int, j: int| 0 <= i < j < paths.len() ==> path_le(#[trigger] paths[i], #[trigger] paths[j])
}

/// Relies on itertools::Itertools::sorted, which collects into a `Vec` and
/// calls `sort`, ordering by `String`'s `Ord`: byte order, which on UTF-8 text
/// is the order of code points.
#[verifier::external_body]
fn sorted_paths(paths: Vec<String>) -> (r: Vec<String>)
    ensures
        r.deep_view().to_multiset() == paths.deep_view().to_multiset(),
        is_canonical(r.deep_view()),
{
    paths.into_iter().sorted().collect()
}

/// Puts the enumerated file paths into canonical order: the same paths,
/// each as often as given, sorted lexicographically.
pub fn canonical_order(paths: Vec<String>) -> (r: Vec<String>)
    ensures
        r.deep_view().to_multiset() == paths.deep_view().to_multiset(),
        is_canonical(r.deep_view()),
        r.len() == paths.len(),
{
    let r = sorted_paths(paths);
    proof {
        vstd::seq_lib::to_multiset_len(r.deep_view());
        vstd::seq_lib::to_multiset_len(paths.deep_view());
    }
    r
}

proof fn lemma_path_le_antisymmetric(a: Seq<char>, b: Seq<char>)
    requires
        path_le(a, b),
        path_le(b, a),
    ensures
        a == b,
    decreases a.len(),
{
    if a.len() > 0 && b.len() > 0 {
        lemma_path_le_antisymmetric(a.drop_first(), b.drop_first());
        assert(a =~= seq![a[0]] + a.drop_first());
        assert(b =~= seq![b[0]] + b.drop_first());
    }
}

/// Two canonical orderings of the same paths are one and the same sequence.
pub proof fn lemma_canonical_unique(x: Seq<Seq<char>>, y: Seq<Seq<char>>)
    requires
        is_canonical(x),
        is_canonical(y),
        x.to_multiset() == y.to_multiset(),
    ensures
        x == y,
    decreases x.len(),
{
    vstd::seq_lib::to_multiset_len(x);
    vstd::seq_lib::to_multiset_len(y);
    if x.len() == 0 {
        assert(x =~= y);
    } else {
        assert(x.contains(x[0]));
        assert(y.contains(y[0]));
        vstd::seq_lib::to_multiset_contains(x, x[0]);
        vstd::seq_lib::to_multiset_contains(y, x[0]);
        vstd::seq_lib::to_multiset_contains(y, y[0]);
        vstd::seq_lib::to_multiset_contains(x, y[0]);
        let k = choose|k: int| 0 <= k < y.len() && y[k] == x[0];
        let m = choose|m: int| 0 <= m < x.len() && x[m] == y[0];
        if k > 0 {
            assert(path_le(y[0], y[k]));
        }
        if m > 0 {
            assert(path_le(x[0], x[m]));
        }
        if x[0] != y[0] {
            lemma_path_le_antisymmetric(x[0], y[0]);
        }
        vstd::seq_lib::to_multiset_remove(x, 0);
        vstd::seq_lib::to_multiset_remove(y, 0);
        assert(x.remove(0) =~= x.drop_first());
        assert(y.remove(0) =~= y.drop_first());
        assert forall|i: int, j: int| 0 <= i < j < x.drop_first().len() implies path_le(
            #[trigger] x.drop_first()[i],
            #[trigger] x.drop_first()[j],
        ) by {
            assert(path_le(x[i + 1], x[j + 1]));
        }
        assert forall|i: int, j: int| 0 <= i < j < y.drop_first().len() implies path_le(
            #[trigger] y.drop_first()[i],
            #[trigger] y.drop_first()[j],
        ) by {
            assert(path_le(y[i + 1], y[j + 1]));
        }
        lemma_canonical_unique(x.drop_first(), y.drop_first());
        assert(x =~= seq![x[0]] + x.drop_first());
        assert(y =~= seq![y[0]] + y.drop_first());
    }
}

/// The canonical order of a set of paths does not depend on the order in
/// which the walk visited them: any two visits of the same paths give the
/// same canonical sequence.
pub proof fn lemma_visit_order_irrelevant(
    visit_a: Seq<Seq<char>>,
    visit_b: Seq<Seq<char>>,
    sorted_a: Seq<Seq<char>>,
    sorted_b: Seq<Seq<char>>,
)
    requires
        visit_a.to_multiset() == visit_b.to_multiset(),
        is_canonical(sorted_a),
        sorted_a.to_multiset() == visit_a.to_multiset(),
        is_canonical(sorted_b),
        sorted_b.to_multiset() == visit_b.to_multiset(),
    ensures
        sorted_a == sorted_b,
{
    lemma_canonical_unique(sorted_a, sorted_b);
}

} // verus!
