//! Choosing and ordering the files of a migrations directory; the reading itself
//! is left to the caller.
use vstd::prelude::*;

use crate::text::{chars_of, range_equals};

verus! {

broadcast use vstd::seq_lib::to_multiset_insert;

/// `name` ends in `.sql`.
pub open spec fn has_sql_extension(name: Seq<char>) -> bool {
    name.len() >= 4 && name.skip(name.len() - 4) == ".sql"@
}

/// Whether a directory entry named `name` is a candidate migration file:
/// its name ends in `.sql`. Whether it is a well-formed migration filename is
/// left to `Registry::build`.
pub fn is_sql_file_name(name: &str) -> (b: bool)
    ensures
        b == has_sql_extension(name@),
{
    let cs = chars_of(name);
    let n = cs.len();
    if n < 4 {
        return false;
    }
    assert(cs@.subrange(n - 4, n as int) =~= name@.skip(n - 4));
    range_equals(&cs, n - 4, n, ".sql")
}

/// `a` comes no later than `b` in lexicographic order of character values,
/// which is the order of their UTF-8 bytes.
pub open spec fn text_le(a: Seq<char>, b: Seq<char>) -> bool
    decreases a.len(),
{
    if a.len() == 0 {
        true
    } else if b.len() == 0 {
        false
    } else if a[0] != b[0] {
        a[0] < b[0]
    } else {
        text_le(a.drop_first(), b.drop_first())
    }
}

proof fn lemma_text_le_total(a: Seq<char>, b: Seq<char>)
    ensures
        text_le(a, b) || text_le(b, a),
    decreases a.len(),
{
    if a.len() > 0 && b.len() > 0 && a[0] == b[0] {
        lemma_text_le_total(a.drop_first(), b.drop_first());
    }
}

proof fn lemma_text_le_transitive(a: Seq<char>, b: Seq<char>, c: Seq<char>)
    requires
        text_le(a, b),
        text_le(b, c),
    ensures
        text_le(a, c),
    decreases a.len(),
{
    if a.len() > 0 && b.len() > 0 && c.len() > 0 && a[0] == b[0] && b[0] == c[0] {
        lemma_text_le_transitive(a.drop_first(), b.drop_first(), c.drop_first());
    }
}

proof fn lemma_text_le_antisymmetric(a: Seq<char>, b: Seq<char>)
    requires
        text_le(a, b),
        text_le(b, a),
    ensures
        a == b,
    decreases a.len(),
{
    if a.len() == 0 || b.len() == 0 {
        assert(a.len() == 0 && b.len() == 0);
        assert(a =~= b);
    } else {
        assert(a[0] == b[0]);
        lemma_text_le_antisymmetric(a.drop_first(), b.drop_first());
        assert(a =~= b) by {
            assert forall|i: int| 0 <= i < a.len() implies a[i] == b[i] by {
                if i > 0 {
                    assert(a[i] == a.drop_first()[i - 1]);
                    assert(b[i] == b.drop_first()[i - 1]);
                }
            }
        }
    }
}

/// No two pairs share a name (as in one directory).
pub open spec fn distinct_names(pairs: Seq<(Seq<char>, Seq<char>)>) -> bool {
    forall|i: int, j: int| 0 <= i < j < pairs.len() ==> #[trigger] pairs[i].0 != #[trigger] pairs[j].0
}

/// Sorting by name leaves no choice when names are distinct: two name-sorted
/// arrangements of the same pairs are equal, so the order a directory listing
/// came in does not show in the result.
pub proof fn lemma_name_order_unique(
    a: Seq<(Seq<char>, Seq<char>)>,
    b: Seq<(Seq<char>, Seq<char>)>,
)
    requires
        sorted_by_name(a),
        sorted_by_name(b),
        a.to_multiset() == b.to_multiset(),
        distinct_names(a),
    ensures
        a == b,
    decreases a.len(),
{
    broadcast use vstd::seq_lib::group_to_multiset_ensures;

    a.to_multiset_ensures();
    b.to_multiset_ensures();
    if a.len() == 0 {
        assert(b.len() == 0);
        assert(a =~= b);
    } else {
        assert(b.len() > 0);
        assert(a.to_multiset().count(a[0]) > 0);
        assert(b.contains(a[0]));
        let k = choose|k: int| 0 <= k < b.len() && b[k] == a[0];
        assert(b.to_multiset().count(b[0]) > 0);
        assert(a.contains(b[0]));
        let m = choose|m: int| 0 <= m < a.len() && a[m] == b[0];
        if m > 0 {
            assert(text_le(a[0].0, a[m].0));
        }
        if k > 0 {
            assert(text_le(b[0].0, b[k].0));
        }
        if m > 0 && k > 0 {
            lemma_text_le_antisymmetric(a[0].0, b[0].0);
        }
        assert(a[0] == b[0]);
        let a2 = a.drop_first();
        let b2 = b.drop_first();
        assert(a2 =~= a.remove(0));
        assert(b2 =~= b.remove(0));
        assert(a2.to_multiset() =~= a.to_multiset().remove(a[0]));
        assert(b2.to_multiset() =~= b.to_multiset().remove(b[0]));
        assert(sorted_by_name(a2)) by {
            assert forall|i: int, j: int| 0 <= i < j < a2.len() implies text_le(
                #[trigger] a2[i].0,
                #[trigger] a2[j].0,
            ) by {
                assert(text_le(a[i + 1].0, a[j + 1].0));
            }
        }
        assert(sorted_by_name(b2)) by {
            assert forall|i: int, j: int| 0 <= i < j < b2.len() implies text_le(
                #[trigger] b2[i].0,
                #[trigger] b2[j].0,
            ) by {
                assert(text_le(b[i + 1].0, b[j + 1].0));
            }
        }
        assert(distinct_names(a2)) by {
            assert forall|i: int, j: int| 0 <= i < j < a2.len() implies #[trigger] a2[i].0
                != #[trigger] a2[j].0 by {
                assert(a[i + 1].0 != a[j + 1].0);
            }
        }
        lemma_name_order_unique(a2, b2);
        assert(a =~= seq![a[0]] + a2);
        assert(b =~= seq![b[0]] + b2);
    }
}

/// Whether `a` comes no later than `b` in lexicographic order.
pub fn name_le(a: &str, b: &str) -> (r: bool)
    ensures
        r == text_le(a@, b@),
{
    let x = chars_of(a);
    let y = chars_of(b);
    let mut k: usize = 0;
    assert(a@.skip(0) =~= a@);
    assert(b@.skip(0) =~= b@);
    while k < x.len() && k < y.len() && x[k] == y[k]
        invariant
            x@ == a@,
            y@ == b@,
            k <= x@.len(),
            k <= y@.len(),
            forall|j: int| 0 <= j < k ==> x@[j] == y@[j],
            text_le(a@, b@) == text_le(a@.skip(k as int), b@.skip(k as int)),
        decreases x@.len() - k,
    {
        assert(a@.skip(k as int).drop_first() =~= a@.skip(k + 1));
        assert(b@.skip(k as int).drop_first() =~= b@.skip(k + 1));
        k = k + 1;
    }
    if k == x.len() {
        true
    } else if k == y.len() {
        false
    } else {
        x[k] < y[k]
    }
}

/// A `(name, content)` pair as text.
pub open spec fn pair_view(p: (String, String)) -> (Seq<char>, Seq<char>) {
    (p.0@, p.1@)
}

/// The pairs as text.
pub open spec fn pairs_view(pairs: Seq<(String, String)>) -> Seq<(Seq<char>, Seq<char>)> {
    pairs.map_values(|p: (String, String)| pair_view(p))
}

/// The pairs come in ascending order of name.
pub open spec fn sorted_by_name(pairs: Seq<(Seq<char>, Seq<char>)>) -> bool {
    forall|i: int, j: int| 0 <= i < j < pairs.len() ==> text_le(#[trigger] pairs[i].0, #[trigger] pairs[j].0)
}

/// `output` is `input` rearranged: its element `k` is the input's element
/// `from[k]`, each input position is used once, and elements with equal names
/// keep their input order.
pub open spec fn stable_arrangement(
    input: Seq<(Seq<char>, Seq<char>)>,
    output: Seq<(Seq<char>, Seq<char>)>,
    from: Seq<int>,
) -> bool {
    &&& from.len() == output.len() == input.len()
    &&& forall|k: int| 0 <= k < output.len() ==> 0 <= #[trigger] from[k] < input.len() && output[k] == input[from[k]]
    &&& forall|k: int, l: int|
        0 <= k < l < output.len() ==> #[trigger] from[k] != #[trigger] from[l] && (output[k].0
            == output[l].0 ==> from[k] < from[l])
}

proof fn lemma_text_le_reflexive(a: Seq<char>)
    ensures
        text_le(a, a),
    decreases a.len(),
{
    if a.len() > 0 {
        lemma_text_le_reflexive(a.drop_first());
    }
}

/// Orders `(filename, content)` pairs by filename, so that building a registry
/// from them does not depend on the order a directory listing returned them in.
pub fn sort_by_file_name(pairs: Vec<(String, String)>) -> (r: Vec<(String, String)>)
    ensures
        exists|from: Seq<int>| stable_arrangement(pairs_view(pairs@), pairs_view(r@), from),
        pairs_view(r@).to_multiset() == pairs_view(pairs@).to_multiset(),
        sorted_by_name(pairs_view(r@)),
{
    let mut sorted: Vec<(String, String)> = Vec::new();
    let mut rest = pairs;
    let ghost input = pairs_view(rest@);
    assert(pairs_view(rest@).reverse() =~= input.reverse());
    let ghost mut taken: Seq<(Seq<char>, Seq<char>)> = Seq::empty();
    let ghost mut from: Seq<int> = Seq::empty();
    assert(pairs_view(sorted@) =~= taken);
    while rest.len() > 0
        invariant
            input =~= pairs_view(rest@) + taken.reverse(),
            from.len() == sorted@.len() == taken.len(),
            forall|k: int|
                0 <= k < sorted@.len() ==> rest@.len() <= #[trigger] from[k] < input.len()
                    && pairs_view(sorted@)[k] == input[from[k]],
            forall|k: int, l: int|
                0 <= k < l < sorted@.len() ==> #[trigger] from[k] != #[trigger] from[l] && (
                pairs_view(sorted@)[k].0 == pairs_view(sorted@)[l].0 ==> from[k] < from[l]),
            pairs_view(sorted@).to_multiset() == taken.to_multiset(),
            sorted_by_name(pairs_view(sorted@)),
        decreases rest.len(),
    {
        let ghost before = pairs_view(rest@);
        let item = rest.pop().unwrap();
        assert(before =~= pairs_view(rest@).push(pair_view(item)));
        let mut p: usize = 0;
        // Items are taken from the back, so an item goes before any equal name
        // already placed: pairs with equal names keep their input order.
        while p < sorted.len() && !name_le(item.0.as_str(), sorted[p].0.as_str())
            invariant
                p <= sorted@.len(),
                forall|i: int| 0 <= i < p ==> text_le(#[trigger] sorted@[i].0@, item.0@),
                forall|i: int| 0 <= i < p ==> !text_le(item.0@, #[trigger] sorted@[i].0@),
            decreases sorted@.len() - p,
        {
            proof {
                lemma_text_le_total(sorted@[p as int].0@, item.0@);
            }
            p = p + 1;
        }
        let ghost old_sorted = pairs_view(sorted@);
        let ghost old_from = from;
        sorted.insert(p, item);
        proof {
            let s = pairs_view(sorted@);
            assert(s =~= old_sorted.insert(p as int, pair_view(item)));
            let at = rest@.len() as int;
            assert(input[at] == pair_view(item));
            from = old_from.insert(p as int, at);
            assert forall|k: int|
                0 <= k < sorted@.len() implies rest@.len() <= #[trigger] from[k] < input.len()
                && s[k] == input[from[k]] by {
                if k < p {
                    assert(from[k] == old_from[k]);
                } else if k > p {
                    assert(from[k] == old_from[k - 1]);
                }
            }
            assert forall|k: int, l: int| 0 <= k < l < sorted@.len() implies #[trigger] from[k]
                != #[trigger] from[l] && (s[k].0 == s[l].0 ==> from[k] < from[l]) by {
                if l < p {
                    assert(from[k] == old_from[k] && from[l] == old_from[l]);
                } else if l == p {
                    assert(from[k] == old_from[k]);
                    if s[k].0 == s[l].0 {
                        lemma_text_le_reflexive(item.0@);
                        assert(!text_le(item.0@, sorted@[k].0@));
                    }
                } else if k < p {
                    assert(from[k] == old_from[k] && from[l] == old_from[l - 1]);
                } else if k == p {
                    assert(from[l] == old_from[l - 1]);
                } else {
                    assert(from[k] == old_from[k - 1] && from[l] == old_from[l - 1]);
                }
            }
            assert forall|i: int, j: int| 0 <= i < j < s.len() implies text_le(
                #[trigger] s[i].0,
                #[trigger] s[j].0,
            ) by {
                if j < p {
                    assert(text_le(old_sorted[i].0, old_sorted[j].0));
                } else if j == p {
                    assert(old_sorted[i].0 == sorted@[i].0@);
                } else if i < p {
                    assert(text_le(old_sorted[i].0, item.0@));
                    assert(text_le(item.0@, old_sorted[p as int].0));
                    if j - 1 > p {
                        assert(text_le(old_sorted[p as int].0, old_sorted[j - 1].0));
                        lemma_text_le_transitive(item.0@, old_sorted[p as int].0, old_sorted[j - 1].0);
                    }
                    lemma_text_le_transitive(old_sorted[i].0, item.0@, old_sorted[j - 1].0);
                } else if i == p {
                    if j - 1 > p {
                        assert(text_le(old_sorted[p as int].0, old_sorted[j - 1].0));
                        lemma_text_le_transitive(item.0@, old_sorted[p as int].0, old_sorted[j - 1].0);
                    }
                } else {
                    assert(text_le(old_sorted[i - 1].0, old_sorted[j - 1].0));
                }
            }
            assert(taken.push(pair_view(item)).reverse() =~= seq![pair_view(item)] + taken.reverse());
            assert(taken.push(pair_view(item)).to_multiset() =~= taken.to_multiset().insert(pair_view(item))) by {
                vstd::seq_lib::to_multiset_build(taken, pair_view(item));
            }
            taken = taken.push(pair_view(item));
        }
    }
    proof {
        assert(input =~= taken.reverse());
        taken.lemma_reverse_to_multiset();
        assert(stable_arrangement(input, pairs_view(sorted@), from));
    }
    sorted
}

} // verus!
