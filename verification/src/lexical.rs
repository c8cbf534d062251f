//! Lexicographic order on texts (the order of `String`, whose UTF-8 bytes
//! compare as the code points they encode) and a sort by it.
use vstd::prelude::*;
use vstd::relations::{sorted_by, total_ordering};
use crate::text::{copy_chars, lemma_chars_deep_view};

verus! {

broadcast use lemma_chars_deep_view;

/// `a` comes before `b` or equals it: at the first position where they
/// differ `a` has the smaller code point, or `a` is a prefix of `b`.
pub open spec fn text_leq(a: Seq<char>, b: Seq<char>) -> bool
    decreases a.len(),
{
    if a.len() == 0 {
        true
    } else if b.len() == 0 {
        false
    } else if a[0] != b[0] {
        (a[0] as int) < (b[0] as int)
    } else {
        text_leq(a.drop_first(), b.drop_first())
    }
}

pub open spec fn text_order() -> spec_fn(Seq<char>, Seq<char>) -> bool {
    |a: Seq<char>, b: Seq<char>| text_leq(a, b)
}

proof fn lemma_leq_reflexive(a: Seq<char>)
    ensures
        text_leq(a, a),
    decreases a.len(),
{
    if a.len() > 0 {
        lemma_leq_reflexive(a.drop_first());
    }
}

proof fn lemma_leq_antisymmetric(a: Seq<char>, b: Seq<char>)
    requires
        text_leq(a, b),
        text_leq(b, a),
    ensures
        a == b,
    decreases a.len(),
{
    if a.len() > 0 && b.len() > 0 {
        if a[0] == b[0] {
            lemma_leq_antisymmetric(a.drop_first(), b.drop_first());
            assert(a =~= seq![a[0]] + a.drop_first());
            assert(b =~= seq![b[0]] + b.drop_first());
        }
    } else {
        assert(a =~= b);
    }
}

proof fn lemma_leq_transitive(a: Seq<char>, b: Seq<char>, c: Seq<char>)
    requires
        text_leq(a, b),
        text_leq(b, c),
    ensures
        text_leq(a, c),
    decreases a.len(),
{
    if a.len() > 0 && b.len() > 0 && c.len() > 0 {
        if a[0] == b[0] && b[0] == c[0] {
            lemma_leq_transitive(a.drop_first(), b.drop_first(), c.drop_first());
        }
    }
}

proof fn lemma_leq_total(a: Seq<char>, b: Seq<char>)
    ensures
        text_leq(a, b) || text_leq(b, a),
    decreases a.len(),
{
    if a.len() > 0 && b.len() > 0 {
        if a[0] == b[0] {
            lemma_leq_total(a.drop_first(), b.drop_first());
        }
    }
}

/// The order of texts is a total order.
pub proof fn lemma_text_order_total()
    ensures
        total_ordering(text_order()),
{
    let r = text_order();
    assert forall|x: Seq<char>| #[trigger] r(x, x) by {
        lemma_leq_reflexive(x);
    }
    assert forall|x: Seq<char>, y: Seq<char>| #[trigger] r(x, y) && #[trigger] r(y, x) implies x == y by {
        lemma_leq_antisymmetric(x, y);
    }
    assert forall|x: Seq<char>, y: Seq<char>, z: Seq<char>| #[trigger] r(x, y) && #[trigger] r(y, z) implies r(x, z) by {
        lemma_leq_transitive(x, y, z);
    }
    assert forall|x: Seq<char>, y: Seq<char>| #[trigger] r(x, y) || #[trigger] r(y, x) by {
        lemma_leq_total(x, y);
    }
}

/// Whether `a` sorts before `b` or equals it.
pub fn text_leq_exec(a: &[char], b: &[char]) -> (r: bool)
    ensures
        r == text_leq(a@, b@),
{
    let mut i: usize = 0;
    assert(a@.skip(0) =~= a@ && b@.skip(0) =~= b@);
    while i < a.len() && i < b.len()
        invariant
            i <= a.len(),
            i <= b.len(),
            text_leq(a@, b@) == text_leq(a@.skip(i as int), b@.skip(i as int)),
        decreases a.len() - i,
    {
        assert(a@.skip(i as int)[0] == a@[i as int]);
        assert(b@.skip(i as int)[0] == b@[i as int]);
        let c = a[i];
        let d = b[i];
        if c != d {
            assert(text_leq(a@.skip(i as int), b@.skip(i as int)) == ((c as int) < (d as int)));
            return c < d;
        }
        assert(a@.skip(i as int).drop_first() =~= a@.skip(i + 1));
        assert(b@.skip(i as int).drop_first() =~= b@.skip(i + 1));
        i = i + 1;
    }
    i == a.len()
}

/// The texts in lexicographic order (equal ones kept), as `sort` orders
/// strings.
pub fn sort_texts(items: &Vec<Vec<char>>) -> (r: Vec<Vec<char>>)
    ensures
        r.deep_view() == items.deep_view().sort_by(text_order()),
{
    let ghost leq = text_order();
    proof {
        lemma_text_order_total();
    }
    let mut out: Vec<Vec<char>> = Vec::new();
    let mut i: usize = 0;
    proof {
        broadcast use vstd::seq_lib::group_to_multiset_ensures;
        assert(out.deep_view() =~= Seq::<Seq<char>>::empty());
        assert(items.deep_view().take(0) =~= Seq::<Seq<char>>::empty());
    }
    while i < items.len()
        invariant
            i <= items.len(),
            leq == text_order(),
            total_ordering(leq),
            sorted_by(out.deep_view(), leq),
            out.deep_view().to_multiset() == items.deep_view().take(i as int).to_multiset(),
        decreases items.len() - i,
    {
        let x = &items[i];
        let mut j: usize = 0;
        while j < out.len() && text_leq_exec(&out[j], x)
            invariant
                j <= out.len(),
                leq == text_order(),
                forall|k: int| 0 <= k < j ==> #[trigger] leq(out.deep_view()[k], x@),
            decreases out.len() - j,
        {
            j = j + 1;
        }
        let ghost before = out.deep_view();
        proof {
            if j < out.len() {
                assert(!leq(before[j as int], x@));
                assert(leq(x@, before[j as int]));
            }
        }
        out.insert(j, copy_chars(x));
        let ghost after = out.deep_view();
        assert(after =~= before.insert(j as int, x@));
        proof {
            assert forall|a: int, b: int| 0 <= a < b < after.len() implies #[trigger] leq(after[a], after[b]) by {
                if b < j {
                } else if b == j {
                } else if a < j {
                    assert(leq(before[a], x@));
                    if j < before.len() {
                        assert(leq(x@, before[j as int]));
                        assert(leq(before[j as int], before[b - 1]) || j == b - 1);
                    }
                    assert(after[b] == before[b - 1]);
                    if j as int == b - 1 {
                    } else {
                        assert(leq(before[j as int], before[b - 1]));
                        assert(leq(x@, before[b - 1]));
                    }
                } else if a == j {
                    assert(after[b] == before[b - 1]);
                    if j as int == b - 1 {
                        assert(leq(x@, before[j as int]));
                    } else {
                        assert(leq(x@, before[j as int]));
                        assert(leq(before[j as int], before[b - 1]));
                    }
                } else {
                    assert(after[a] == before[a - 1]);
                    assert(after[b] == before[b - 1]);
                }
            }
            broadcast use vstd::seq_lib::group_to_multiset_ensures;
            lemma_insert_multiset(before, j as int, x@);
            assert(items.deep_view().take(i + 1) =~= items.deep_view().take(i as int).push(x@));
            assert(after.to_multiset() == items.deep_view().take(i + 1).to_multiset());
        }
        i = i + 1;
    }
    proof {
        assert(items.deep_view().take(items.len() as int) =~= items.deep_view());
        items.deep_view().lemma_sort_by_ensures(leq);
        vstd::seq_lib::lemma_sorted_unique(out.deep_view(), items.deep_view().sort_by(leq), leq);
    }
    out
}

proof fn lemma_insert_multiset<A>(s: Seq<A>, j: int, x: A)
    requires
        0 <= j <= s.len(),
    ensures
        s.insert(j, x).to_multiset() == s.to_multiset().insert(x),
{
    broadcast use vstd::seq_lib::group_to_multiset_ensures;

    let front = s.take(j);
    let back = s.skip(j);
    assert(s =~= front + back);
    assert(s.insert(j, x) =~= front.push(x) + back);
    vstd::seq_lib::lemma_multiset_commutative(front, back);
    vstd::seq_lib::lemma_multiset_commutative(front.push(x), back);
    assert(s.insert(j, x).to_multiset() =~= s.to_multiset().insert(x));
}

} // verus!
