//! Labels and lines of text: the lexicographic order on labels, their
//! comparison and sorting, and the view of a list of strings.
use vstd::prelude::*;
use vstd::relations::*;

verus! {

/// The characters of each string of a sequence.
pub open spec fn views(s: Seq<String>) -> Seq<Seq<char>> {
    s.map_values(|x: String| x@)
}

/// Lexicographic order on character sequences, a character being ordered
/// by its code point (which is also the byte order of UTF-8 text).
pub open spec fn lex_le(a: Seq<char>, b: Seq<char>) -> bool
    decreases a.len(),
{
    if a.len() == 0 {
        true
    } else if b.len() == 0 {
        false
    } else if a[0] != b[0] {
        (a[0] as int) < (b[0] as int)
    } else {
        lex_le(a.drop_first(), b.drop_first())
    }
}

/// `lex_le` as a relation value.
pub open spec fn label_order() -> spec_fn(Seq<char>, Seq<char>) -> bool {
    |a: Seq<char>, b: Seq<char>| lex_le(a, b)
}

pub proof fn lemma_lex_le_reflexive(a: Seq<char>)
    ensures
        lex_le(a, a),
    decreases a.len(),
{
    if a.len() > 0 {
        lemma_lex_le_reflexive(a.drop_first());
    }
}

pub proof fn lemma_lex_le_antisymmetric(a: Seq<char>, b: Seq<char>)
    requires
        lex_le(a, b),
        lex_le(b, a),
    ensures
        a == b,
    decreases a.len(),
{
    if a.len() > 0 && b.len() > 0 {
        if a[0] == b[0] {
            lemma_lex_le_antisymmetric(a.drop_first(), b.drop_first());
            assert(a =~= seq![a[0]] + a.drop_first());
            assert(b =~= seq![b[0]] + b.drop_first());
        } else {
            assert(a[0] as int != b[0] as int);
        }
    }
}

pub proof fn lemma_lex_le_transitive(a: Seq<char>, b: Seq<char>, c: Seq<char>)
    requires
        lex_le(a, b),
        lex_le(b, c),
    ensures
        lex_le(a, c),
    decreases a.len(),
{
    if a.len() > 0 && b.len() > 0 && c.len() > 0 {
        if a[0] == b[0] && b[0] == c[0] {
            lemma_lex_le_transitive(a.drop_first(), b.drop_first(), c.drop_first());
        }
    }
}

pub proof fn lemma_lex_le_total(a: Seq<char>, b: Seq<char>)
    ensures
        lex_le(a, b) || lex_le(b, a),
    decreases a.len(),
{
    if a.len() > 0 && b.len() > 0 {
        if a[0] == b[0] {
            lemma_lex_le_total(a.drop_first(), b.drop_first());
        } else {
            assert(a[0] as int != b[0] as int);
        }
    }
}

/// The lexicographic order on labels is a total order.
pub proof fn lemma_label_order_total()
    ensures
        total_ordering(label_order()),
{
    assert forall|a: Seq<char>| #[trigger] label_order()(a, a) by {
        lemma_lex_le_reflexive(a);
    }
    assert forall|a: Seq<char>, b: Seq<char>|
        #[trigger] label_order()(a, b) && #[trigger] label_order()(b, a) implies a == b by {
        lemma_lex_le_antisymmetric(a, b);
    }
    assert forall|a: Seq<char>, b: Seq<char>, c: Seq<char>|
        #[trigger] label_order()(a, b) && #[trigger] label_order()(b, c) implies label_order()(
        a,
        c,
    ) by {
        lemma_lex_le_transitive(a, b, c);
    }
    assert forall|a: Seq<char>, b: Seq<char>|
        #[trigger] label_order()(a, b) || #[trigger] label_order()(b, a) by {
        lemma_lex_le_total(a, b);
    }
}

/// A sequence without repetitions holds each of its elements once.
pub proof fn lemma_distinct_count<A>(s: Seq<A>, x: A)
    requires
        s.no_duplicates(),
    ensures
        s.to_multiset().count(x) == if s.contains(x) {
            1nat
        } else {
            0nat
        },
    decreases s.len(),
{
    broadcast use vstd::seq_lib::group_to_multiset_ensures;
    broadcast use vstd::multiset::group_multiset_axioms;

    if s.len() > 0 {
        let t = s.drop_last();
        assert(t.no_duplicates());
        lemma_distinct_count(t, x);
        assert(s =~= t.push(s.last()));
        vstd::seq_lib::to_multiset_build(t, s.last());
        if x == s.last() {
            if t.contains(x) {
                let i = choose|i: int| 0 <= i < t.len() && t[i] == x;
                assert(s[i] == s[s.len() - 1]);
            }
        } else {
            if s.contains(x) {
                let i = choose|i: int| 0 <= i < s.len() && s[i] == x;
                assert(t[i] == x);
            }
        }
    }
}

/// Two sequences without repetitions that hold the same elements hold them
/// equally often.
pub proof fn lemma_distinct_same_multiset<A>(a: Seq<A>, b: Seq<A>)
    requires
        a.no_duplicates(),
        b.no_duplicates(),
        a.to_set() == b.to_set(),
    ensures
        a.to_multiset() == b.to_multiset(),
{
    assert forall|x: A| a.to_multiset().count(x) == b.to_multiset().count(x) by {
        lemma_distinct_count(a, x);
        lemma_distinct_count(b, x);
        assert(a.to_set().contains(x) == a.contains(x));
        assert(b.to_set().contains(x) == b.contains(x));
    }
    assert(a.to_multiset() =~= b.to_multiset());
}

/// Listing a finite set repeats none of its elements.
pub proof fn lemma_set_to_seq_distinct<A>(s: Set<A>)
    requires
        s.finite(),
    ensures
        s.to_seq().no_duplicates(),
        s.to_seq().to_set() == s,
    decreases s.len(),
{
    s.lemma_to_seq_to_set_id();
    if s.len() > 0 {
        let x = s.choose();
        let r = s.remove(x);
        lemma_set_to_seq_distinct(r);
        let q = s.to_seq();
        assert(q =~= Seq::<A>::empty().push(x) + r.to_seq());
        assert forall|i: int, j: int| 0 <= i < q.len() && 0 <= j < q.len() && i != j implies q[i]
            != q[j] by {
            if i == 0 && j > 0 {
                assert(r.to_seq().contains(q[j]));
                assert(r.to_seq().to_set().contains(q[j]));
            } else if j == 0 && i > 0 {
                assert(r.to_seq().contains(q[i]));
                assert(r.to_seq().to_set().contains(q[i]));
            } else if i > 0 && j > 0 {
                assert(r.to_seq()[i - 1] != r.to_seq()[j - 1]);
            }
        }
    }
}

/// Whether `a` comes no later than `b` in the lexicographic order.
pub fn label_le(a: &String, b: &String) -> (r: bool)
    ensures
        r == lex_le(a@, b@),
{
    let sa = a.as_str();
    let sb = b.as_str();
    let la = sa.unicode_len();
    let lb = sb.unicode_len();
    let mut i: usize = 0;
    assert(a@.skip(0) =~= a@);
    assert(b@.skip(0) =~= b@);
    while i < la && i < lb
        invariant
            la == a@.len(),
            lb == b@.len(),
            sa@ == a@,
            sb@ == b@,
            i <= la,
            i <= lb,
            lex_le(a@, b@) == lex_le(a@.skip(i as int), b@.skip(i as int)),
        decreases la - i,
    {
        let ca = sa.get_char(i);
        let cb = sb.get_char(i);
        assert(a@.skip(i as int)[0] == ca);
        assert(b@.skip(i as int)[0] == cb);
        if ca != cb {
            return (ca as u32) < (cb as u32);
        }
        assert(a@.skip(i as int).drop_first() =~= a@.skip(i + 1));
        assert(b@.skip(i as int).drop_first() =~= b@.skip(i + 1));
        i = i + 1;
    }
    i == la
}

/// Whether `label` occurs in `labels`.
pub fn contains_label(labels: &Vec<String>, label: &String) -> (r: bool)
    ensures
        r == views(labels@).contains(label@),
{
    let n = labels.len();
    let mut i: usize = 0;
    while i < n
        invariant
            n == labels@.len(),
            i <= n,
            forall|j: int| 0 <= j < i ==> labels@[j]@ != label@,
        decreases n - i,
    {
        if labels[i] == *label {
            assert(views(labels@)[i as int] == label@);
            return true;
        }
        i = i + 1;
    }
    assert forall|j: int| 0 <= j < views(labels@).len() implies views(labels@)[j] != label@ by {
        assert(labels@[j]@ != label@);
    }
    false
}

/// Sorts labels into lexicographic order.
pub fn sort_labels(labels: Vec<String>) -> (sorted: Vec<String>)
    ensures
        sorted_by(views(sorted@), label_order()),
        views(sorted@).to_multiset() == views(labels@).to_multiset(),
{
    broadcast use vstd::seq_lib::group_to_multiset_ensures;
    let mut sorted: Vec<String> = Vec::new();
    let n = labels.len();
    let mut i: usize = 0;
    while i < n
        invariant
            n == labels.len(),
            i <= n,
            sorted_by(views(sorted@), label_order()),
            views(sorted@).to_multiset() == views(labels@.take(i as int)).to_multiset(),
        decreases n - i,
    {
        let x = labels[i].clone();
        let mut k: usize = 0;
        while k < sorted.len() && label_le(&sorted[k], &x)
            invariant
                k <= sorted.len(),
                forall|j: int| 0 <= j < k ==> lex_le(#[trigger] sorted@[j]@, x@),
            decreases sorted.len() - k,
        {
            k = k + 1;
        }
        proof {
            lemma_label_order_total();
            let s = views(sorted@);
            if k < sorted.len() {
                lemma_lex_le_total(sorted@[k as int]@, x@);
                assert forall|j: int| k <= j < s.len() implies lex_le(x@, s[j]) by {
                    if j > k {
                        assert(label_order()(s[k as int], s[j]));
                        lemma_lex_le_transitive(x@, s[k as int], s[j]);
                    }
                }
            }
        }
        let ghost before = sorted@;
        sorted.insert(k, x);
        proof {
            let s = views(before);
            let t = views(sorted@);
            assert(t =~= s.insert(k as int, x@));
            assert forall|p: int, q: int| 0 <= p < q < t.len() implies #[trigger] label_order()(
                t[p],
                t[q],
            ) by {
                if q < k {
                    assert(label_order()(s[p], s[q]));
                } else if p < k && q == k {
                } else if p < k {
                    assert(lex_le(s[p], x@));
                    lemma_lex_le_transitive(s[p], x@, s[q - 1]);
                } else if p == k {
                } else {
                    assert(label_order()(s[p - 1], s[q - 1]));
                }
            }
            assert(labels@.take(i + 1) =~= labels@.take(i as int).push(labels@[i as int]));
            assert(views(labels@.take(i + 1)) =~= views(labels@.take(i as int)).push(x@));
            vstd::seq_lib::to_multiset_insert(s, k as int, x@);
            vstd::seq_lib::to_multiset_build(views(labels@.take(i as int)), x@);
            assert(t.to_multiset() =~= views(labels@.take(i + 1)).to_multiset());
        }
        i = i + 1;
    }
    assert(labels@.take(n as int) =~= labels@);
    sorted
}

} // verus!
