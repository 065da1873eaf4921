//! A map from labels to values: the section labels of an index and what each
//! of them names (a file, or the files of a directory).
use vstd::prelude::*;

use crate::text::views;

verus! {

/// A finite map keyed by label text. Each label occurs at most once; the
/// labels are kept in the order in which they were first inserted.
pub struct LabelMap<V> {
    entries: Vec<(String, V)>,
}

/// Every label of `s` occurs once.
pub open spec fn labels_distinct<V>(s: Seq<(String, V)>) -> bool {
    forall|i: int, j: int| 0 <= i < j < s.len() ==> #[trigger] s[i].0@ != #[trigger] s[j].0@
}

/// Whether some entry of `s` has label `k`.
pub open spec fn has_label<V>(s: Seq<(String, V)>, k: Seq<char>) -> bool {
    exists|i: int| 0 <= i < s.len() && #[trigger] s[i].0@ == k
}

/// The position of an entry with label `k` in `s`.
pub open spec fn position_of<V>(s: Seq<(String, V)>, k: Seq<char>) -> int {
    choose|i: int| 0 <= i < s.len() && #[trigger] s[i].0@ == k
}

/// The map that a list of entries with distinct labels stands for.
pub open spec fn entries_map<V>(s: Seq<(String, V)>) -> Map<Seq<char>, V> {
    Map::new(|k: Seq<char>| has_label(s, k), |k: Seq<char>| s[position_of(s, k)].1)
}

/// In a list with distinct labels, the entry at `i` is the one found for its label.
pub proof fn lemma_position_unique<V>(s: Seq<(String, V)>, i: int)
    requires
        labels_distinct(s),
        0 <= i < s.len(),
    ensures
        has_label(s, s[i].0@),
        position_of(s, s[i].0@) == i,
        entries_map(s).dom().contains(s[i].0@),
        entries_map(s)[s[i].0@] == s[i].1,
{
    let k = s[i].0@;
    assert(s[i].0@ == k);
    let p = position_of(s, k);
    assert(0 <= p < s.len() && s[p].0@ == k);
    if p != i {
        if p < i {
            assert(s[p].0@ != s[i].0@);
        } else {
            assert(s[i].0@ != s[p].0@);
        }
    }
}

impl<V> View for LabelMap<V> {
    type V = Map<Seq<char>, V>;

    closed spec fn view(&self) -> Map<Seq<char>, V> {
        entries_map(self.entries@)
    }
}

impl<V> LabelMap<V> {
    #[verifier::type_invariant]
    closed spec fn inv(self) -> bool {
        labels_distinct(self.entries@)
    }

    /// The labels, in the order in which they were first inserted.
    pub closed spec fn label_seq(self) -> Seq<Seq<char>> {
        self.entries@.map_values(|e: (String, V)| e.0@)
    }

    /// The label sequence lists the labels of the map, each once.
    proof fn lemma_label_seq(self)
        requires
            labels_distinct(self.entries@),
        ensures
            self.label_seq().no_duplicates(),
            self.label_seq().to_set() == self@.dom(),
            self@.dom().finite(),
    {
        let s = self.entries@;
        let ls = self.label_seq();
        assert forall|i: int, j: int| 0 <= i < ls.len() && 0 <= j < ls.len() && i != j implies ls[i]
            != ls[j] by {
            if i < j {
                assert(s[i].0@ != s[j].0@);
            } else {
                assert(s[j].0@ != s[i].0@);
            }
        }
        assert forall|k: Seq<char>| ls.to_set().contains(k) <==> self@.dom().contains(k) by {
            if ls.to_set().contains(k) {
                let i = choose|i: int| 0 <= i < ls.len() && ls[i] == k;
                assert(s[i].0@ == k);
            }
            if self@.dom().contains(k) {
                let i = position_of(s, k);
                assert(ls[i] == k);
            }
        }
        assert(ls.to_set() =~= self@.dom());
        ls.lemma_cardinality_of_set();
        vstd::seq_lib::seq_to_set_is_finite(ls);
    }

    /// An empty map.
    pub fn new() -> (m: Self)
        ensures
            m@ == Map::<Seq<char>, V>::empty(),
            m.label_seq() == Seq::<Seq<char>>::empty(),
    {
        let m = LabelMap { entries: Vec::new() };
        assert(m@ =~= Map::<Seq<char>, V>::empty());
        assert(m.label_seq() =~= Seq::<Seq<char>>::empty());
        m
    }

    /// The position of `label` among the entries, if it is there.
    fn find(&self, label: &String) -> (r: Option<usize>)
        ensures
            match r {
                Some(i) => i < self.entries@.len() && self.entries@[i as int].0@ == label@,
                None => !has_label(self.entries@, label@),
            },
    {
        let n = self.entries.len();
        let mut i: usize = 0;
        while i < n
            invariant
                n == self.entries@.len(),
                i <= n,
                forall|j: int| 0 <= j < i ==> self.entries@[j].0@ != label@,
            decreases n - i,
        {
            if self.entries[i].0 == *label {
                return Some(i);
            }
            i = i + 1;
        }
        None
    }

    /// Whether `label` has a value.
    pub fn contains_key(&self, label: &String) -> (b: bool)
        ensures
            b == self@.dom().contains(label@),
    {
        self.find(label).is_some()
    }

    /// The value of `label`, if it has one.
    pub fn get(&self, label: &String) -> (r: Option<&V>)
        ensures
            r is Some <==> self@.dom().contains(label@),
            r matches Some(v) ==> *v == self@[label@],
    {
        proof {
            use_type_invariant(self);
        }
        match self.find(label) {
            Some(i) => {
                proof {
                    lemma_position_unique(self.entries@, i as int);
                }
                Some(&self.entries[i].1)
            },
            None => None,
        }
    }

    /// Gives `label` the value `value`, in place of any value it had.
    pub fn insert(&mut self, label: String, value: V)
        ensures
            final(self)@ == old(self)@.insert(label@, value),
            old(self)@.dom().contains(label@) ==> final(self).label_seq() == old(self).label_seq(),
            !old(self)@.dom().contains(label@) ==> final(self).label_seq() == old(
                self,
            ).label_seq().push(label@),
    {
        proof {
            use_type_invariant(&*self);
        }
        let ghost old_map = self@;
        let ghost old_seq = self.label_seq();
        let found = self.find(&label);
        let mut entries: Vec<(String, V)> = Vec::new();
        std::mem::swap(&mut entries, &mut self.entries);
        let ghost s = entries@;
        let ghost k = label@;
        match found {
            Some(i) => {
                entries.set(i, (label, value));
                proof {
                    let t = entries@;
                    assert(t =~= s.update(i as int, t[i as int]));
                    assert(labels_distinct(t)) by {
                        assert forall|p: int, q: int| 0 <= p < q < t.len() implies #[trigger] t[p].0@
                            != #[trigger] t[q].0@ by {
                            if p != i && q != i {
                                assert(s[p].0@ != s[q].0@);
                            } else if p == i {
                                assert(s[p].0@ != s[q].0@);
                            } else {
                                assert(s[p].0@ != s[q].0@);
                            }
                        }
                    }
                    lemma_position_unique(t, i as int);
                    assert forall|k2: Seq<char>|
                        #![trigger entries_map(t).dom().contains(k2)]
                        entries_map(t).dom().contains(k2) == old_map.insert(k, value).dom().contains(k2)
                            && (entries_map(t).dom().contains(k2) ==> entries_map(t)[k2] == old_map.insert(
                            k,
                            value,
                        )[k2]) by {
                        if k2 != k {
                            if has_label(s, k2) {
                                let p = position_of(s, k2);
                                assert(p != i);
                                assert(t[p].0@ == k2);
                                lemma_position_unique(s, p);
                                lemma_position_unique(t, p);
                            }
                            if has_label(t, k2) {
                                let p = position_of(t, k2);
                                assert(p != i);
                                assert(s[p].0@ == k2);
                            }
                        }
                    }
                    assert(entries_map(t) =~= old_map.insert(k, value));
                    assert(t.map_values(|e: (String, V)| e.0@) =~= old_seq);
                }
            },
            None => {
                entries.push((label, value));
                proof {
                    let t = entries@;
                    let n = s.len() as int;
                    assert(labels_distinct(t)) by {
                        assert forall|p: int, q: int| 0 <= p < q < t.len() implies #[trigger] t[p].0@
                            != #[trigger] t[q].0@ by {
                            if q < n {
                                assert(s[p].0@ != s[q].0@);
                            } else {
                                assert(s[p].0@ == t[p].0@);
                            }
                        }
                    }
                    lemma_position_unique(t, n);
                    assert forall|k2: Seq<char>|
                        #![trigger entries_map(t).dom().contains(k2)]
                        entries_map(t).dom().contains(k2) == old_map.insert(k, value).dom().contains(k2)
                            && (entries_map(t).dom().contains(k2) ==> entries_map(t)[k2] == old_map.insert(
                            k,
                            value,
                        )[k2]) by {
                        if k2 != k {
                            if has_label(s, k2) {
                                let p = position_of(s, k2);
                                assert(t[p].0@ == k2);
                                lemma_position_unique(s, p);
                                lemma_position_unique(t, p);
                            }
                            if has_label(t, k2) {
                                let p = position_of(t, k2);
                                assert(p != n);
                                assert(s[p].0@ == k2);
                            }
                        }
                    }
                    assert(entries_map(t) =~= old_map.insert(k, value));
                    assert(t.map_values(|e: (String, V)| e.0@) =~= old_seq.push(k));
                }
            },
        }
        self.entries = entries;
    }

    /// The labels, each once, in the order in which they were first inserted.
    pub fn keys(&self) -> (r: Vec<String>)
        ensures
            views(r@) == self.label_seq(),
            self.label_seq().no_duplicates(),
            self.label_seq().to_set() == self@.dom(),
            self@.dom().finite(),
    {
        proof {
            use_type_invariant(self);
            self.lemma_label_seq();
        }
        let mut r: Vec<String> = Vec::new();
        let n = self.entries.len();
        let mut i: usize = 0;
        while i < n
            invariant
                n == self.entries@.len(),
                i <= n,
                views(r@) =~= self.label_seq().take(i as int),
            decreases n - i,
        {
            let label = self.entries[i].0.clone();
            let ghost before = r@;
            r.push(label);
            proof {
                assert(r@ =~= before.push(label));
                assert(self.label_seq().take(i + 1) =~= self.label_seq().take(i as int).push(label@));
                assert(views(r@) =~= views(before).push(label@));
            }
            i = i + 1;
        }
        assert(self.label_seq().take(n as int) =~= self.label_seq());
        r
    }
}

} // verus!
