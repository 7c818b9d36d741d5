//! Maps from strings to values, kept as lists of entries in the order their keys
//! were first inserted.
use vstd::prelude::*;
use crate::text::chars_of;

verus! {

/// The position of the entry for `k` (the last one, where keys repeat), or -1.
pub open spec fn key_index<V>(e: Seq<(Seq<char>, V)>, k: Seq<char>) -> int
    decreases e.len(),
{
    if e.len() == 0 {
        -1
    } else if e.last().0 == k {
        e.len() - 1
    } else {
        key_index(e.drop_last(), k)
    }
}

/// The value for `k`, if there is one.
pub open spec fn lookup<V>(e: Seq<(Seq<char>, V)>, k: Seq<char>) -> Option<V> {
    let i = key_index(e, k);
    if i < 0 {
        None
    } else {
        Some(e[i].1)
    }
}

/// The entries with `k` bound to `v`: its entry updated in place, or a new one
/// added at the end.
pub open spec fn assign<V>(e: Seq<(Seq<char>, V)>, k: Seq<char>, v: V) -> Seq<(Seq<char>, V)> {
    let i = key_index(e, k);
    if i < 0 {
        e.push((k, v))
    } else {
        e.update(i, (k, v))
    }
}

/// No key occurs twice.
pub open spec fn distinct_keys<V>(e: Seq<(Seq<char>, V)>) -> bool {
    forall|i: int, j: int| 0 <= i < j < e.len() ==> e[i].0 != e[j].0
}

/// `key_index` finds the entry with the key, or reports that none has it.
pub proof fn lemma_key_index<V>(e: Seq<(Seq<char>, V)>, k: Seq<char>)
    ensures
        -1 <= key_index(e, k) < e.len(),
        key_index(e, k) >= 0 ==> e[key_index(e, k)].0 == k,
        key_index(e, k) < 0 ==> forall|i: int| 0 <= i < e.len() ==> e[i].0 != k,
    decreases e.len(),
{
    if e.len() > 0 && e.last().0 != k {
        lemma_key_index(e.drop_last(), k);
        assert forall|i: int| 0 <= i < e.len() - 1 implies e[i] == e.drop_last()[i] by {}
    }
}

/// Binding a key keeps the keys distinct.
pub proof fn lemma_assign_distinct<V>(e: Seq<(Seq<char>, V)>, k: Seq<char>, v: V)
    requires
        distinct_keys(e),
    ensures
        distinct_keys(assign(e, k, v)),
{
    lemma_key_index(e, k);
}

/// A map from strings to values, in the order the keys were first inserted.
pub struct StrMap<V> {
    pub entries: Vec<(String, V)>,
}

impl<V: DeepView> DeepView for StrMap<V> {
    type V = Seq<(Seq<char>, V::V)>;

    open spec fn deep_view(&self) -> Seq<(Seq<char>, V::V)> {
        Seq::new(self.entries@.len(), |i: int| (self.entries@[i].0@, self.entries@[i].1.deep_view()))
    }
}

impl<V: DeepView> StrMap<V> {
    /// The empty map.
    pub fn new() -> (m: StrMap<V>)
        ensures
            m.deep_view() == Seq::<(Seq<char>, V::V)>::empty(),
    {
        let m = StrMap { entries: Vec::new() };
        assert(m.deep_view() =~= Seq::<(Seq<char>, V::V)>::empty());
        m
    }

    /// The number of entries.
    pub fn len(&self) -> (n: usize)
        ensures
            n == self.deep_view().len(),
    {
        self.entries.len()
    }

    /// The position of the entry for `k`.
    pub fn index_of(&self, k: &str) -> (r: Option<usize>)
        ensures
            match r {
                Some(i) => key_index(self.deep_view(), k@) == i as int && i < self.entries@.len(),
                None => key_index(self.deep_view(), k@) == -1,
            },
    {
        let ghost e = self.deep_view();
        proof {
            lemma_key_index(e, k@);
        }
        let kv = chars_of(k);
        let mut i = self.entries.len();
        assert(e.take(i as int) =~= e);
        while i > 0
            invariant
                e == self.deep_view(),
                kv@ == k@,
                i <= self.entries@.len(),
                key_index(e, k@) == key_index(e.take(i as int), k@),
                -1 <= key_index(e, k@) < e.len(),
            decreases i,
        {
            assert(e.take(i as int).last() == e[i - 1]);
            assert(e.take(i as int).drop_last() =~= e.take(i - 1));
            let ek = chars_of(self.entries[i - 1].0.as_str());
            if same(&ek, &kv) {
                return Some(i - 1);
            }
            i -= 1;
        }
        None
    }

    /// The value for `k`, if there is one.
    pub fn get(&self, k: &str) -> (r: Option<&V>)
        ensures
            match r {
                Some(v) => lookup(self.deep_view(), k@) == Some(v.deep_view()),
                None => lookup(self.deep_view(), k@) is None,
            },
    {
        match self.index_of(k) {
            Some(i) => Some(&self.entries[i].1),
            None => None,
        }
    }

    /// Binds `k` to `v`.
    pub fn insert(&mut self, k: String, v: V)
        ensures
            final(self).deep_view() == assign(old(self).deep_view(), k@, v.deep_view()),
    {
        let ghost e = self.deep_view();
        let ghost kk = k@;
        let ghost vv = v.deep_view();
        match self.index_of(k.as_str()) {
            Some(i) => {
                self.entries.set(i, (k, v));
                assert(self.deep_view() =~= e.update(i as int, (kk, vv)));
            },
            None => {
                self.entries.push((k, v));
                assert(self.deep_view() =~= e.push((kk, vv)));
            },
        }
    }
}

impl StrMap<u32> {
    /// A copy of the map.
    pub fn duplicate(&self) -> (m: StrMap<u32>)
        ensures
            m.deep_view() == self.deep_view(),
    {
        let mut entries: Vec<(String, u32)> = Vec::new();
        let mut i: usize = 0;
        while i < self.entries.len()
            invariant
                i <= self.entries@.len(),
                entries@.len() == i,
                forall|k: int| 0 <= k < i ==> (#[trigger] entries@[k]).0@ == self.entries@[k].0@
                    && entries@[k].1 == self.entries@[k].1,
            decreases self.entries@.len() - i,
        {
            let key = self.entries[i].0.clone();
            entries.push((key, self.entries[i].1));
            i += 1;
        }
        let m = StrMap { entries };
        assert(m.deep_view() =~= self.deep_view());
        m
    }
}

impl StrMap<Vec<String>> {
    /// Adds `text` at the end of the list bound to `k`, which is empty where `k`
    /// is not bound yet.
    pub fn append_to(&mut self, k: String, text: String)
        ensures
            final(self).deep_view() == assign(
                old(self).deep_view(),
                k@,
                match lookup(old(self).deep_view(), k@) {
                    Some(list) => list,
                    None => Seq::empty(),
                }.push(text@),
            ),
    {
        let ghost e = self.deep_view();
        proof {
            lemma_key_index(e, k@);
        }
        match self.index_of(k.as_str()) {
            Some(i) => {
                let (key, mut list) = self.entries.remove(i);
                let ghost before = list.deep_view();
                list.push(text);
                assert(list.deep_view() =~= before.push(text@));
                self.entries.insert(i, (key, list));
                assert(self.deep_view() =~= assign(e, k@, before.push(text@)));
            },
            None => {
                let mut list: Vec<String> = Vec::new();
                list.push(text);
                assert(list.deep_view() =~= Seq::<Seq<char>>::empty().push(text@));
                self.insert(k, list);
            },
        }
    }
}

/// Whether two character sequences are equal.
pub fn same(a: &Vec<char>, b: &Vec<char>) -> (r: bool)
    ensures
        r == (a@ == b@),
{
    if a.len() != b.len() {
        return false;
    }
    let mut i: usize = 0;
    while i < a.len()
        invariant
            a@.len() == b@.len(),
            i <= a@.len(),
            forall|j: int| 0 <= j < i ==> a@[j] == b@[j],
        decreases a@.len() - i,
    {
        if a[i] != b[i] {
            return false;
        }
        i += 1;
    }
    assert(a@ =~= b@);
    true
}

}
