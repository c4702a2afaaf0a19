//! A map from text to values that is walked in the order of its keys.

use vstd::prelude::*;
use crate::text;

verus! {

/// Whether `a` comes before `b` in the order of their characters.
pub open spec fn before(a: Seq<char>, b: Seq<char>) -> bool
    decreases a.len(),
{
    if b.len() == 0 {
        false
    } else if a.len() == 0 {
        true
    } else if a[0] != b[0] {
        a[0] < b[0]
    } else {
        before(a.skip(1), b.skip(1))
    }
}

/// Nothing comes before itself.
pub proof fn before_is_irreflexive(a: Seq<char>)
    ensures
        !before(a, a),
    decreases a.len(),
{
    if a.len() > 0 {
        before_is_irreflexive(a.skip(1));
    }
}

/// What comes before something that comes before a third comes before that.
pub proof fn before_is_transitive(a: Seq<char>, b: Seq<char>, c: Seq<char>)
    requires
        before(a, b),
        before(b, c),
    ensures
        before(a, c),
    decreases a.len(),
{
    if a.len() > 0 && b.len() > 0 && c.len() > 0 && a[0] == b[0] && b[0] == c[0] {
        before_is_transitive(a.skip(1), b.skip(1), c.skip(1));
    }
}

/// Of two different texts, one comes before the other.
pub proof fn before_is_total(a: Seq<char>, b: Seq<char>)
    ensures
        a == b || before(a, b) || before(b, a),
    decreases a.len(),
{
    if a.len() == 0 && b.len() == 0 {
        assert(a =~= b);
    } else if a.len() > 0 && b.len() > 0 && a[0] == b[0] {
        before_is_total(a.skip(1), b.skip(1));
        if a.skip(1) == b.skip(1) {
            assert(a =~= seq![a[0]] + a.skip(1));
            assert(b =~= seq![b[0]] + b.skip(1));
        }
    }
}

fn precedes(a: &[char], b: &[char]) -> (r: bool)
    ensures
        r == before(a@, b@),
{
    let mut i: usize = 0;
    assert(a@.skip(0) =~= a@);
    assert(b@.skip(0) =~= b@);
    while i < a.len() && i < b.len()
        invariant
            i <= a.len(),
            i <= b.len(),
            before(a@, b@) == before(a@.skip(i as int), b@.skip(i as int)),
        decreases a.len() - i,
    {
        if a[i] != b[i] {
            return a[i] < b[i];
        }
        assert(a@.skip(i as int).skip(1) =~= a@.skip(i + 1));
        assert(b@.skip(i as int).skip(1) =~= b@.skip(i + 1));
        i = i + 1;
    }
    i < b.len()
}

/// Whether `a` comes before `b` in the order of their characters.
pub fn text_precedes(a: &str, b: &str) -> (r: bool)
    ensures
        r == before(a@, b@),
{
    let x = text::chars_of(a);
    let y = text::chars_of(b);
    precedes(x.as_slice(), y.as_slice())
}

/// The keys and values that a vector of pairs holds.
pub open spec fn pairs<V>(v: Seq<(String, V)>) -> Seq<(Seq<char>, V)> {
    v.map_values(|e: (String, V)| (e.0@, e.1))
}

/// The keys of a sequence of pairs.
pub open spec fn keys<V>(s: Seq<(Seq<char>, V)>) -> Seq<Seq<char>> {
    s.map_values(|e: (Seq<char>, V)| e.0)
}

/// Whether the keys of `s` ascend.
pub open spec fn ascending<V>(s: Seq<(Seq<char>, V)>) -> bool {
    forall|i: int, j: int| 0 <= i < j < s.len() ==> before((#[trigger] s[i]).0, (#[trigger] s[j]).0)
}

/// The map that a sequence of pairs stands for.
pub open spec fn map_of<V>(s: Seq<(Seq<char>, V)>) -> Map<Seq<char>, V>
    decreases s.len(),
{
    if s.len() == 0 {
        Map::empty()
    } else {
        map_of(s.drop_last()).insert(s.last().0, s.last().1)
    }
}

proof fn lemma_map_of<V>(s: Seq<(Seq<char>, V)>)
    requires
        ascending(s),
    ensures
        forall|i: int|
            0 <= i < s.len() ==> map_of(s).contains_key((#[trigger] s[i]).0) && map_of(s)[s[i].0]
                == s[i].1,
        forall|k: Seq<char>| #[trigger]
            map_of(s).contains_key(k) ==> exists|i: int| 0 <= i < s.len() && (#[trigger] s[i]).0 == k,
    decreases s.len(),
{
    if s.len() > 0 {
        let t = s.drop_last();
        assert(ascending(t));
        lemma_map_of(t);
        assert forall|i: int| 0 <= i < s.len() implies map_of(s).contains_key((#[trigger] s[i]).0)
            && map_of(s)[s[i].0] == s[i].1 by {
            if i < t.len() {
                assert(t[i] == s[i]);
                before_is_irreflexive(s[i].0);
                assert(before(s[i].0, s[s.len() - 1].0));
            }
        }
        assert forall|k: Seq<char>| #[trigger] map_of(s).contains_key(k) implies exists|i: int|
            0 <= i < s.len() && (#[trigger] s[i]).0 == k by {
            if k == s.last().0 {
                assert(s[s.len() - 1].0 == k);
            } else {
                assert(map_of(t).contains_key(k));
                let i = choose|i: int| 0 <= i < t.len() && (#[trigger] t[i]).0 == k;
                assert(s[i].0 == k);
            }
        }
    }
}

proof fn lemma_map_of_insert<V>(s: Seq<(Seq<char>, V)>, i: int, k: Seq<char>, v: V)
    requires
        0 <= i <= s.len(),
        forall|j: int| i <= j < s.len() ==> (#[trigger] s[j]).0 != k,
    ensures
        map_of(s.insert(i, (k, v))) == map_of(s).insert(k, v),
    decreases s.len(),
{
    let t = s.insert(i, (k, v));
    if i == s.len() {
        assert(t.drop_last() =~= s);
    } else {
        lemma_map_of_insert(s.drop_last(), i, k, v);
        assert(t.drop_last() =~= s.drop_last().insert(i, (k, v)));
        assert(t.last() == s.last());
        assert(s[s.len() - 1].0 != k);
        assert(map_of(t) =~= map_of(s).insert(k, v));
    }
}

proof fn lemma_map_of_update<V>(s: Seq<(Seq<char>, V)>, i: int, v: V)
    requires
        0 <= i < s.len(),
        forall|j: int| i < j < s.len() ==> (#[trigger] s[j]).0 != s[i].0,
    ensures
        map_of(s.update(i, (s[i].0, v))) == map_of(s).insert(s[i].0, v),
    decreases s.len(),
{
    let k = s[i].0;
    let t = s.update(i, (k, v));
    if i == s.len() - 1 {
        assert(t.drop_last() =~= s.drop_last());
        assert(map_of(t) =~= map_of(s).insert(k, v));
    } else {
        lemma_map_of_update(s.drop_last(), i, v);
        assert(t.drop_last() =~= s.drop_last().update(i, (k, v)));
        assert(t.last() == s.last());
        assert(s[s.len() - 1].0 != k);
        assert(map_of(t) =~= map_of(s).insert(k, v));
    }
}

/// A map from text to values, walked in the order of its keys.
#[derive(Debug)]
pub struct Table<V> {
    entries: Vec<(String, V)>,
}

impl<V> View for Table<V> {
    type V = Map<Seq<char>, V>;

    open spec fn view(&self) -> Map<Seq<char>, V> {
        map_of(self.seq())
    }
}

impl<V> Table<V> {
    /// The entries in the order of their keys.
    pub closed spec fn seq(&self) -> Seq<(Seq<char>, V)> {
        pairs(self.entries@)
    }

    #[verifier::type_invariant]
    closed spec fn inv(self) -> bool {
        ascending(self.seq())
    }

    /// The table without entries.
    pub fn new() -> (t: Table<V>)
        ensures
            t.seq() == Seq::<(Seq<char>, V)>::empty(),
            t@ == Map::<Seq<char>, V>::empty(),
    {
        let t = Table { entries: Vec::new() };
        assert(t.seq() =~= Seq::<(Seq<char>, V)>::empty());
        t
    }

    /// The entries in the order of their keys.
    pub fn entries(&self) -> (r: &Vec<(String, V)>)
        ensures
            pairs(r@) == self.seq(),
            ascending(self.seq()),
    {
        proof {
            use_type_invariant(self);
        }
        &self.entries
    }

    fn find(entries: &Vec<(String, V)>, key: &str) -> (r: (usize, bool))
        requires
            ascending(pairs(entries@)),
        ensures
            r.0 <= entries@.len(),
            forall|j: int| 0 <= j < r.0 ==> before((#[trigger] pairs(entries@)[j]).0, key@),
            r.1 ==> r.0 < entries@.len() && pairs(entries@)[r.0 as int].0 == key@,
            !r.1 ==> forall|j: int|
                r.0 <= j < entries@.len() ==> before(key@, (#[trigger] pairs(entries@)[j]).0),
    {
        let ghost s = pairs(entries@);
        let mut i: usize = 0;
        while i < entries.len()
            invariant
                i <= entries.len(),
                s == pairs(entries@),
                s.len() == entries@.len(),
                ascending(s),
                forall|j: int| 0 <= j < i ==> before((#[trigger] s[j]).0, key@),
            decreases entries.len() - i,
        {
            assert(s[i as int].0 == entries@[i as int].0@);
            if text::same(entries[i].0.as_str(), key) {
                return (i, true);
            }
            if !text_precedes(entries[i].0.as_str(), key) {
                proof {
                    before_is_total(s[i as int].0, key@);
                    assert forall|j: int| i <= j < s.len() implies before(
                        key@,
                        (#[trigger] s[j]).0,
                    ) by {
                        if j > i {
                            assert(before(s[i as int].0, s[j].0));
                            before_is_transitive(key@, s[i as int].0, s[j].0);
                        }
                    }
                }
                return (i, false);
            }
            i = i + 1;
        }
        (i, false)
    }

    /// Sets what `key` maps to.
    pub fn insert(&mut self, key: String, value: V)
        ensures
            final(self)@ == old(self)@.insert(key@, value),
            ascending(final(self).seq()),
    {
        proof {
            use_type_invariant(&*self);
        }
        let ghost s = self.seq();
        let ghost k = key@;
        let mut entries: Vec<(String, V)> = Vec::new();
        std::mem::swap(&mut entries, &mut self.entries);
        let (i, found) = Self::find(&entries, key.as_str());
        if found {
            proof {
                assert forall|j: int| i < j < s.len() implies (#[trigger] s[j]).0 != s[i as int].0 by {
                    assert(before(s[i as int].0, s[j].0));
                    before_is_irreflexive(s[j].0);
                }
                lemma_map_of_update(s, i as int, value);
            }
            entries.set(i, (key, value));
            assert(pairs(entries@) =~= s.update(i as int, (k, value)));
            proof {
                let t = pairs(entries@);
                assert forall|a: int, b: int| 0 <= a < b < t.len() implies before(
                    (#[trigger] t[a]).0,
                    (#[trigger] t[b]).0,
                ) by {
                    assert(before(s[a].0, s[b].0));
                }
            }
        } else {
            proof {
                assert forall|j: int| i <= j < s.len() implies (#[trigger] s[j]).0 != k by {
                    before_is_irreflexive(k);
                }
                lemma_map_of_insert(s, i as int, k, value);
            }
            entries.insert(i, (key, value));
            assert(pairs(entries@) =~= s.insert(i as int, (k, value)));
            proof {
                let t = pairs(entries@);
                assert forall|a: int, b: int| 0 <= a < b < t.len() implies before(
                    (#[trigger] t[a]).0,
                    (#[trigger] t[b]).0,
                ) by {
                    let x = if a < i { a } else { a - 1 };
                    let y = if b < i { b } else { b - 1 };
                    if a != i && b != i {
                        assert(before(s[x].0, s[y].0));
                    } else if a == i {
                        assert(t[b] == s[y]);
                    } else {
                        assert(t[a] == s[x]);
                    }
                }
            }
        }
        self.entries = entries;
    }

    /// The keys, in order.
    pub fn key_list(&self) -> (out: Vec<String>)
        ensures
            text::strings(out@) == keys(self.seq()),
    {
        let mut out: Vec<String> = Vec::new();
        let mut i: usize = 0;
        while i < self.entries.len()
            invariant
                i <= self.entries.len(),
                self.seq().len() == self.entries.len(),
                text::strings(out@) == keys(self.seq()).take(i as int),
            decreases self.entries.len() - i,
        {
            text::push_text(&mut out, self.entries[i].0.as_str());
            assert(keys(self.seq()).take(i + 1) =~= keys(self.seq()).take(i as int).push(
                self.entries@[i as int].0@,
            ));
            i = i + 1;
        }
        assert(keys(self.seq()).take(i as int) =~= keys(self.seq()));
        out
    }

    /// What `key` maps to.
    pub fn get(&self, key: &str) -> (r: Option<&V>)
        ensures
            match r {
                Some(v) => self@.contains_key(key@) && self@[key@] == *v,
                None => !self@.contains_key(key@),
            },
    {
        proof {
            use_type_invariant(self);
            lemma_map_of(self.seq());
        }
        let (i, found) = Self::find(&self.entries, key);
        if found {
            assert(self.seq()[i as int].0 == key@);
            Some(&self.entries[i].1)
        } else {
            proof {
                if self@.contains_key(key@) {
                    let j = choose|j: int|
                        0 <= j < self.seq().len() && (#[trigger] self.seq()[j]).0 == key@;
                    before_is_irreflexive(key@);
                    assert(self.seq()[j].0 == key@);
                }
            }
            None
        }
    }
}

} // verus!
