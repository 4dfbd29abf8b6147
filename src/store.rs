//! A keyed store of byte strings: exact lookup, write, delete and prefix
//! collection, viewed as a finite map from key bytes to value bytes.

use vstd::prelude::*;

verus! {

/// A key/value pair as plain byte sequences.
pub type Pair = (Seq<u8>, Seq<u8>);

/// The byte sequences of a vector of key/value pairs.
pub open spec fn pairs_view(e: Seq<(Vec<u8>, Vec<u8>)>) -> Seq<Pair> {
    e.map_values(|p: (Vec<u8>, Vec<u8>)| (p.0@, p.1@))
}

/// No key occurs twice in `s`.
pub open spec fn unique_keys<K, V>(s: Seq<(K, V)>) -> bool {
    forall|i: int, j: int| 0 <= i < s.len() && 0 <= j < s.len() && i != j ==> s[i].0 != s[j].0
}

/// The map that a sequence of pairs with unique keys spells.
pub open spec fn pairs_map<K, V>(s: Seq<(K, V)>) -> Map<K, V> {
    Map::new(
        |k: K| exists|i: int| 0 <= i < s.len() && s[i].0 == k,
        |k: K| s[choose|i: int| 0 <= i < s.len() && s[i].0 == k].1,
    )
}

/// `a` comes strictly before `b` in lexicographic byte order.
pub open spec fn lex_lt(a: Seq<u8>, b: Seq<u8>) -> bool
    decreases a.len(),
{
    if a.len() == 0 {
        b.len() > 0
    } else if b.len() == 0 {
        false
    } else if a[0] != b[0] {
        a[0] < b[0]
    } else {
        lex_lt(a.drop_first(), b.drop_first())
    }
}

/// The keys of `s` increase strictly in lexicographic order.
pub open spec fn sorted_keys<V>(s: Seq<(Seq<u8>, V)>) -> bool {
    forall|i: int, j: int| 0 <= i < j < s.len() ==> lex_lt(s[i].0, s[j].0)
}

/// No sequence comes before itself.
pub proof fn lemma_lex_irreflexive(a: Seq<u8>)
    ensures
        !lex_lt(a, a),
    decreases a.len(),
{
    if a.len() > 0 {
        lemma_lex_irreflexive(a.drop_first());
    }
}

/// Lexicographic order is transitive.
pub proof fn lemma_lex_transitive(a: Seq<u8>, b: Seq<u8>, c: Seq<u8>)
    requires
        lex_lt(a, b),
        lex_lt(b, c),
    ensures
        lex_lt(a, c),
    decreases a.len(),
{
    if a.len() > 0 && b.len() > 0 && c.len() > 0 && a[0] == b[0] && b[0] == c[0] {
        lemma_lex_transitive(a.drop_first(), b.drop_first(), c.drop_first());
    }
}

/// Of two different sequences, one comes before the other.
pub proof fn lemma_lex_total(a: Seq<u8>, b: Seq<u8>)
    requires
        a != b,
    ensures
        lex_lt(a, b) || lex_lt(b, a),
    decreases a.len(),
{
    if a.len() == 0 && b.len() == 0 {
        assert(a =~= b);
    } else if a.len() > 0 && b.len() > 0 && a[0] == b[0] {
        if a.drop_first() == b.drop_first() {
            assert(a =~= seq![a[0]] + a.drop_first());
            assert(b =~= seq![b[0]] + b.drop_first());
        } else {
            lemma_lex_total(a.drop_first(), b.drop_first());
        }
    }
}

proof fn lemma_sorted_unique<V>(s: Seq<(Seq<u8>, V)>)
    requires
        sorted_keys(s),
    ensures
        unique_keys(s),
{
    assert forall|i: int, j: int| 0 <= i < s.len() && 0 <= j < s.len() && i != j implies s[i].0 != s[j].0 by {
        lemma_lex_irreflexive(s[i].0);
    }
}

/// Whether `a` comes strictly before `b` in lexicographic byte order.
pub fn bytes_lt(a: &Vec<u8>, b: &Vec<u8>) -> (r: bool)
    ensures
        r == lex_lt(a@, b@),
{
    let mut i: usize = 0;
    assert(a@.subrange(0, a.len() as int) =~= a@);
    assert(b@.subrange(0, b.len() as int) =~= b@);
    while i < a.len() && i < b.len()
        invariant
            i <= a.len(),
            i <= b.len(),
            lex_lt(a@, b@) == lex_lt(a@.subrange(i as int, a.len() as int), b@.subrange(i as int, b.len() as int)),
        decreases a.len() - i,
    {
        let ghost sa = a@.subrange(i as int, a.len() as int);
        let ghost sb = b@.subrange(i as int, b.len() as int);
        assert(sa[0] == a@[i as int] && sb[0] == b@[i as int]);
        if a[i] != b[i] {
            return a[i] < b[i];
        }
        assert(sa.drop_first() =~= a@.subrange(i + 1, a.len() as int));
        assert(sb.drop_first() =~= b@.subrange(i + 1, b.len() as int));
        i = i + 1;
    }
    i == a.len() && i < b.len()
}

/// `p` is a prefix of `k`.
pub open spec fn starts_with(k: Seq<u8>, p: Seq<u8>) -> bool {
    p.len() <= k.len() && k.subrange(0, p.len() as int) == p
}

/// The part of `m` whose keys start with `p`.
pub open spec fn with_prefix(m: Map<Seq<u8>, Seq<u8>>, p: Seq<u8>) -> Map<Seq<u8>, Seq<u8>> {
    m.restrict(m.dom().filter(|k: Seq<u8>| starts_with(k, p)))
}

/// Listing a prefix after a write under it shows the key written with the
/// value written, uncommitted or not; a listing holds only keys under the
/// prefix, each with its stored value.
pub proof fn lemma_prefix_listing(m: Map<Seq<u8>, Seq<u8>>, k: Seq<u8>, v: Seq<u8>, p: Seq<u8>)
    ensures
        starts_with(k, p) ==> with_prefix(m.insert(k, v), p).contains_key(k) && with_prefix(m.insert(k, v), p)[k] == v,
        forall|k2: Seq<u8>| #[trigger] with_prefix(m, p).contains_key(k2) ==> starts_with(k2, p) && m.contains_key(k2)
            && with_prefix(m, p)[k2] == m[k2],
        forall|k2: Seq<u8>| m.contains_key(k2) && starts_with(k2, p) ==> #[trigger] with_prefix(m, p).contains_key(k2),
{
    let m2 = m.insert(k, v);
    if starts_with(k, p) {
        assert(m2.dom().filter(|x: Seq<u8>| starts_with(x, p)).contains(k));
    }
    assert forall|k2: Seq<u8>| m.contains_key(k2) && starts_with(k2, p) implies #[trigger] with_prefix(m, p).contains_key(k2) by {
        assert(m.dom().filter(|x: Seq<u8>| starts_with(x, p)).contains(k2));
    }
}

/// Each pair of a sequence with unique keys is an entry of its map.
pub proof fn lemma_lookup<K, V>(s: Seq<(K, V)>, i: int)
    requires
        unique_keys(s),
        0 <= i < s.len(),
    ensures
        pairs_map(s).contains_key(s[i].0),
        pairs_map(s)[s[i].0] == s[i].1,
{
    let k = s[i].0;
    assert(exists|j: int| 0 <= j < s.len() && s[j].0 == k);
    let j = choose|j: int| 0 <= j < s.len() && s[j].0 == k;
    assert(j == i);
}

/// A sequence with unique keys spells `m` where its keys are those of `m`
/// and each pair is an entry of `m`.
pub proof fn lemma_map_eq<K, V>(s: Seq<(K, V)>, m: Map<K, V>)
    requires
        unique_keys(s),
        forall|k: K| #[trigger] m.contains_key(k) ==> exists|j: int| 0 <= j < s.len() && s[j].0 == k,
        forall|j: int| 0 <= j < s.len() ==> #[trigger] m.contains_key(s[j].0) && m[s[j].0] == s[j].1,
    ensures
        pairs_map(s) == m,
{
    assert forall|k: K| pairs_map(s).contains_key(k) implies m.contains_key(k) && pairs_map(s)[k] == m[k] by {
        let j = choose|j: int| 0 <= j < s.len() && s[j].0 == k;
        lemma_lookup(s, j);
        assert(m.contains_key(s[j].0));
    }
    assert forall|k: K| m.contains_key(k) implies pairs_map(s).contains_key(k) by {
        let j = choose|j: int| 0 <= j < s.len() && s[j].0 == k;
        lemma_lookup(s, j);
    }
    assert(pairs_map(s) =~= m);
}

/// Two byte vectors hold the same bytes.
pub fn bytes_eq(a: &Vec<u8>, b: &Vec<u8>) -> (r: bool)
    ensures
        r == (a@ == b@),
{
    if a.len() != b.len() {
        return false;
    }
    let mut i: usize = 0;
    while i < a.len()
        invariant
            a.len() == b.len(),
            i <= a.len(),
            a@.subrange(0, i as int) == b@.subrange(0, i as int),
        decreases a.len() - i,
    {
        if a[i] != b[i] {
            assert(a@[i as int] != b@[i as int]);
            return false;
        }
        assert(a@.subrange(0, i + 1) =~= a@.subrange(0, i as int).push(a@[i as int]));
        assert(b@.subrange(0, i + 1) =~= b@.subrange(0, i as int).push(b@[i as int]));
        i = i + 1;
    }
    assert(a@ =~= a@.subrange(0, a.len() as int));
    assert(b@ =~= b@.subrange(0, b.len() as int));
    true
}

/// The bytes of `k` begin with the bytes of `p`.
pub fn bytes_start_with(k: &Vec<u8>, p: &Vec<u8>) -> (r: bool)
    ensures
        r == starts_with(k@, p@),
{
    if p.len() > k.len() {
        return false;
    }
    let mut i: usize = 0;
    while i < p.len()
        invariant
            p.len() <= k.len(),
            i <= p.len(),
            k@.subrange(0, i as int) == p@.subrange(0, i as int),
        decreases p.len() - i,
    {
        if k[i] != p[i] {
            assert(k@.subrange(0, p.len() as int)[i as int] != p@[i as int]);
            return false;
        }
        assert(k@.subrange(0, i + 1) =~= k@.subrange(0, i as int).push(k@[i as int]));
        assert(p@.subrange(0, i + 1) =~= p@.subrange(0, i as int).push(p@[i as int]));
        i = i + 1;
    }
    assert(p@ =~= p@.subrange(0, p.len() as int));
    true
}

/// A fresh vector with the bytes of `v`.
pub fn copy_bytes(v: &Vec<u8>) -> (r: Vec<u8>)
    ensures
        r@ == v@,
{
    let mut r: Vec<u8> = Vec::new();
    let mut i: usize = 0;
    while i < v.len()
        invariant
            i <= v.len(),
            r@ == v@.subrange(0, i as int),
        decreases v.len() - i,
    {
        r.push(v[i]);
        assert(r@ =~= v@.subrange(0, i + 1));
        i = i + 1;
    }
    assert(r@ =~= v@);
    r
}

/// A keyed store of byte strings, each key at most once.
pub struct KvStore {
    entries: Vec<(Vec<u8>, Vec<u8>)>,
}

impl View for KvStore {
    type V = Map<Seq<u8>, Seq<u8>>;

    closed spec fn view(&self) -> Map<Seq<u8>, Seq<u8>> {
        pairs_map(pairs_view(self.entries@))
    }
}

impl KvStore {
    /// The store's invariant: no key is held twice.
    pub closed spec fn wf(&self) -> bool {
        &&& unique_keys(pairs_view(self.entries@))
        &&& sorted_keys(pairs_view(self.entries@))
    }

    /// An empty store.
    pub fn new() -> (r: KvStore)
        ensures
            r.wf(),
            r@ == Map::<Seq<u8>, Seq<u8>>::empty(),
    {
        let r = KvStore { entries: Vec::new() };
        assert(r@ =~= Map::<Seq<u8>, Seq<u8>>::empty());
        r
    }

    fn find(&self, key: &Vec<u8>) -> (r: Option<usize>)
        requires
            self.wf(),
        ensures
            match r {
                Some(i) => i < self.entries.len() && self.entries@[i as int].0@ == key@,
                None => !self@.contains_key(key@),
            },
    {
        let mut i: usize = 0;
        while i < self.entries.len()
            invariant
                i <= self.entries.len(),
                forall|j: int| 0 <= j < i ==> (#[trigger] self.entries@[j]).0@ != key@,
            decreases self.entries.len() - i,
        {
            if bytes_eq(&self.entries[i].0, key) {
                return Some(i);
            }
            i = i + 1;
        }
        let ghost s = pairs_view(self.entries@);
        assert forall|j: int| 0 <= j < s.len() implies s[j].0 != key@ by {
            assert(self.entries@[j].0@ != key@);
        }
        None
    }

    /// The value stored under `key`, if any.
    pub fn get(&self, key: &Vec<u8>) -> (r: Option<Vec<u8>>)
        requires
            self.wf(),
        ensures
            r.is_some() == self@.contains_key(key@),
            r.is_some() ==> r.unwrap()@ == self@[key@],
    {
        match self.find(key) {
            Some(i) => {
                proof {
                    lemma_lookup(pairs_view(self.entries@), i as int);
                }
                Some(copy_bytes(&self.entries[i].1))
            },
            None => None,
        }
    }

    /// Whether a value is stored under `key`.
    pub fn contains(&self, key: &Vec<u8>) -> (r: bool)
        requires
            self.wf(),
        ensures
            r == self@.contains_key(key@),
    {
        match self.find(key) {
            Some(i) => {
                proof {
                    lemma_lookup(pairs_view(self.entries@), i as int);
                }
                true
            },
            None => false,
        }
    }

    fn remove_at(&mut self, i: usize)
        requires
            old(self).wf(),
            i < old(self).entries.len(),
        ensures
            final(self).wf(),
            final(self)@ == old(self)@.remove(old(self).entries@[i as int].0@),
    {
        let ghost s1 = pairs_view(self.entries@);
        let ghost m1 = self@;
        let ghost k = s1[i as int].0;
        self.entries.remove(i);
        let ghost s2 = pairs_view(self.entries@);
        assert(s2 =~= s1.remove(i as int));
        assert(unique_keys(s2)) by {
            assert forall|a: int, b: int| 0 <= a < s2.len() && 0 <= b < s2.len() && a != b implies s2[a].0 != s2[b].0 by {
                let a1 = if a < i { a } else { a + 1 };
                let b1 = if b < i { b } else { b + 1 };
                assert(s2[a] == s1[a1] && s2[b] == s1[b1]);
            }
        }
        assert(sorted_keys(s2)) by {
            assert forall|a: int, b: int| 0 <= a < b < s2.len() implies lex_lt(s2[a].0, s2[b].0) by {
                let a1 = if a < i { a } else { a + 1 };
                let b1 = if b < i { b } else { b + 1 };
                assert(s2[a] == s1[a1] && s2[b] == s1[b1]);
            }
        }
        let ghost m = m1.remove(k);
        assert forall|k2: Seq<u8>| #[trigger] m.contains_key(k2) implies exists|j: int| 0 <= j < s2.len() && s2[j].0 == k2 by {
            let j = choose|j: int| 0 <= j < s1.len() && s1[j].0 == k2;
            assert(j != i);
            let j2 = if j < i { j } else { j - 1 };
            assert(s2[j2] == s1[j]);
        }
        assert forall|j: int| 0 <= j < s2.len() implies #[trigger] m.contains_key(s2[j].0) && m[s2[j].0] == s2[j].1 by {
            let j1 = if j < i { j } else { j + 1 };
            assert(s2[j] == s1[j1]);
            lemma_lookup(s1, j1);
            assert(s1[j1].0 != k);
        }
        proof {
            lemma_map_eq(s2, m);
        }
    }

    fn insert_fresh(&mut self, key: Vec<u8>, value: Vec<u8>)
        requires
            old(self).wf(),
            !old(self)@.contains_key(key@),
        ensures
            final(self).wf(),
            final(self)@ == old(self)@.insert(key@, value@),
    {
        let ghost s1 = pairs_view(self.entries@);
        let ghost m1 = self@;
        let ghost k = key@;
        let ghost v = value@;
        assert forall|j: int| 0 <= j < s1.len() implies s1[j].0 != k by {
            lemma_lookup(s1, j);
        }
        let mut p: usize = 0;
        let mut done: bool = false;
        while !done && p < self.entries.len()
            invariant
                s1 == pairs_view(self.entries@),
                k == key@,
                p <= self.entries.len(),
                forall|j: int| 0 <= j < p ==> lex_lt(#[trigger] s1[j].0, k),
                done ==> p < self.entries.len() && !lex_lt(s1[p as int].0, k),
            decreases (self.entries.len() - p) * 2 + (if done { 0int } else { 1int }),
        {
            assert(s1[p as int].0 == self.entries@[p as int].0@);
            if bytes_lt(&self.entries[p].0, &key) {
                p = p + 1;
            } else {
                done = true;
            }
        }
        proof {
            if p < s1.len() {
                lemma_lex_total(s1[p as int].0, k);
                assert forall|j: int| p < j < s1.len() implies lex_lt(k, #[trigger] s1[j].0) by {
                    lemma_lex_transitive(k, s1[p as int].0, s1[j].0);
                }
            }
        }
        self.entries.insert(p, (key, value));
        let ghost s2 = pairs_view(self.entries@);
        assert(s2 =~= s1.insert(p as int, (k, v)));
        assert(sorted_keys(s2)) by {
            assert forall|a: int, b: int| 0 <= a < b < s2.len() implies lex_lt(s2[a].0, s2[b].0) by {
                if b < p {
                    assert(s2[a] == s1[a] && s2[b] == s1[b]);
                } else if b == p {
                    assert(s2[a] == s1[a]);
                } else if a < p {
                    assert(s2[a] == s1[a] && s2[b] == s1[b - 1]);
                    lemma_lex_transitive(s1[a].0, k, s1[b - 1].0);
                } else if a == p {
                    assert(s2[b] == s1[b - 1]);
                } else {
                    assert(s2[a] == s1[a - 1] && s2[b] == s1[b - 1]);
                }
            }
        }
        proof {
            lemma_sorted_unique(s2);
        }
        let ghost m = m1.insert(k, v);
        assert forall|k2: Seq<u8>| #[trigger] m.contains_key(k2) implies exists|j: int| 0 <= j < s2.len() && s2[j].0 == k2 by {
            if k2 == k {
                assert(s2[p as int].0 == k2);
            } else {
                let j = choose|j: int| 0 <= j < s1.len() && s1[j].0 == k2;
                if j < p {
                    assert(s2[j] == s1[j]);
                } else {
                    assert(s2[j + 1] == s1[j]);
                }
            }
        }
        assert forall|j: int| 0 <= j < s2.len() implies #[trigger] m.contains_key(s2[j].0) && m[s2[j].0] == s2[j].1 by {
            if j < p {
                assert(s2[j] == s1[j]);
                lemma_lookup(s1, j);
            } else if j > p {
                assert(s2[j] == s1[j - 1]);
                lemma_lookup(s1, j - 1);
            }
        }
        proof {
            lemma_map_eq(s2, m);
        }
    }

    /// Stores `value` under `key`, replacing what was there.
    pub fn insert(&mut self, key: Vec<u8>, value: Vec<u8>)
        requires
            old(self).wf(),
        ensures
            final(self).wf(),
            final(self)@ == old(self)@.insert(key@, value@),
    {
        let ghost m0 = self@;
        match self.find(&key) {
            Some(i) => {
                self.remove_at(i);
            },
            None => {},
        }
        assert(self@ == m0.remove(key@));
        self.insert_fresh(key, value);
        assert(self@ =~= m0.insert(key@, value@));
    }

    /// Removes what is stored under `key`, if anything.
    pub fn remove(&mut self, key: &Vec<u8>)
        requires
            old(self).wf(),
        ensures
            final(self).wf(),
            final(self)@ == old(self)@.remove(key@),
    {
        match self.find(key) {
            Some(i) => {
                self.remove_at(i);
            },
            None => {
                assert(self@ =~= self@.remove(key@));
            },
        }
    }

    /// A copy of the store.
    pub fn copy(&self) -> (r: KvStore)
        requires
            self.wf(),
        ensures
            r.wf(),
            r@ == self@,
    {
        let mut entries: Vec<(Vec<u8>, Vec<u8>)> = Vec::new();
        let mut i: usize = 0;
        while i < self.entries.len()
            invariant
                i <= self.entries.len(),
                pairs_view(entries@) == pairs_view(self.entries@).subrange(0, i as int),
            decreases self.entries.len() - i,
        {
            let k = copy_bytes(&self.entries[i].0);
            let v = copy_bytes(&self.entries[i].1);
            let ghost e0 = pairs_view(entries@);
            entries.push((k, v));
            assert(pairs_view(entries@) =~= e0.push(pairs_view(self.entries@)[i as int]));
            assert(pairs_view(entries@) =~= pairs_view(self.entries@).subrange(0, i + 1));
            i = i + 1;
        }
        assert(pairs_view(entries@) =~= pairs_view(self.entries@));
        KvStore { entries }
    }

    /// The pairs whose keys start with `prefix`, each key once.
    pub fn collect_prefix(&self, prefix: &Vec<u8>) -> (r: Vec<(Vec<u8>, Vec<u8>)>)
        requires
            self.wf(),
        ensures
            unique_keys(pairs_view(r@)),
            sorted_keys(pairs_view(r@)),
            pairs_map(pairs_view(r@)) == with_prefix(self@, prefix@),
    {
        let ghost s1 = pairs_view(self.entries@);
        let ghost mut src: Seq<int> = Seq::empty();
        let mut r: Vec<(Vec<u8>, Vec<u8>)> = Vec::new();
        let mut i: usize = 0;
        while i < self.entries.len()
            invariant
                s1 == pairs_view(self.entries@),
                unique_keys(s1),
                sorted_keys(s1),
                i <= self.entries.len(),
                src.len() == r.len(),
                forall|a: int| 0 <= a < src.len() ==> 0 <= #[trigger] src[a] < i,
                forall|a: int, b: int| 0 <= a < b < src.len() ==> src[a] < src[b],
                forall|a: int| 0 <= a < src.len() ==> s1[#[trigger] src[a]] == pairs_view(r@)[a] && starts_with(s1[src[a]].0, prefix@),
                forall|j: int| 0 <= j < i && starts_with(s1[j].0, prefix@) ==> exists|a: int| 0 <= a < src.len() && #[trigger] src[a] == j,
            decreases self.entries.len() - i,
        {
            let ghost r0 = pairs_view(r@);
            let ghost src0 = src;
            if bytes_start_with(&self.entries[i].0, prefix) {
                let k = copy_bytes(&self.entries[i].0);
                let v = copy_bytes(&self.entries[i].1);
                r.push((k, v));
                proof {
                    src = src.push(i as int);
                }
                assert(pairs_view(r@) =~= r0.push(s1[i as int]));
                assert forall|j: int| 0 <= j < i + 1 && starts_with(s1[j].0, prefix@) implies exists|a: int| 0 <= a < src.len() && #[trigger] src[a] == j by {
                    if j < i {
                        let a = choose|a: int| 0 <= a < src0.len() && #[trigger] src0[a] == j;
                        assert(src[a] == j);
                    } else {
                        assert(src[src0.len() as int] == j);
                    }
                }
            }
            i = i + 1;
        }
        let ghost rs = pairs_view(r@);
        assert(unique_keys(rs)) by {
            assert forall|a: int, b: int| 0 <= a < rs.len() && 0 <= b < rs.len() && a != b implies rs[a].0 != rs[b].0 by {
                assert(s1[src[a]] == rs[a]);
                assert(s1[src[b]] == rs[b]);
                assert(src[a] != src[b]);
            }
        }
        assert(sorted_keys(rs)) by {
            assert forall|a: int, b: int| 0 <= a < b < rs.len() implies lex_lt(rs[a].0, rs[b].0) by {
                assert(s1[src[a]] == rs[a]);
                assert(s1[src[b]] == rs[b]);
            }
        }
        let ghost m = with_prefix(self@, prefix@);
        assert forall|k: Seq<u8>| #[trigger] m.contains_key(k) implies exists|a: int| 0 <= a < rs.len() && rs[a].0 == k by {
            let j = choose|j: int| 0 <= j < s1.len() && s1[j].0 == k;
            let a = choose|a: int| 0 <= a < src.len() && #[trigger] src[a] == j;
            assert(rs[a] == s1[src[a]]);
        }
        assert forall|a: int| 0 <= a < rs.len() implies #[trigger] m.contains_key(rs[a].0) && m[rs[a].0] == rs[a].1 by {
            assert(s1[src[a]] == rs[a]);
            lemma_lookup(s1, src[a]);
        }
        proof {
            lemma_map_eq(rs, m);
        }
        r
    }
}

} // verus!
