//! A mapping from tag keys to tag values, kept in key order so that its
//! contents are always listed the same way.
use vstd::prelude::*;
use crate::text::{
    lemma_seq_lt_irreflexive, lemma_seq_lt_total, lemma_seq_lt_transitive, seq_lt, str_eq, str_lt,
};

verus! {

/// Keys strictly increasing: each key once, in string order.
pub open spec fn keys_ordered(s: Seq<(Seq<char>, Seq<char>)>) -> bool {
    forall|i: int, j: int| 0 <= i < j < s.len() ==> seq_lt(#[trigger] s[i].0, #[trigger] s[j].0)
}

/// The value stored under `k`, if any.
pub open spec fn tag_value(s: Seq<(Seq<char>, Seq<char>)>, k: Seq<char>) -> Option<Seq<char>> {
    if exists|i: int| 0 <= i < s.len() && (#[trigger] s[i]).0 == k {
        let i = choose|i: int| 0 <= i < s.len() && (#[trigger] s[i]).0 == k;
        Some(s[i].1)
    } else {
        None
    }
}

pub open spec fn pair_view(p: (String, String)) -> (Seq<char>, Seq<char>) {
    (p.0@, p.1@)
}

/// Tags of an OSM object or changeset: keys unique, listed in key order.
pub struct Tags {
    entries: Vec<(String, String)>,
}

impl View for Tags {
    type V = Seq<(Seq<char>, Seq<char>)>;

    closed spec fn view(&self) -> Seq<(Seq<char>, Seq<char>)> {
        self.entries@.map_values(|p: (String, String)| pair_view(p))
    }
}

impl Tags {
    #[verifier::type_invariant]
    spec fn ordered(&self) -> bool {
        keys_ordered(self@)
    }

    pub fn new() -> (r: Tags)
        ensures
            r@ == Seq::<(Seq<char>, Seq<char>)>::empty(),
    {
        let r = Tags { entries: Vec::new() };
        assert(r@ =~= Seq::<(Seq<char>, Seq<char>)>::empty());
        r
    }

    pub fn len(&self) -> (r: usize)
        ensures
            r == self@.len(),
    {
        self.entries.len()
    }

    pub fn is_empty(&self) -> (r: bool)
        ensures
            r == (self@.len() == 0),
    {
        self.entries.len() == 0
    }

    /// The entries, in key order.
    pub fn entries(&self) -> (r: &Vec<(String, String)>)
        ensures
            r@.map_values(|p: (String, String)| pair_view(p)) == self@,
            keys_ordered(self@),
    {
        proof {
            use_type_invariant(self);
        }
        &self.entries
    }

    /// The value stored under `key`.
    pub fn get(&self, key: &str) -> (r: Option<&String>)
        ensures
            r matches Some(v) ==> tag_value(self@, key@) == Some(v@),
            r is None ==> tag_value(self@, key@) is None,
    {
        proof {
            use_type_invariant(self);
        }
        let n = self.entries.len();
        let mut i: usize = 0;
        while i < n
            invariant
                n == self@.len(),
                n == self.entries@.len(),
                keys_ordered(self@),
                i <= n,
                forall|j: int| 0 <= j < i ==> (#[trigger] self@[j]).0 != key@,
            decreases n - i,
        {
            if str_eq(self.entries[i].0.as_str(), key) {
                proof {
                    self.lemma_value_at(i as int);
                }
                return Some(&self.entries[i].1);
            }
            i = i + 1;
        }
        None
    }

    proof fn lemma_value_at(&self, i: int)
        requires
            keys_ordered(self@),
            0 <= i < self@.len(),
        ensures
            tag_value(self@, self@[i].0) == Some(self@[i].1),
    {
        let s = self@;
        let k = s[i].0;
        assert(0 <= i < s.len() && s[i].0 == k);
        assert forall|j: int| 0 <= j < s.len() && (#[trigger] s[j]).0 == k implies j == i by {
            lemma_same_key(s, i, j);
        }
    }

    /// Stores `value` under `key`, replacing what was stored there.
    pub fn insert(&mut self, key: String, value: String)
        ensures
            forall|k: Seq<char>|
                #[trigger] tag_value(final(self)@, k) == if k == key@ {
                    Some(value@)
                } else {
                    tag_value(old(self)@, k)
                },
    {
        proof {
            use_type_invariant(&*self);
        }
        let ghost s = self@;
        let mut taken = Tags { entries: Vec::new() };
        std::mem::swap(self, &mut taken);
        let Tags { mut entries } = taken;
        assert(entries@.map_values(|p: (String, String)| pair_view(p)) == s);
        let n = entries.len();
        let mut i: usize = 0;
        while i < n
            invariant
                n == s.len(),
                s == old(self)@,
                n == entries@.len(),
                entries@.map_values(|p: (String, String)| pair_view(p)) == s,
                keys_ordered(s),
                i <= n,
                forall|j: int| 0 <= j < i ==> seq_lt((#[trigger] s[j]).0, key@),
            decreases n - i,
        {
            assert(s[i as int] == pair_view(entries@[i as int]));
            if str_eq(entries[i].0.as_str(), key.as_str()) {
                entries.set(i, (key, value));
                let ghost t = entries@.map_values(|p: (String, String)| pair_view(p));
                proof {
                    assert(t =~= s.update(i as int, (key@, value@)));
                    assert(key@ == s[i as int].0);
                    assert forall|a: int, b: int| 0 <= a < b < t.len() implies seq_lt(
                        #[trigger] t[a].0,
                        #[trigger] t[b].0,
                    ) by {
                        assert(t[a].0 == s[a].0);
                        assert(t[b].0 == s[b].0);
                    }
                    assert(t[i as int] == (key@, value@));
                    lemma_insert_lookup(t, s, i as int, false);
                }
                *self = Tags { entries };
                assert(self@ == t);
                return ;
            }
            if str_lt(key.as_str(), entries[i].0.as_str()) {
                entries.insert(i, (key, value));
                let ghost t = entries@.map_values(|p: (String, String)| pair_view(p));
                proof {
                    assert(t =~= s.insert(i as int, (key@, value@)));
                    assert forall|a: int, b: int| 0 <= a < b < t.len() implies seq_lt(
                        #[trigger] t[a].0,
                        #[trigger] t[b].0,
                    ) by {
                        if b > i && a < i {
                            lemma_seq_lt_transitive(s[a].0, key@, s[i as int].0);
                            if b - 1 > i {
                                lemma_seq_lt_transitive(s[a].0, s[i as int].0, s[b - 1].0);
                            }
                        } else if a == i && b - 1 > i {
                            lemma_seq_lt_transitive(key@, s[i as int].0, s[b - 1].0);
                        }
                    }
                    assert forall|j: int| 0 <= j < s.len() implies (#[trigger] s[j]).0 != key@ by {
                        if j >= i {
                            if j > i {
                                lemma_seq_lt_transitive(key@, s[i as int].0, s[j].0);
                            }
                            lemma_seq_lt_irreflexive(key@);
                        } else {
                            lemma_seq_lt_irreflexive(key@);
                        }
                    }
                    assert(t[i as int] == (key@, value@));
                    lemma_insert_lookup(t, s, i as int, true);
                }
                *self = Tags { entries };
                assert(self@ == t);
                return ;
            }
            proof {
                lemma_seq_lt_total(key@, s[i as int].0);
            }
            i = i + 1;
        }
        entries.push((key, value));
        let ghost t = entries@.map_values(|p: (String, String)| pair_view(p));
        proof {
            assert(t =~= s.push((key@, value@)));
            assert(s.insert(n as int, (key@, value@)) =~= s.push((key@, value@)));
            assert forall|j: int| 0 <= j < s.len() implies (#[trigger] s[j]).0 != key@ by {
                lemma_seq_lt_irreflexive(key@);
            }
            assert(t[n as int] == (key@, value@));
            lemma_insert_lookup(t, s, n as int, true);
        }
        *self = Tags { entries };
        assert(self@ == t);
    }
}

proof fn lemma_insert_lookup(t: Seq<(Seq<char>, Seq<char>)>, s: Seq<(Seq<char>, Seq<char>)>, i: int, fresh: bool)
    requires
        keys_ordered(t),
        0 <= i <= s.len(),
        fresh ==> t == s.insert(i, t[i]),
        fresh ==> forall|j: int| 0 <= j < s.len() ==> (#[trigger] s[j]).0 != t[i].0,
        !fresh ==> i < s.len() && t == s.update(i, t[i]) && s[i].0 == t[i].0,
    ensures
        forall|k: Seq<char>|
            #[trigger] tag_value(t, k) == if k == t[i].0 {
                Some(t[i].1)
            } else {
                tag_value(s, k)
            },
{
    assert forall|k: Seq<char>|
        #[trigger] tag_value(t, k) == if k == t[i].0 {
            Some(t[i].1)
        } else {
            tag_value(s, k)
        } by {
        if k == t[i].0 {
            let j = choose|j: int| 0 <= j < t.len() && (#[trigger] t[j]).0 == k;
            assert(t[i].0 == k);
            if j < i {
                assert(seq_lt(t[j].0, t[i].0));
                lemma_seq_lt_irreflexive(k);
            }
            if i < j {
                assert(seq_lt(t[i].0, t[j].0));
                lemma_seq_lt_irreflexive(k);
            }
        } else {
            if fresh {
                if exists|j: int| 0 <= j < s.len() && (#[trigger] s[j]).0 == k {
                    let j = choose|j: int| 0 <= j < s.len() && (#[trigger] s[j]).0 == k;
                    let tj = if j < i {
                        j
                    } else {
                        j + 1
                    };
                    assert(t[tj] == s[j]);
                    let u = choose|u: int| 0 <= u < t.len() && (#[trigger] t[u]).0 == k;
                    assert(u != i);
                    let su = if u < i {
                        u
                    } else {
                        u - 1
                    };
                    assert(s[su] == t[u]);
                    lemma_same_key(t, u, tj);
                    if su != j {
                        assert(s[su].0 == k);
                    }
                }
                if exists|u: int| 0 <= u < t.len() && (#[trigger] t[u]).0 == k {
                    let u = choose|u: int| 0 <= u < t.len() && (#[trigger] t[u]).0 == k;
                    let su = if u < i {
                        u
                    } else {
                        u - 1
                    };
                    assert(s[su] == t[u]);
                }
            } else {
                if exists|j: int| 0 <= j < s.len() && (#[trigger] s[j]).0 == k {
                    let j = choose|j: int| 0 <= j < s.len() && (#[trigger] s[j]).0 == k;
                    assert(j != i);
                    assert(t[j] == s[j]);
                    let u = choose|u: int| 0 <= u < t.len() && (#[trigger] t[u]).0 == k;
                    lemma_same_key(t, u, j);
                    assert(s[u] == t[u]);
                }
                if exists|u: int| 0 <= u < t.len() && (#[trigger] t[u]).0 == k {
                    let u = choose|u: int| 0 <= u < t.len() && (#[trigger] t[u]).0 == k;
                    assert(u != i);
                    assert(s[u] == t[u]);
                }
            }
        }
    }
}

proof fn lemma_same_key(t: Seq<(Seq<char>, Seq<char>)>, a: int, b: int)
    requires
        keys_ordered(t),
        0 <= a < t.len(),
        0 <= b < t.len(),
        t[a].0 == t[b].0,
    ensures
        a == b,
{
    if a < b {
        assert(seq_lt(t[a].0, t[b].0));
        lemma_seq_lt_irreflexive(t[a].0);
    }
    if b < a {
        assert(seq_lt(t[b].0, t[a].0));
        lemma_seq_lt_irreflexive(t[a].0);
    }
}

} // verus!
