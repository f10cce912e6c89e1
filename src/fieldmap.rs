//! A map from template field names to values, kept as a vector of pairs with
//! distinct keys.
use vstd::prelude::*;

verus! {

/// The map that inserting `es` in order builds; a later pair overrides an
/// earlier one with the same key.
pub open spec fn entries_map(es: Seq<(Seq<char>, Seq<char>)>) -> Map<Seq<char>, Seq<char>>
    decreases es.len(),
{
    if es.len() == 0 {
        Map::empty()
    } else {
        entries_map(es.drop_last()).insert(es.last().0, es.last().1)
    }
}

/// The views of a sequence of string pairs.
pub open spec fn pair_views(v: Seq<(String, String)>) -> Seq<(Seq<char>, Seq<char>)> {
    v.map_values(|p: (String, String)| (p.0@, p.1@))
}

/// No two pairs share a key.
pub open spec fn keys_distinct(es: Seq<(Seq<char>, Seq<char>)>) -> bool {
    forall|i: int, j: int| 0 <= i < j < es.len() ==> es[i].0 != es[j].0
}

proof fn lemma_entries_map_lookup(es: Seq<(Seq<char>, Seq<char>)>, k: Seq<char>)
    requires
        keys_distinct(es),
    ensures
        entries_map(es).contains_key(k) <==> exists|i: int| 0 <= i < es.len() && es[i].0 == k,
        forall|i: int| 0 <= i < es.len() && es[i].0 == k ==> entries_map(es)[k] == es[i].1,
    decreases es.len(),
{
    if es.len() > 0 {
        let init = es.drop_last();
        assert(keys_distinct(init));
        lemma_entries_map_lookup(init, k);
        if entries_map(es).contains_key(k) && es.last().0 != k {
            let i = choose|i: int| 0 <= i < init.len() && init[i].0 == k;
            assert(es[i].0 == k);
        }
        if exists|i: int| 0 <= i < es.len() && es[i].0 == k {
            let i = choose|i: int| 0 <= i < es.len() && es[i].0 == k;
            if i < es.len() - 1 {
                assert(init[i].0 == k);
            }
        }
    }
}

proof fn lemma_entries_map_update(es: Seq<(Seq<char>, Seq<char>)>, i: int, v: Seq<char>)
    requires
        keys_distinct(es),
        0 <= i < es.len(),
    ensures
        entries_map(es.update(i, (es[i].0, v))) == entries_map(es).insert(es[i].0, v),
    decreases es.len(),
{
    let k = es[i].0;
    let es2 = es.update(i, (k, v));
    let last = es.len() - 1;
    if i == last {
        assert(es2.drop_last() == es.drop_last());
        assert(entries_map(es2) =~= entries_map(es).insert(k, v));
    } else {
        let init = es.drop_last();
        assert(keys_distinct(init));
        lemma_entries_map_update(init, i, v);
        assert(es2.drop_last() == init.update(i, (k, v)));
        assert(es.last().0 != k);
        assert(entries_map(es2) =~= entries_map(es).insert(k, v));
    }
}

/// Field names mapped to values; each name at most once.
pub struct TemplateFieldMap {
    entries: Vec<(String, String)>,
}

impl View for TemplateFieldMap {
    type V = Map<Seq<char>, Seq<char>>;

    closed spec fn view(&self) -> Map<Seq<char>, Seq<char>> {
        entries_map(pair_views(self.entries@))
    }
}

impl TemplateFieldMap {
    /// The representation holds each key once.
    pub closed spec fn wf(&self) -> bool {
        keys_distinct(pair_views(self.entries@))
    }

    /// The empty map.
    pub fn new() -> (r: TemplateFieldMap)
        ensures
            r.wf(),
            r@ == Map::<Seq<char>, Seq<char>>::empty(),
    {
        let r = TemplateFieldMap { entries: Vec::new() };
        assert(pair_views(r.entries@).len() == 0);
        r
    }

    /// Maps `key` to `value`, replacing an earlier value of `key`.
    pub fn insert(&mut self, key: String, value: String)
        requires
            old(self).wf(),
        ensures
            final(self).wf(),
            final(self)@ == old(self)@.insert(key@, value@),
    {
        let ghost es = pair_views(self.entries@);
        let mut i: usize = 0;
        while i < self.entries.len()
            invariant
                i <= self.entries.len(),
                es == pair_views(self.entries@),
                self.entries@ == old(self).entries@,
                keys_distinct(es),
                forall|j: int| 0 <= j < i ==> es[j].0 != key@,
            decreases self.entries.len() - i,
        {
            if self.entries[i].0 == key {
                assert(es[i as int].0 == key@);
                proof {
                    lemma_entries_map_update(es, i as int, value@);
                }
                self.entries.set(i, (key, value));
                assert(pair_views(self.entries@) == es.update(i as int, (es[i as int].0, value@)));
                assert(self@ == entries_map(es).insert(key@, value@));
                assert(keys_distinct(pair_views(self.entries@)));
                return;
            }
            i += 1;
        }
        self.entries.push((key, value));
        assert(pair_views(self.entries@) == es.push((key@, value@)));
        assert(pair_views(self.entries@).drop_last() == es);
    }

    /// The value of `key`, if any.
    pub fn get(&self, key: &str) -> (r: Option<String>)
        requires
            self.wf(),
        ensures
            match r {
                Some(v) => self@.contains_key(key@) && self@[key@] == v@,
                None => !self@.contains_key(key@),
            },
    {
        let ghost es = pair_views(self.entries@);
        assert(self@ == entries_map(es));
        proof {
            lemma_entries_map_lookup(es, key@);
        }
        let wanted = key.to_owned();
        let mut i: usize = 0;
        while i < self.entries.len()
            invariant
                i <= self.entries.len(),
                es == pair_views(self.entries@),
                keys_distinct(es),
                wanted@ == key@,
                forall|j: int| 0 <= j < i ==> es[j].0 != key@,
            decreases self.entries.len() - i,
        {
            if self.entries[i].0 == wanted {
                assert(es[i as int].0 == key@);
                proof {
                    lemma_entries_map_lookup(es, key@);
                }
                assert(es[i as int].1 == self.entries@[i as int].1@);
                return Some(self.entries[i].1.clone());
            }
            i += 1;
        }
        proof {
            lemma_entries_map_lookup(es, key@);
        }
        None
    }

    /// The number of fields.
    pub fn len(&self) -> (r: usize)
        requires
            self.wf(),
        ensures
            r == self@.dom().len(),
    {
        proof {
            lemma_dom_len(pair_views(self.entries@));
        }
        self.entries.len()
    }

    /// The field names, in order of first insertion.
    pub fn keys(&self) -> (r: Vec<String>)
        requires
            self.wf(),
        ensures
            r@.len() == self@.dom().len(),
            forall|i: int| 0 <= i < r@.len() ==> #[trigger] self@.contains_key(r@[i]@),
            forall|k: Seq<char>| self@.contains_key(k) ==> exists|i: int| 0 <= i < r@.len() && r@[i]@ == k,
    {
        let ghost es = pair_views(self.entries@);
        proof {
            lemma_dom_len(es);
        }
        let mut r: Vec<String> = Vec::new();
        let mut i: usize = 0;
        while i < self.entries.len()
            invariant
                i <= self.entries.len(),
                es == pair_views(self.entries@),
                r@.len() == i,
                forall|j: int| 0 <= j < i ==> r@[j]@ == es[j].0,
            decreases self.entries.len() - i,
        {
            r.push(self.entries[i].0.clone());
            i += 1;
        }
        assert forall|j: int| 0 <= j < r@.len() implies #[trigger] self@.contains_key(r@[j]@) by {
            lemma_entries_map_lookup(es, r@[j]@);
            assert(es[j].0 == r@[j]@);
        }
        assert forall|k: Seq<char>| self@.contains_key(k) implies exists|i: int| 0 <= i < r@.len() && r@[i]@ == k by {
            lemma_entries_map_lookup(es, k);
        }
        r
    }
}

proof fn lemma_dom_len(es: Seq<(Seq<char>, Seq<char>)>)
    requires
        keys_distinct(es),
    ensures
        entries_map(es).dom().finite(),
        entries_map(es).dom().len() == es.len(),
    decreases es.len(),
{
    if es.len() > 0 {
        let init = es.drop_last();
        assert(keys_distinct(init));
        lemma_dom_len(init);
        lemma_entries_map_lookup(init, es.last().0);
        assert(!entries_map(init).contains_key(es.last().0));
    }
}

} // verus!
