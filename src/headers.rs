//! The header map of a message: owned, normalized names mapped to values
//! borrowed from the message text.
use vstd::prelude::*;
use crate::text::same_text;

verus! {

/// One header: its normalized name and the value borrowed from the message.
pub struct HeaderField<'a> {
    name: String,
    value: &'a str,
}

/// Names mapped to values, at most one value per name; inserting a name that is
/// already there replaces its value.
pub struct Headers<'a> {
    fields: Vec<HeaderField<'a>>,
}

/// The map that a list of (name, value) pairs describes, a later pair replacing
/// an earlier one with the same name.
pub open spec fn pairs_to_map(s: Seq<(Seq<char>, Seq<char>)>) -> Map<Seq<char>, Seq<char>>
    decreases s.len(),
{
    if s.len() == 0 {
        Map::empty()
    } else {
        pairs_to_map(s.drop_last()).insert(s.last().0, s.last().1)
    }
}

/// No two pairs share a name.
pub open spec fn names_distinct(s: Seq<(Seq<char>, Seq<char>)>) -> bool {
    forall|i: int, j: int| 0 <= i < j < s.len() ==> #[trigger] s[i].0 != #[trigger] s[j].0
}

/// With distinct names, the map holds exactly the names of the list, each with
/// the value paired with it.
proof fn lemma_pairs_to_map(s: Seq<(Seq<char>, Seq<char>)>)
    requires
        names_distinct(s),
    ensures
        forall|k: Seq<char>|
            #[trigger] pairs_to_map(s).contains_key(k) <==> exists|i: int|
                0 <= i < s.len() && #[trigger] s[i].0 == k,
        forall|i: int| 0 <= i < s.len() ==> #[trigger] pairs_to_map(s)[s[i].0] == s[i].1,
    decreases s.len(),
{
    if s.len() > 0 {
        let p = s.drop_last();
        assert(names_distinct(p));
        lemma_pairs_to_map(p);
        let last = s.len() - 1;
        assert(pairs_to_map(s) == pairs_to_map(p).insert(s[last].0, s[last].1));
        assert forall|k: Seq<char>|
            #[trigger] pairs_to_map(s).contains_key(k) <==> exists|i: int|
                0 <= i < s.len() && #[trigger] s[i].0 == k by {
            if pairs_to_map(s).contains_key(k) && k != s.last().0 {
                assert(pairs_to_map(p).contains_key(k));
                let i = choose|i: int| 0 <= i < p.len() && #[trigger] p[i].0 == k;
                assert(s[i].0 == k);
            }
            if k == s[last].0 {
                assert(s[last].0 == k);
            }
            if exists|i: int| 0 <= i < s.len() && #[trigger] s[i].0 == k {
                let i = choose|i: int| 0 <= i < s.len() && #[trigger] s[i].0 == k;
                if i < last {
                    assert(p[i].0 == k);
                    assert(pairs_to_map(p).contains_key(k));
                }
            }
        }
        assert forall|i: int| 0 <= i < s.len() implies #[trigger] pairs_to_map(s)[s[i].0]
            == s[i].1 by {
            if i < last {
                assert(p[i] == s[i]);
                assert(s[i].0 != s[last].0);
                assert(pairs_to_map(p)[p[i].0] == p[i].1);
            }
        }
    }
}

impl<'a> HeaderField<'a> {
    pub closed spec fn pair(&self) -> (Seq<char>, Seq<char>) {
        (self.name@, self.value@)
    }
}

impl<'a> Headers<'a> {
    /// The fields as (name, value) pairs, in the order they were stored.
    pub closed spec fn pairs(&self) -> Seq<(Seq<char>, Seq<char>)> {
        self.fields@.map_values(|f: HeaderField<'a>| f.pair())
    }

    /// Each name is stored once.
    pub closed spec fn wf(&self) -> bool {
        names_distinct(self.pairs())
    }

    /// An empty map.
    pub fn new() -> (r: Headers<'a>)
        ensures
            r.wf(),
            r@ == Map::<Seq<char>, Seq<char>>::empty(),
    {
        let r = Headers { fields: Vec::new() };
        assert(r.pairs() =~= Seq::<(Seq<char>, Seq<char>)>::empty());
        r
    }

    /// Maps `name` to `value`, replacing any value that `name` had.
    pub fn insert(&mut self, name: String, value: &'a str)
        requires
            old(self).wf(),
        ensures
            final(self).wf(),
            final(self)@ == old(self)@.insert(name@, value@),
    {
        let ghost s = self.pairs();
        proof {
            lemma_pairs_to_map(s);
        }
        let mut i: usize = 0;
        while i < self.fields.len()
            invariant
                self.fields@ == old(self).fields@,
                s == self.pairs(),
                names_distinct(s),
                0 <= i <= s.len(),
                forall|j: int| 0 <= j < i ==> #[trigger] s[j].0 != name@,
            decreases s.len() - i,
        {
            if same_text(self.fields[i].name.as_str(), name.as_str()) {
                let field = HeaderField { name, value };
                self.fields.set(i, field);
                proof {
                    let t = self.pairs();
                    assert(s[i as int].0 == name@);
                    assert(t =~= s.update(i as int, (name@, value@)));
                    assert forall|a: int, b: int| 0 <= a < b < t.len() implies #[trigger] t[a].0
                        != #[trigger] t[b].0 by {
                        assert(t[a].0 == s[a].0);
                        assert(t[b].0 == s[b].0);
                    }
                    assert(names_distinct(t));
                    lemma_pairs_to_map(t);
                    lemma_pairs_to_map(s);
                    assert forall|k: Seq<char>| #[trigger]
                        pairs_to_map(t).contains_key(k) == pairs_to_map(s).insert(
                            name@,
                            value@,
                        ).contains_key(k) by {
                        if exists|j: int| 0 <= j < s.len() && #[trigger] s[j].0 == k {
                            let j = choose|j: int| 0 <= j < s.len() && #[trigger] s[j].0 == k;
                            assert(t[j].0 == k);
                        }
                        if exists|j: int| 0 <= j < t.len() && #[trigger] t[j].0 == k {
                            let j = choose|j: int| 0 <= j < t.len() && #[trigger] t[j].0 == k;
                            assert(s[j].0 == k);
                        }
                    }
                    assert forall|k: Seq<char>| #[trigger]
                        pairs_to_map(t).contains_key(k) implies pairs_to_map(t)[k]
                        == pairs_to_map(s).insert(name@, value@)[k] by {
                        let j = choose|j: int| 0 <= j < t.len() && #[trigger] t[j].0 == k;
                        assert(pairs_to_map(t)[t[j].0] == t[j].1);
                        if j != i {
                            assert(s[j] == t[j]);
                            assert(pairs_to_map(s)[s[j].0] == s[j].1);
                        }
                    }
                    assert(pairs_to_map(t) =~= pairs_to_map(s).insert(name@, value@));
                }
                return;
            }
            i = i + 1;
        }
        let field = HeaderField { name, value };
        self.fields.push(field);
        proof {
            let t = self.pairs();
            assert(t =~= s.push((name@, value@)));
            assert(t.drop_last() =~= s);
            assert(names_distinct(t));
            lemma_pairs_to_map(s);
        }
    }

    /// The value stored under `name`, compared character by character.
    pub fn get(&self, name: &str) -> (r: Option<&'a str>)
        requires
            self.wf(),
        ensures
            match r {
                Some(v) => self@.contains_key(name@) && self@[name@] == v@,
                None => !self@.contains_key(name@),
            },
    {
        let ghost s = self.pairs();
        proof {
            lemma_pairs_to_map(s);
        }
        let mut i: usize = 0;
        while i < self.fields.len()
            invariant
                s == self.pairs(),
                names_distinct(s),
                0 <= i <= s.len(),
                forall|j: int| 0 <= j < i ==> #[trigger] s[j].0 != name@,
            decreases s.len() - i,
        {
            if same_text(self.fields[i].name.as_str(), name) {
                proof {
                    lemma_pairs_to_map(s);
                }
                assert(s[i as int].0 == name@);
                assert(s[i as int].1 == self.fields[i as int].value@);
                assert(pairs_to_map(s)[s[i as int].0] == s[i as int].1);
                return Some(self.fields[i].value);
            }
            i = i + 1;
        }
        proof {
            lemma_pairs_to_map(s);
        }
        None
    }
}

impl<'a> View for Headers<'a> {
    type V = Map<Seq<char>, Seq<char>>;

    closed spec fn view(&self) -> Map<Seq<char>, Seq<char>> {
        pairs_to_map(self.pairs())
    }
}

} // verus!
