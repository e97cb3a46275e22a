use vstd::prelude::*;

verus! {

broadcast use vstd::string::group_string_axioms;

/// The map that a list of key/value pairs stands for: a later pair shadows
/// an earlier one with the same key.
pub open spec fn pairs_map(s: Seq<(String, String)>) -> Map<Seq<char>, Seq<char>>
    decreases s.len(),
{
    if s.len() == 0 {
        Map::empty()
    } else {
        pairs_map(s.drop_last()).insert(s.last().0@, s.last().1@)
    }
}

/// Concatenating two pair lists is the right-preferring union of their maps.
pub proof fn lemma_pairs_map_concat(a: Seq<(String, String)>, b: Seq<(String, String)>)
    ensures
        pairs_map(a + b) == pairs_map(a).union_prefer_right(pairs_map(b)),
    decreases b.len(),
{
    if b.len() == 0 {
        assert(a + b =~= a);
        assert(pairs_map(a).union_prefer_right(pairs_map(b)) =~= pairs_map(a));
    } else {
        lemma_pairs_map_concat(a, b.drop_last());
        assert((a + b).drop_last() =~= a + b.drop_last());
        assert(pairs_map(a + b) =~= pairs_map(a).union_prefer_right(pairs_map(b)));
    }
}

/// Pairs past `i` that do not carry `k` leave its value as the first `i` pairs give it.
proof fn lemma_pairs_map_suffix_without_key(s: Seq<(String, String)>, i: int, k: Seq<char>)
    requires
        0 <= i <= s.len(),
        forall|j: int| i <= j < s.len() ==> s[j].0@ != k,
    ensures
        pairs_map(s).contains_key(k) == pairs_map(s.subrange(0, i)).contains_key(k),
        pairs_map(s)[k] == pairs_map(s.subrange(0, i))[k],
    decreases s.len() - i,
{
    if i < s.len() {
        assert(s.drop_last() == s.subrange(0, s.len() - 1));
        lemma_pairs_map_suffix_without_key(s.drop_last(), i, k);
        assert(s.drop_last().subrange(0, i) =~= s.subrange(0, i));
    } else {
        assert(s.subrange(0, i) =~= s);
    }
}

/// An immutable log message: a non-empty uuid, an optional name and a map of
/// string values.
pub struct Message {
    uuid: String,
    name: Option<String>,
    values: Vec<(String, String)>,
}

impl Message {
    pub closed spec fn spec_uuid(&self) -> Seq<char> {
        self.uuid@
    }

    pub closed spec fn spec_name(&self) -> Option<Seq<char>> {
        match self.name {
            Some(n) => Some(n@),
            None => None,
        }
    }

    /// The pairs in the order they were given.
    pub closed spec fn spec_pairs(&self) -> Seq<(String, String)> {
        self.values@
    }

    pub open spec fn spec_values(&self) -> Map<Seq<char>, Seq<char>> {
        pairs_map(self.spec_pairs())
    }

    pub fn uuid(&self) -> (r: &String)
        ensures
            r@ == self.spec_uuid(),
    {
        &self.uuid
    }

    /// The key/value pairs in the order they were given.
    pub fn pairs(&self) -> (r: &Vec<(String, String)>)
        ensures
            r@ == self.spec_pairs(),
    {
        &self.values
    }

    pub(crate) fn from_parts(uuid: String, name: Option<String>, values: Vec<(String, String)>) -> (r: Message)
        ensures
            r.spec_uuid() == uuid@,
            r.spec_name() == (match name {
                Some(n) => Some(n@),
                None => None::<Seq<char>>,
            }),
            r.spec_pairs() == values@,
    {
        Message { uuid, name, values }
    }

    pub fn name(&self) -> (r: Option<&String>)
        ensures
            r.is_some() == self.spec_name().is_some(),
            r.is_some() ==> r.unwrap()@ == self.spec_name().unwrap(),
    {
        match &self.name {
            Some(n) => Some(n),
            None => None,
        }
    }

    /// The value stored under `key`, if any.
    pub fn get(&self, key: &str) -> (r: Option<&String>)
        ensures
            r.is_some() == self.spec_values().contains_key(key@),
            r.is_some() ==> r.unwrap()@ == self.spec_values()[key@],
    {
        let k = key.to_string();
        let mut i: usize = self.values.len();
        while i > 0
            invariant
                i <= self.values@.len(),
                k@ == key@,
                forall|j: int| i <= j < self.values@.len() ==> self.values@[j].0@ != k@,
            decreases i,
        {
            if self.values[i - 1].0 == k {
                proof {
                    let s = self.values@;
                    lemma_pairs_map_suffix_without_key(s, i as int, k@);
                    assert(s.subrange(0, i as int).drop_last() =~= s.subrange(0, i - 1));
                }
                return Some(&self.values[i - 1].1);
            }
            i = i - 1;
        }
        proof {
            lemma_pairs_map_suffix_without_key(self.values@, 0, k@);
        }
        None
    }
}

/// Builds a [`Message`] from a uuid, an optional name and key/value pairs.
pub struct Builder {
    uuid: String,
    name: Option<String>,
    values: Vec<(String, String)>,
}

impl Builder {
    pub closed spec fn spec_uuid(&self) -> Seq<char> {
        self.uuid@
    }

    pub closed spec fn spec_name(&self) -> Option<Seq<char>> {
        match self.name {
            Some(n) => Some(n@),
            None => None,
        }
    }

    pub closed spec fn spec_pairs(&self) -> Seq<(String, String)> {
        self.values@
    }

    pub open spec fn spec_values(&self) -> Map<Seq<char>, Seq<char>> {
        pairs_map(self.spec_pairs())
    }

    pub fn new(uuid: &str) -> (r: Builder)
        requires
            uuid@.len() > 0,
        ensures
            r.spec_uuid() == uuid@,
            r.spec_name() is None,
            r.spec_values() == Map::<Seq<char>, Seq<char>>::empty(),
    {
        Builder { uuid: uuid.to_string(), name: None, values: Vec::new() }
    }

    pub fn name(&mut self, name: String)
        ensures
            final(self).spec_uuid() == old(self).spec_uuid(),
            final(self).spec_name() == Some(name@),
            final(self).spec_pairs() == old(self).spec_pairs(),
    {
        self.name = Some(name);
    }

    /// Adds a value; a later value under the same key replaces the earlier one.
    pub fn pair(&mut self, key: String, value: String)
        ensures
            final(self).spec_uuid() == old(self).spec_uuid(),
            final(self).spec_name() == old(self).spec_name(),
            final(self).spec_pairs() == old(self).spec_pairs().push((key, value)),
            final(self).spec_values() == old(self).spec_values().insert(key@, value@),
    {
        self.values.push((key, value));
        proof {
            assert(self.values@.drop_last() =~= old(self).values@);
        }
    }

    pub fn build(&self) -> (r: Message)
        requires
            self.spec_uuid().len() > 0,
        ensures
            r.spec_uuid() == self.spec_uuid(),
            r.spec_name() == self.spec_name(),
            r.spec_pairs() == self.spec_pairs(),
            r.spec_values() == self.spec_values(),
    {
        let name = match &self.name {
            Some(n) => Some(n.clone()),
            None => None,
        };
        let mut values: Vec<(String, String)> = Vec::new();
        let mut i: usize = 0;
        while i < self.values.len()
            invariant
                i <= self.values@.len(),
                values@ == self.values@.subrange(0, i as int),
            decreases self.values@.len() - i,
        {
            let k = self.values[i].0.clone();
            let v = self.values[i].1.clone();
            values.push((k, v));
            proof {
                assert(values@ =~= self.values@.subrange(0, i + 1));
            }
            i = i + 1;
        }
        proof {
            assert(values@ =~= self.values@);
        }
        Message { uuid: self.uuid.clone(), name, values }
    }
}

} // verus!
